//! The result mapping: identifier to the records that carry it, keys kept
//! in first-occurrence order.

use vstd::prelude::*;
use crate::rnacentral::{RfamAnnotation, AnnotationView, recs_view};
use crate::text::str_eq;

verus! {

/// The map that a key list and a group list side by side stand for.
pub open spec fn assoc_map(ks: Seq<Seq<char>>, gs: Seq<Seq<AnnotationView>>) -> Map<
    Seq<char>,
    Seq<AnnotationView>,
>
    decreases ks.len(),
{
    if ks.len() == 0 || gs.len() == 0 {
        Map::empty()
    } else {
        assoc_map(ks.drop_last(), gs.drop_last()).insert(ks.last(), gs.last())
    }
}

/// The represented map has exactly the listed keys.
proof fn lemma_assoc_dom(ks: Seq<Seq<char>>, gs: Seq<Seq<AnnotationView>>)
    requires
        ks.len() == gs.len(),
    ensures
        assoc_map(ks, gs).dom() =~= ks.to_set(),
    decreases ks.len(),
{
    if ks.len() == 0 {
        assert(ks.to_set() =~= Set::<Seq<char>>::empty());
    } else {
        lemma_assoc_dom(ks.drop_last(), gs.drop_last());
        crate::idset::lemma_push_to_set(ks.drop_last(), ks.last());
        assert(ks.drop_last().push(ks.last()) =~= ks);
    }
}

/// With distinct keys, each key maps to the group beside it.
proof fn lemma_assoc_index(ks: Seq<Seq<char>>, gs: Seq<Seq<AnnotationView>>, i: int)
    requires
        ks.len() == gs.len(),
        ks.no_duplicates(),
        0 <= i < ks.len(),
    ensures
        assoc_map(ks, gs).dom().contains(ks[i]),
        assoc_map(ks, gs)[ks[i]] == gs[i],
    decreases ks.len(),
{
    lemma_assoc_dom(ks, gs);
    assert(ks.to_set().contains(ks[i]));
    if i < ks.len() - 1 {
        assert(ks[i] != ks.last());
        lemma_assoc_index(ks.drop_last(), gs.drop_last(), i);
    }
}

/// Replacing one group replaces that key's value and nothing else.
proof fn lemma_assoc_update(
    ks: Seq<Seq<char>>,
    gs: Seq<Seq<AnnotationView>>,
    i: int,
    g: Seq<AnnotationView>,
)
    requires
        ks.len() == gs.len(),
        ks.no_duplicates(),
        0 <= i < ks.len(),
    ensures
        assoc_map(ks, gs.update(i, g)) =~= assoc_map(ks, gs).insert(ks[i], g),
    decreases ks.len(),
{
    let kd = ks.drop_last();
    let gd = gs.drop_last();
    if i == ks.len() - 1 {
        assert(gs.update(i, g).drop_last() =~= gd);
        assert(gs.update(i, g).last() == g);
    } else {
        assert(gs.update(i, g).drop_last() =~= gd.update(i, g));
        assert(gs.update(i, g).last() == gs.last());
        lemma_assoc_update(kd, gd, i, g);
        assert(ks[i] != ks.last());
    }
}

/// A set of unique annotation groups keyed by identifier.  Keys keep the
/// order in which they first appeared; each group keeps the order in which
/// its records were added.
#[derive(Debug, PartialEq, Eq)]
pub struct AnnotationMap {
    keys: Vec<String>,
    groups: Vec<Vec<RfamAnnotation>>,
}

impl View for AnnotationMap {
    type V = Map<Seq<char>, Seq<AnnotationView>>;

    closed spec fn view(&self) -> Map<Seq<char>, Seq<AnnotationView>> {
        assoc_map(self.key_seq(), self.group_views())
    }
}

impl AnnotationMap {
    /// The keys, in first-occurrence order.
    pub closed spec fn key_seq(&self) -> Seq<Seq<char>> {
        self.keys@.map_values(|s: String| s@)
    }

    /// The groups, in the order of their keys.
    pub closed spec fn group_views(&self) -> Seq<Seq<AnnotationView>> {
        self.groups@.map_values(|g: Vec<RfamAnnotation>| recs_view(g@))
    }

    /// Each key is listed once, beside its group.
    pub closed spec fn wf(&self) -> bool {
        self.keys@.len() == self.groups@.len() && self.key_seq().no_duplicates()
    }

    /// The empty mapping.
    pub fn new() -> (r: AnnotationMap)
        ensures
            r.wf(),
            r.key_seq() == Seq::<Seq<char>>::empty(),
            r@ == Map::<Seq<char>, Seq<AnnotationView>>::empty(),
    {
        let r = AnnotationMap { keys: Vec::new(), groups: Vec::new() };
        proof {
            assert(r.key_seq() =~= Seq::<Seq<char>>::empty());
            assert(r@ =~= Map::<Seq<char>, Seq<AnnotationView>>::empty());
        }
        r
    }

    /// The position of a key, if it is present.
    fn find_key(&self, key: &str) -> (r: Option<usize>)
        ensures
            match r {
                Some(i) => i < self.keys@.len() && self.key_seq()[i as int] == key@,
                None => !self.key_seq().contains(key@),
            },
    {
        let mut i: usize = 0;
        while i < self.keys.len()
            invariant
                0 <= i <= self.keys@.len(),
                forall|k: int| 0 <= k < i ==> self.key_seq()[k] != key@,
            decreases self.keys@.len() - i,
        {
            if str_eq(self.keys[i].as_str(), key) {
                proof {
                    assert(self.key_seq()[i as int] == self.keys@[i as int]@);
                }
                return Some(i);
            }
            i += 1;
        }
        proof {
            if self.key_seq().contains(key@) {
                let k = choose|k: int|
                    0 <= k < self.key_seq().len() && self.key_seq()[k] == key@;
                assert(false);
            }
        }
        None
    }

    /// Adds one record to its identifier's group, opening the group at the
    /// end of the key order if the identifier is new.
    pub fn add_record(&mut self, rec: RfamAnnotation)
        requires
            old(self).wf(),
        ensures
            final(self).wf(),
            ({
                let k = rec@.urs_identifier;
                if old(self)@.dom().contains(k) {
                    &&& final(self).key_seq() == old(self).key_seq()
                    &&& final(self)@ == old(self)@.insert(k, old(self)@[k].push(rec@))
                } else {
                    &&& final(self).key_seq() == old(self).key_seq().push(k)
                    &&& final(self)@ == old(self)@.insert(k, seq![rec@])
                }
            }),
    {
        let ghost k = rec@.urs_identifier;
        let ghost old_ks = self.key_seq();
        let ghost old_gv = self.group_views();
        proof {
            lemma_assoc_dom(old_ks, old_gv);
        }
        let idx = self.find_key(rec.urs_identifier.as_str());
        match idx {
            Some(i) => {
                proof {
                    assert(old_ks.to_set().contains(old_ks[i as int]));
                    assert(old(self)@.dom().contains(k));
                    lemma_assoc_index(old_ks, old_gv, i as int);
                }
                let mut g = self.groups.remove(i);
                let ghost gv = recs_view(g@);
                g.push(rec);
                proof {
                    assert(recs_view(g@) =~= gv.push(rec@));
                }
                self.groups.insert(i, g);
                proof {
                    assert(self.groups@ =~= old(self).groups@.update(i as int, g));
                    assert(self.group_views() =~= old_gv.update(i as int, gv.push(rec@)));
                    assert(gv == old(self)@[k]);
                    lemma_assoc_update(old_ks, old_gv, i as int, gv.push(rec@));
                }
            },
            None => {
                proof {
                    assert(!old_ks.to_set().contains(k));
                    assert(!old(self)@.dom().contains(k));
                }
                let key = rec.urs_identifier.clone();
                let mut g: Vec<RfamAnnotation> = Vec::new();
                g.push(rec);
                self.keys.push(key);
                self.groups.push(g);
                proof {
                    assert(recs_view(g@) =~= seq![rec@]);
                    assert(self.key_seq() =~= old_ks.push(k));
                    assert(self.group_views() =~= old_gv.push(seq![rec@]));
                    assert(self.key_seq().drop_last() =~= old_ks);
                    assert(self.group_views().drop_last() =~= old_gv);
                    assert forall|a: int, b: int|
                        0 <= a < b < self.key_seq().len() implies self.key_seq()[a]
                        != self.key_seq()[b] by {
                        if b == self.key_seq().len() - 1 {
                            assert(self.key_seq()[a] == old_ks[a]);
                        }
                    }
                }
            },
        }
    }

    /// The number of identifiers with at least one record.
    pub fn len(&self) -> (r: usize)
        requires
            self.wf(),
        ensures
            r == self.key_seq().len(),
            r == self@.dom().len(),
    {
        proof {
            lemma_assoc_dom(self.key_seq(), self.group_views());
            self.key_seq().unique_seq_to_set();
        }
        self.keys.len()
    }

    /// The group of a key, if the key has one.
    pub fn get(&self, key: &str) -> (r: Option<&Vec<RfamAnnotation>>)
        requires
            self.wf(),
        ensures
            match r {
                Some(g) => self@.dom().contains(key@) && recs_view(g@) == self@[key@],
                None => !self@.dom().contains(key@),
            },
    {
        proof {
            lemma_assoc_dom(self.key_seq(), self.group_views());
        }
        match self.find_key(key) {
            Some(i) => {
                proof {
                    lemma_assoc_index(self.key_seq(), self.group_views(), i as int);
                    assert(self.group_views()[i as int] == recs_view(self.groups@[i as int]@));
                }
                Some(&self.groups[i])
            },
            None => None,
        }
    }

    /// The key at a position of the key order.
    pub fn key_at(&self, i: usize) -> (r: &String)
        requires
            self.wf(),
            i < self.key_seq().len(),
        ensures
            r@ == self.key_seq()[i as int],
    {
        &self.keys[i]
    }

    /// The group beside the key at a position of the key order.
    pub fn group_at(&self, i: usize) -> (r: &Vec<RfamAnnotation>)
        requires
            self.wf(),
            i < self.key_seq().len(),
        ensures
            recs_view(r@) == self@[self.key_seq()[i as int]],
            self@.dom().contains(self.key_seq()[i as int]),
    {
        proof {
            lemma_assoc_index(self.key_seq(), self.group_views(), i as int);
            assert(self.group_views()[i as int] == recs_view(self.groups@[i as int]@));
        }
        &self.groups[i]
    }
}

} // verus!
