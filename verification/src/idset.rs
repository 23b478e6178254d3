//! The set of identifiers loaded from the identifier file.

use vstd::prelude::*;
use crate::text::str_eq;

verus! {

/// A set of unique identifier strings.  Duplicate insertions collapse
/// silently; the stored order carries no meaning.
#[derive(Debug)]
pub struct IdentifierSet {
    items: Vec<String>,
}

impl View for IdentifierSet {
    type V = Set<Seq<char>>;

    closed spec fn view(&self) -> Set<Seq<char>> {
        self.items@.map_values(|s: String| s@).to_set()
    }
}

/// A pushed element joins the set.
pub proof fn lemma_push_to_set<A>(s: Seq<A>, v: A)
    ensures
        s.push(v).to_set() =~= s.to_set().insert(v),
{
    assert forall|x: A| s.push(v).to_set().contains(x) implies s.to_set().insert(v).contains(
        x,
    ) by {
        let i = choose|i: int| 0 <= i < s.push(v).len() && s.push(v)[i] == x;
        if i < s.len() {
            assert(s[i] == x);
        }
    }
    assert forall|x: A| s.to_set().insert(v).contains(x) implies s.push(v).to_set().contains(
        x,
    ) by {
        if s.to_set().contains(x) {
            let i = choose|i: int| 0 <= i < s.len() && s[i] == x;
            assert(s.push(v)[i] == x);
        } else {
            assert(s.push(v)[s.len() as int] == v);
        }
    }
}

impl IdentifierSet {
    /// The stored strings hold each value once.
    pub closed spec fn wf(&self) -> bool {
        self.items@.map_values(|s: String| s@).no_duplicates()
    }

    /// The empty set.
    pub fn new() -> (r: IdentifierSet)
        ensures
            r.wf(),
            r@ == Set::<Seq<char>>::empty(),
    {
        let r = IdentifierSet { items: Vec::new() };
        proof {
            assert(r.items@.map_values(|s: String| s@) =~= Seq::<Seq<char>>::empty());
            assert(r@ =~= Set::<Seq<char>>::empty());
        }
        r
    }

    /// Whether `s` is in the set.
    pub fn contains(&self, s: &str) -> (r: bool)
        ensures
            r == self@.contains(s@),
    {
        let ghost vals = self.items@.map_values(|x: String| x@);
        let mut i: usize = 0;
        while i < self.items.len()
            invariant
                0 <= i <= self.items.len(),
                vals == self.items@.map_values(|x: String| x@),
                forall|k: int| 0 <= k < i ==> vals[k] != s@,
            decreases self.items.len() - i,
        {
            if str_eq(self.items[i].as_str(), s) {
                proof {
                    assert(vals[i as int] == s@);
                }
                return true;
            }
            i += 1;
        }
        proof {
            if self@.contains(s@) {
                let k = choose|k: int| 0 <= k < vals.len() && vals[k] == s@;
                assert(false);
            }
        }
        false
    }

    /// Adds `s`; a value already present is left as it is.
    pub fn insert(&mut self, s: String)
        requires
            old(self).wf(),
        ensures
            final(self).wf(),
            final(self)@ == old(self)@.insert(s@),
    {
        let present = self.contains(s.as_str());
        if !present {
            let ghost prev = self.items@.map_values(|x: String| x@);
            self.items.push(s);
            proof {
                assert(self.items@.map_values(|x: String| x@) =~= prev.push(s@));
                lemma_push_to_set(prev, s@);
            }
        } else {
            proof {
                assert(old(self)@.insert(s@) =~= old(self)@);
            }
        }
    }

    /// The number of identifiers in the set.
    pub fn len(&self) -> (r: usize)
        requires
            self.wf(),
        ensures
            r == self@.len(),
    {
        proof {
            self.items@.map_values(|s: String| s@).unique_seq_to_set();
        }
        self.items.len()
    }
}

} // verus!
