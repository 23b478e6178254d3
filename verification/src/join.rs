//! The mathematical model of the filter-join, and its laws.

use vstd::prelude::*;
use crate::rnacentral::AnnotationView;

verus! {

/// The grouped result: the keys in first-occurrence order, and the group of
/// records of each key.
pub ghost struct Grouped {
    pub keys: Seq<Seq<char>>,
    pub groups: Map<Seq<char>, Seq<AnnotationView>>,
}

/// Scanning the records in order: a record whose identifier is in `ids`
/// joins its identifier's group, opening the group at the end of the key
/// order on first occurrence; any other record is dropped.
pub open spec fn spec_join(rows: Seq<AnnotationView>, ids: Set<Seq<char>>) -> Grouped
    decreases rows.len(),
{
    if rows.len() == 0 {
        Grouped { keys: Seq::empty(), groups: Map::empty() }
    } else {
        let prev = spec_join(rows.drop_last(), ids);
        let r = rows.last();
        let k = r.urs_identifier;
        if ids.contains(k) {
            if prev.groups.dom().contains(k) {
                Grouped { keys: prev.keys, groups: prev.groups.insert(k, prev.groups[k].push(r)) }
            } else {
                Grouped { keys: prev.keys.push(k), groups: prev.groups.insert(k, seq![r]) }
            }
        } else {
            prev
        }
    }
}

/// The key order and the group map list the same keys, each once.
pub proof fn lemma_join_wf(rows: Seq<AnnotationView>, ids: Set<Seq<char>>)
    ensures
        spec_join(rows, ids).keys.no_duplicates(),
        spec_join(rows, ids).groups.dom() =~= spec_join(rows, ids).keys.to_set(),
    decreases rows.len(),
{
    if rows.len() > 0 {
        lemma_join_wf(rows.drop_last(), ids);
        let prev = spec_join(rows.drop_last(), ids);
        let k = rows.last().urs_identifier;
        if ids.contains(k) && !prev.groups.dom().contains(k) {
            crate::idset::lemma_push_to_set(prev.keys, k);
            assert(!prev.keys.to_set().contains(k));
            assert(!prev.keys.contains(k));
        }
    }
}

/// A key is grouped exactly when it is in the identifier set and some
/// record carries it: the filter is a precise membership test.
pub proof fn lemma_join_membership(rows: Seq<AnnotationView>, ids: Set<Seq<char>>, k: Seq<char>)
    ensures
        spec_join(rows, ids).groups.dom().contains(k) <==> (ids.contains(k) && exists|i: int|
            0 <= i < rows.len() && rows[i].urs_identifier == k),
    decreases rows.len(),
{
    if rows.len() > 0 {
        lemma_join_membership(rows.drop_last(), ids, k);
        let d = rows.drop_last();
        if spec_join(rows, ids).groups.dom().contains(k) {
            if spec_join(d, ids).groups.dom().contains(k) {
                let i = choose|i: int| 0 <= i < d.len() && d[i].urs_identifier == k;
                assert(rows[i].urs_identifier == k);
            } else {
                assert(rows[rows.len() - 1].urs_identifier == k);
            }
        }
        if ids.contains(k) && exists|i: int| 0 <= i < rows.len() && rows[i].urs_identifier == k {
            let i = choose|i: int| 0 <= i < rows.len() && rows[i].urs_identifier == k;
            if i < rows.len() - 1 {
                assert(d[i].urs_identifier == k);
            }
        }
    }
}

/// A grouped key's records are exactly the records that carry it, in file
/// order: the group is the order-preserving filter of the input.
pub proof fn lemma_join_group_is_filter(
    rows: Seq<AnnotationView>,
    ids: Set<Seq<char>>,
    k: Seq<char>,
)
    requires
        spec_join(rows, ids).groups.dom().contains(k),
    ensures
        spec_join(rows, ids).groups[k] == rows.filter(
            |r: AnnotationView| r.urs_identifier == k,
        ),
    decreases rows.len(),
{
    reveal(Seq::filter);
    let pred = |r: AnnotationView| r.urs_identifier == k;
    if rows.len() > 0 {
        let d = rows.drop_last();
        let r = rows.last();
        lemma_join_membership(d, ids, k);
        if spec_join(d, ids).groups.dom().contains(k) {
            lemma_join_group_is_filter(d, ids, k);
            if !(ids.contains(r.urs_identifier) && r.urs_identifier == k) {
                assert(spec_join(rows, ids).groups[k] == spec_join(d, ids).groups[k]);
            }
        } else {
            // the group opens with this record, and no earlier record carries `k`
            assert(r.urs_identifier == k) by {
                lemma_join_membership(rows, ids, k);
                if r.urs_identifier != k {
                    let i = choose|i: int|
                        0 <= i < rows.len() && rows[i].urs_identifier == k;
                    assert(d[i].urs_identifier == k);
                    assert(spec_join(d, ids).groups.dom().contains(k));
                }
            }
            assert(d.filter(pred) =~= Seq::<AnnotationView>::empty()) by {
                lemma_filter_empty_of_no_match(d, pred);
                if exists|i: int| 0 <= i < d.len() && pred(d[i]) {
                    let i = choose|i: int| 0 <= i < d.len() && pred(d[i]);
                    assert(spec_join(d, ids).groups.dom().contains(k));
                }
            }
            assert(rows.filter(pred) =~= seq![r]);
        }
    }
}

/// Each single record survives the filter exactly when its identifier is in
/// the identifier set: no false positives, no false negatives.
pub proof fn lemma_join_record_membership(
    rows: Seq<AnnotationView>,
    ids: Set<Seq<char>>,
    i: int,
)
    requires
        0 <= i < rows.len(),
    ensures
        ids.contains(rows[i].urs_identifier) <==> (spec_join(rows, ids).groups.dom().contains(
            rows[i].urs_identifier,
        ) && spec_join(rows, ids).groups[rows[i].urs_identifier].contains(rows[i])),
{
    let k = rows[i].urs_identifier;
    lemma_join_membership(rows, ids, k);
    if ids.contains(k) {
        lemma_join_group_is_filter(rows, ids, k);
        rows.lemma_filter_contains(|r: AnnotationView| r.urs_identifier == k, i);
    }
}

/// Filtering keeps nothing when nothing matches.
proof fn lemma_filter_empty_of_no_match(
    rows: Seq<AnnotationView>,
    pred: spec_fn(AnnotationView) -> bool,
)
    requires
        forall|i: int| 0 <= i < rows.len() ==> !pred(#[trigger] rows[i]),
    ensures
        rows.filter(pred) =~= Seq::<AnnotationView>::empty(),
    decreases rows.len(),
{
    reveal(Seq::filter);
    if rows.len() > 0 {
        lemma_filter_empty_of_no_match(rows.drop_last(), pred);
        assert(!pred(rows.last()));
    }
}

/// With an empty identifier set nothing survives the filter, whatever the
/// annotation rows hold.
pub proof fn lemma_join_empty_ids(rows: Seq<AnnotationView>)
    ensures
        spec_join(rows, Set::empty()).keys == Seq::<Seq<char>>::empty(),
        spec_join(rows, Set::empty()).groups =~= Map::<Seq<char>, Seq<AnnotationView>>::empty(),
    decreases rows.len(),
{
    if rows.len() > 0 {
        lemma_join_empty_ids(rows.drop_last());
    }
}

/// The join is a function of its inputs: two results that both satisfy the
/// filter-join's contract on the same records and the same identifier set
/// are structurally identical — same keys, same order, same groups.
pub proof fn lemma_join_deterministic(
    rows: Seq<AnnotationView>,
    ids: Set<Seq<char>>,
    keys1: Seq<Seq<char>>,
    groups1: Map<Seq<char>, Seq<AnnotationView>>,
    keys2: Seq<Seq<char>>,
    groups2: Map<Seq<char>, Seq<AnnotationView>>,
)
    requires
        keys1 == spec_join(rows, ids).keys,
        groups1 == spec_join(rows, ids).groups,
        keys2 == spec_join(rows, ids).keys,
        groups2 == spec_join(rows, ids).groups,
    ensures
        keys1 == keys2,
        groups1 == groups2,
{
}

} // verus!
