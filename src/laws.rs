//! Properties of the store that relate several operations, proved over the
//! models that the operations' contracts are stated in.
use crate::collection::{first_match, is_first_match, update_outcome, updated_all, Collection};
use crate::error::Error;
use crate::record::{group_matches, matching, selects, unmatched};
use crate::store::{after_insert, after_seq_next, collection_in};
use modql::filter::FilterGroups;
use serde_json::Value;
use std::any::TypeId;
use vstd::prelude::*;

verus! {

/// The collections after the counter of `ty` has been advanced `n` times.
pub open spec fn seq_next_times(m: Map<TypeId, Collection>, ty: TypeId, n: nat) -> Map<TypeId, Collection>
    decreases n,
{
    if n == 0 {
        m
    } else {
        after_seq_next(seq_next_times(m, ty, (n - 1) as nat), ty)
    }
}

/// Whether `a` is `b` with some records left out and the others in the same order.
pub open spec fn is_subsequence(a: Seq<Value>, b: Seq<Value>) -> bool {
    exists|idx: Seq<int>|
        {
            &&& idx.len() == a.len()
            &&& forall|i: int| 0 <= i < a.len() ==> 0 <= #[trigger] idx[i] < b.len() && a[i] == b[idx[i]]
            &&& forall|i: int, j: int| 0 <= i < j < a.len() ==> idx[i] < idx[j]
        }
}

/// A type that was never used holds no record: listing it, with any filter
/// or none, gives nothing, and so does asking for its first record.
pub proof fn lemma_unused_type_is_empty(m: Map<TypeId, Collection>, ty: TypeId, filter: Option<FilterGroups>)
    requires
        !m.contains_key(ty),
    ensures
        matching(filter, collection_in(m, ty).records) == Seq::<Value>::empty(),
        first_match(filter, collection_in(m, ty).records) == None::<Value>,
{
    let e = Seq::<Value>::empty();
    if exists|k: int| is_first_match(filter, e, k) {
        let k = choose|k: int| is_first_match(filter, e, k);
        assert(k < e.len());
    }
}

/// Advancing the counter of a type that was never used `n` times hands out
/// 1, 2, ..., n in that order, and leaves every other type as it was.
pub proof fn lemma_seq_counts_from_one(m: Map<TypeId, Collection>, ty: TypeId, n: nat)
    requires
        !m.contains_key(ty),
        n < u64::MAX,
    ensures
        forall|k: nat| 1 <= k <= n ==> #[trigger] collection_in(seq_next_times(m, ty, k), ty).seq == k,
        forall|t: TypeId| t != ty ==> #[trigger] collection_in(seq_next_times(m, ty, n), t) == collection_in(m, t),
        collection_in(seq_next_times(m, ty, n), ty).records == Seq::<Value>::empty(),
    decreases n,
{
    if n > 0 {
        lemma_seq_counts_from_one(m, ty, (n - 1) as nat);
        let prev = seq_next_times(m, ty, (n - 1) as nat);
        assert(collection_in(prev, ty).seq == n - 1) by {
            if n - 1 == 0 {
            } else {
                assert(collection_in(seq_next_times(m, ty, (n - 1) as nat), ty).seq == (n - 1) as nat);
            }
        }
        assert forall|t: TypeId| t != ty implies #[trigger] collection_in(seq_next_times(m, ty, n), t) == collection_in(m, t) by {
            assert(collection_in(prev, t) == collection_in(m, t));
        }
    }
}

/// Records inserted one after another into a type that was never used are
/// listed, with no filter, in the order they went in.
pub proof fn lemma_insert_keeps_order(m: Map<TypeId, Collection>, ty: TypeId, a: Value, b: Value, c: Value)
    requires
        !m.contains_key(ty),
    ensures
        matching(None, collection_in(after_insert(after_insert(after_insert(m, ty, a), ty, b), ty, c), ty).records)
            == seq![a, b, c],
{
    let s = collection_in(after_insert(after_insert(after_insert(m, ty, a), ty, b), ty, c), ty).records;
    assert(s =~= seq![a, b, c]);
    lemma_no_filter_keeps_all(s);
}

/// With no filter every record is listed, in storage order.
pub proof fn lemma_no_filter_keeps_all(s: Seq<Value>)
    ensures
        matching(None, s) == s,
    decreases s.len(),
{
    if s.len() > 0 {
        lemma_no_filter_keeps_all(s.drop_last());
        assert(s.drop_last().push(s.last()) =~= s);
    }
}

/// Where each record that `filter` selects stands in `s`.
spec fn matching_positions(filter: Option<FilterGroups>, s: Seq<Value>) -> Seq<int>
    decreases s.len(),
{
    if s.len() == 0 {
        Seq::empty()
    } else {
        let rest = matching_positions(filter, s.drop_last());
        if selects(filter, s.last()) {
            rest.push(s.len() - 1)
        } else {
            rest
        }
    }
}

/// The positions are in bounds, increasing, and hold the listed records.
proof fn lemma_matching_positions(filter: Option<FilterGroups>, s: Seq<Value>)
    ensures
        matching_positions(filter, s).len() == matching(filter, s).len(),
        forall|i: int|
            0 <= i < matching(filter, s).len() ==> 0 <= #[trigger] matching_positions(filter, s)[i] < s.len()
                && matching(filter, s)[i] == s[matching_positions(filter, s)[i]],
        forall|i: int, j: int|
            0 <= i < j < matching(filter, s).len() ==> matching_positions(filter, s)[i] < matching_positions(filter, s)[j],
    decreases s.len(),
{
    if s.len() > 0 {
        lemma_matching_positions(filter, s.drop_last());
    }
}

/// A filtered list holds records of the unfiltered one, in the same order.
pub proof fn lemma_filtered_is_subsequence(filter: Option<FilterGroups>, s: Seq<Value>)
    ensures
        is_subsequence(matching(filter, s), s),
{
    lemma_matching_positions(filter, s);
    let idx = matching_positions(filter, s);
    assert(forall|i: int| 0 <= i < matching(filter, s).len() ==> 0 <= #[trigger] idx[i] < s.len() && matching(filter, s)[i] == s[idx[i]]);
}

/// Where no record is selected, the list is empty.
proof fn lemma_no_selected_lists_nothing(filter: Option<FilterGroups>, s: Seq<Value>)
    requires
        forall|k: int| 0 <= k < s.len() ==> !selects(filter, #[trigger] s[k]),
    ensures
        matching(filter, s).len() == 0,
    decreases s.len(),
{
    if s.len() > 0 {
        lemma_no_selected_lists_nothing(filter, s.drop_last());
    }
}

/// The first selected record heads the list of selected records.
proof fn lemma_first_match_heads_list(filter: Option<FilterGroups>, s: Seq<Value>, k: int)
    requires
        is_first_match(filter, s, k),
    ensures
        matching(filter, s).len() > 0,
        matching(filter, s)[0] == s[k],
    decreases s.len(),
{
    let p = s.drop_last();
    if k < s.len() - 1 {
        assert(is_first_match(filter, p, k));
        lemma_first_match_heads_list(filter, p, k);
    } else {
        assert forall|j: int| 0 <= j < p.len() implies !selects(filter, #[trigger] p[j]) by {
            assert(p[j] == s[j]);
        }
        lemma_no_selected_lists_nothing(filter, p);
    }
}

/// The first record that a filter selects is the head of the list it
/// selects, and there is none exactly when that list is empty.
pub proof fn lemma_first_is_head_of_list(filter: Option<FilterGroups>, s: Seq<Value>)
    ensures
        first_match(filter, s) == (if matching(filter, s).len() > 0 {
            Some(matching(filter, s)[0])
        } else {
            None
        }),
{
    if exists|k: int| is_first_match(filter, s, k) {
        let k = choose|k: int| is_first_match(filter, s, k);
        lemma_first_match_heads_list(filter, s, k);
    } else {
        assert forall|k: int| 0 <= k < s.len() implies !selects(filter, #[trigger] s[k]) by {
            if selects(filter, s[k]) {
                lemma_earliest_selected(filter, s, k);
            }
        }
        lemma_no_selected_lists_nothing(filter, s);
    }
}

/// Where some record is selected, there is a first one.
proof fn lemma_earliest_selected(filter: Option<FilterGroups>, s: Seq<Value>, k: int)
    requires
        0 <= k < s.len(),
        selects(filter, s[k]),
    ensures
        exists|j: int| is_first_match(filter, s, j),
    decreases k,
{
    if exists|j: int| 0 <= j < k && selects(filter, #[trigger] s[j]) {
        let j = choose|j: int| 0 <= j < k && selects(filter, #[trigger] s[j]);
        lemma_earliest_selected(filter, s, j);
    } else {
        assert(is_first_match(filter, s, k));
    }
}

/// After a delete with a filter, listing with that filter gives nothing, and
/// the records left are the old ones less the number deleted.
pub proof fn lemma_delete_then_list_is_empty(g: FilterGroups, s: Seq<Value>)
    ensures
        matching(Some(g), unmatched(g, s)) == Seq::<Value>::empty(),
        unmatched(g, s).len() + matching(Some(g), s).len() == s.len(),
    decreases s.len(),
{
    if s.len() > 0 {
        lemma_delete_then_list_is_empty(g, s.drop_last());
        let u = unmatched(g, s);
        if !group_matches(g, s.last()) {
            assert(u.drop_last() == unmatched(g, s.drop_last()));
        }
    }
}

/// An update whose filter matches no record changes nothing and reports a
/// count of 0; whatever it matches, a successful update reports how many
/// records the filter matched.
pub proof fn lemma_update_without_match<F: Fn(&Value) -> Result<Value, Error>>(
    g: FilterGroups,
    modify: F,
    old: Seq<Value>,
    new: Seq<Value>,
    r: Result<u64, Error>,
)
    requires
        update_outcome(g, modify, old, new, r),
        forall|k: int| 0 <= k < old.len() ==> !group_matches(g, #[trigger] old[k]),
    ensures
        r == Ok::<u64, Error>(0),
        new == old,
{
    lemma_no_selected_lists_nothing(Some(g), old);
    match r {
        Ok(n) => {
            assert(updated_all(g, modify, old, new));
            assert(new =~= old);
        },
        Err(e) => {
            let k = choose|k: int|
                {
                    &&& 0 <= k < old.len()
                    &&& group_matches(g, #[trigger] old[k])
                    &&& modify.ensures((&old[k],), Err(e))
                    &&& crate::collection::updated_before(g, modify, old, new, k)
                };
            assert(!group_matches(g, old[k]));
        },
    }
}

} // verus!
