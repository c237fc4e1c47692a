//! One collection per record type: its records, in insertion order, and its
//! sequence counter.
use crate::error::Error;
use crate::record::{group_matches, is_match, matching, selects, unmatched};
use modql::filter::FilterGroups;
use serde_json::Value;
use vstd::prelude::*;

verus! {

/// What a collection holds: its records in storage order and the last
/// sequence number handed out.
pub struct Collection {
    pub records: Seq<Value>,
    pub seq: u64,
}

impl Collection {
    /// A collection as it is when first created.
    pub open spec fn empty() -> Collection {
        Collection { records: Seq::empty(), seq: 0 }
    }
}

/// Whether `new` is `old` with each record that `g` matches replaced by what
/// `modify` made of it, and every other record kept.
pub open spec fn updated_all<F: Fn(&Value) -> Result<Value, Error>>(
    g: FilterGroups,
    modify: F,
    old: Seq<Value>,
    new: Seq<Value>,
) -> bool {
    &&& new.len() == old.len()
    &&& forall|i: int|
        0 <= i < old.len() ==> if group_matches(g, #[trigger] old[i]) {
            modify.ensures((&old[i],), Ok(new[i]))
        } else {
            new[i] == old[i]
        }
}

/// Whether `new` is `old` with the matching records before index `k` updated
/// by `modify`, and those from `k` on kept as they were.
pub open spec fn updated_before<F: Fn(&Value) -> Result<Value, Error>>(
    g: FilterGroups,
    modify: F,
    old: Seq<Value>,
    new: Seq<Value>,
    k: int,
) -> bool {
    &&& new.len() == old.len()
    &&& forall|i: int|
        0 <= i < k ==> if group_matches(g, #[trigger] old[i]) {
            modify.ensures((&old[i],), Ok(new[i]))
        } else {
            new[i] == old[i]
        }
    &&& forall|i: int| k <= i < old.len() ==> #[trigger] new[i] == old[i]
}

/// What an update with filter `g` and function `modify` may leave behind,
/// from records `old`, as records `new` and result `r`: on success, every
/// matching record updated and their number returned; on failure, a matching
/// record at some index `k` on which `modify` failed with the error returned,
/// the matching records before `k` updated and the rest as they were.
pub open spec fn update_outcome<F: Fn(&Value) -> Result<Value, Error>>(
    g: FilterGroups,
    modify: F,
    old: Seq<Value>,
    new: Seq<Value>,
    r: Result<u64, Error>,
) -> bool {
    match r {
        Ok(n) => {
            &&& n == matching(Some(g), old).len()
            &&& updated_all(g, modify, old, new)
        },
        Err(e) => exists|k: int|
            {
                &&& 0 <= k < old.len()
                &&& group_matches(g, #[trigger] old[k])
                &&& modify.ensures((&old[k],), Err(e))
                &&& updated_before(g, modify, old, new, k)
            },
    }
}

/// The records of one type and their sequence counter.
pub struct ObjectStore {
    records: Vec<Value>,
    seq: u64,
}

impl View for ObjectStore {
    type V = Collection;

    closed spec fn view(&self) -> Collection {
        Collection { records: self.records@, seq: self.seq }
    }
}

impl ObjectStore {
    /// A new collection: no records, and a counter at 0.
    pub fn new() -> (r: ObjectStore)
        ensures
            r@ == Collection::empty(),
    {
        ObjectStore { records: Vec::new(), seq: 0 }
    }

    /// The last value the counter handed out.
    pub fn current_seq(&self) -> (r: u64)
        ensures
            r == self@.seq,
    {
        self.seq
    }

    /// Advances the counter and returns its new value.
    pub fn next_seq(&mut self) -> (r: u64)
        requires
            old(self)@.seq < u64::MAX,
        ensures
            r == old(self)@.seq + 1,
            final(self)@ == (Collection { records: old(self)@.records, seq: r }),
    {
        self.seq = self.seq + 1;
        self.seq
    }

    /// Appends a record at the end.
    pub fn insert(&mut self, val: Value)
        ensures
            final(self)@ == (Collection { records: old(self)@.records.push(val), seq: old(self)@.seq }),
    {
        self.records.push(val);
    }
    /// The first stored record that `filter` selects, if any.
    pub fn first(&self, filter: &Option<FilterGroups>) -> (r: Option<Value>)
        ensures
            r == first_match(*filter, self@.records),
    {
        let mut i: usize = 0;
        while i < self.records.len()
            invariant
                0 <= i <= self.records@.len(),
                forall|j: int| 0 <= j < i ==> !selects(*filter, #[trigger] self.records@[j]),
            decreases self.records@.len() - i,
        {
            if selects_exec(filter, &self.records[i]) {
                let ghost k = i as int;
                assert(is_first_match(*filter, self.records@, k));
                return Some(self.records[i].clone());
            }
            i = i + 1;
        }
        proof {
            if exists|k: int| is_first_match(*filter, self.records@, k) {
                let k = choose|k: int| is_first_match(*filter, self.records@, k);
                assert(!selects(*filter, self.records@[k]));
            }
        }
        None
    }

    /// Every stored record that `filter` selects, in storage order.
    pub fn list(&self, filter: &Option<FilterGroups>) -> (r: Vec<Value>)
        ensures
            r@ == matching(*filter, self@.records),
    {
        let mut out: Vec<Value> = Vec::new();
        let mut i: usize = 0;
        while i < self.records.len()
            invariant
                0 <= i <= self.records@.len(),
                out@ == matching(*filter, self.records@.take(i as int)),
            decreases self.records@.len() - i,
        {
            assert(self.records@.take(i + 1).drop_last() == self.records@.take(i as int));
            if selects_exec(filter, &self.records[i]) {
                out.push(self.records[i].clone());
            }
            i = i + 1;
        }
        assert(self.records@.take(i as int) == self.records@);
        out
    }

    /// Removes every record that `g` matches, keeping the others in order, and
    /// returns how many went.
    pub fn delete(&mut self, g: &FilterGroups) -> (r: u64)
        ensures
            final(self)@ == (Collection { records: unmatched(*g, old(self)@.records), seq: old(self)@.seq }),
            r == matching(Some(*g), old(self)@.records).len(),
    {
        let mut kept: Vec<Value> = Vec::new();
        let mut count: u64 = 0;
        let mut i: usize = 0;
        while i < self.records.len()
            invariant
                0 <= i <= self.records@.len(),
                count <= i,
                kept@ == unmatched(*g, self.records@.take(i as int)),
                count == matching(Some(*g), self.records@.take(i as int)).len(),
            decreases self.records@.len() - i,
        {
            assert(self.records@.take(i + 1).drop_last() == self.records@.take(i as int));
            if is_match(g, &self.records[i]) {
                count = count + 1;
            } else {
                kept.push(self.records[i].clone());
            }
            i = i + 1;
        }
        assert(self.records@.take(i as int) == self.records@);
        self.records = kept;
        count
    }

    /// Replaces, in storage order, each record that `g` matches by what
    /// `modify` makes of it, and returns how many were replaced. The first
    /// failure of `modify` ends the call: the records before it stay updated,
    /// the others stay as they were.
    pub fn update_raw<F: Fn(&Value) -> Result<Value, Error>>(&mut self, g: &FilterGroups, modify: F) -> (r: Result<u64, Error>)
        requires
            forall|v: Value| modify.requires((&v,)),
        ensures
            final(self)@.seq == old(self)@.seq,
            update_outcome(*g, modify, old(self)@.records, final(self)@.records, r),
    {
        let ghost before = self.records@;
        let mut count: u64 = 0;
        let mut i: usize = 0;
        while i < self.records.len()
            invariant
                0 <= i <= self.records@.len(),
                self.records@.len() == before.len(),
                before == old(self)@.records,
                self.seq == old(self).seq,
                count <= i,
                count == matching(Some(*g), before.take(i as int)).len(),
                updated_before(*g, modify, before, self.records@, i as int),
                forall|v: Value| modify.requires((&v,)),
            decreases self.records@.len() - i,
        {
            assert(before.take(i + 1).drop_last() == before.take(i as int));
            if is_match(g, &self.records[i]) {
                match modify(&self.records[i]) {
                    Ok(v) => {
                        self.records[i] = v;
                        count = count + 1;
                    },
                    Err(e) => {
                        proof {
                            let k = i as int;
                            assert(before == old(self)@.records);
                            assert(self.records@[k] == before[k]);
                            assert(group_matches(*g, before[k]));
                            assert(modify.ensures((&before[k],), Err(e)));
                            assert(updated_before(*g, modify, before, self.records@, k));
                        }
                        return Err(e);
                    },
                }
            }
            i = i + 1;
        }
        assert(before.take(i as int) == before);
        Ok(count)
    }
}

/// Whether `k` is the index of the first record of `s` that `filter` selects.
pub open spec fn is_first_match(filter: Option<FilterGroups>, s: Seq<Value>, k: int) -> bool {
    &&& 0 <= k < s.len()
    &&& selects(filter, s[k])
    &&& forall|j: int| 0 <= j < k ==> !selects(filter, #[trigger] s[j])
}

/// The first record of `s` that `filter` selects, if any.
pub open spec fn first_match(filter: Option<FilterGroups>, s: Seq<Value>) -> Option<Value> {
    if exists|k: int| is_first_match(filter, s, k) {
        Some(s[choose|k: int| is_first_match(filter, s, k)])
    } else {
        None
    }
}

/// Decides `selects`: with no filter every record passes.
fn selects_exec(filter: &Option<FilterGroups>, v: &Value) -> (r: bool)
    ensures
        r == selects(*filter, *v),
{
    match filter {
        None => true,
        Some(g) => is_match(g, v),
    }
}

} // verus!
