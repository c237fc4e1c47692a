//! The registry: one collection per record type, created on first use.
use crate::collection::{first_match, update_outcome, Collection, ObjectStore};
use crate::error::Error;
use crate::record::{matching, same_type, unmatched};
use modql::filter::FilterGroups;
use serde_json::Value;
use std::any::TypeId;
use vstd::prelude::*;

verus! {

/// The collection that `m` holds for `ty`, or an empty one if it holds none.
pub open spec fn collection_in(m: Map<TypeId, Collection>, ty: TypeId) -> Collection {
    if m.contains_key(ty) {
        m[ty]
    } else {
        Collection::empty()
    }
}

/// The collections after the counter of `ty` has been advanced.
pub open spec fn after_seq_next(m: Map<TypeId, Collection>, ty: TypeId) -> Map<TypeId, Collection> {
    let c = collection_in(m, ty);
    m.insert(ty, Collection { records: c.records, seq: (c.seq + 1) as u64 })
}

/// The collections after `val` has been appended to those of `ty`.
pub open spec fn after_insert(m: Map<TypeId, Collection>, ty: TypeId, val: Value) -> Map<TypeId, Collection> {
    let c = collection_in(m, ty);
    m.insert(ty, Collection { records: c.records.push(val), seq: c.seq })
}

/// A collection together with the type it belongs to.
struct Slot {
    ty: TypeId,
    objects: ObjectStore,
}

/// Whether slot `i` of `slots` is the one for `ty`.
spec fn slot_for(slots: Seq<Slot>, ty: TypeId, i: int) -> bool {
    0 <= i < slots.len() && slots[i].ty == ty
}

/// The map from each type to its collection that a list of slots stands for.
spec fn model(slots: Seq<Slot>) -> Map<TypeId, Collection> {
    Map::new(
        |t: TypeId| exists|i: int| slot_for(slots, t, i),
        |t: TypeId| slots[choose|i: int| slot_for(slots, t, i)].objects@,
    )
}

/// No two slots are for the same type.
spec fn distinct_types(slots: Seq<Slot>) -> bool {
    forall|i: int, j: int|
        0 <= i < slots.len() && 0 <= j < slots.len() && i != j ==> slots[i].ty != slots[j].ty
}

/// With one slot per type, slot `i` gives the collection of its type.
proof fn lemma_slot_in_model(slots: Seq<Slot>, i: int)
    requires
        distinct_types(slots),
        0 <= i < slots.len(),
    ensures
        model(slots).contains_key(slots[i].ty),
        model(slots)[slots[i].ty] == slots[i].objects@,
{
    let t = slots[i].ty;
    assert(slot_for(slots, t, i));
    let j = choose|j: int| slot_for(slots, t, j);
    assert(j == i);
}

/// Putting a new collection in the slot of a type changes that type alone.
proof fn lemma_replace_slot(slots: Seq<Slot>, i: int, s: Slot)
    requires
        distinct_types(slots),
        0 <= i < slots.len(),
        s.ty == slots[i].ty,
    ensures
        distinct_types(slots.update(i, s)),
        model(slots.update(i, s)) == model(slots).insert(s.ty, s.objects@),
{
    let new = slots.update(i, s);
    assert forall|t: TypeId| #[trigger] model(new).contains_key(t) == model(slots).insert(s.ty, s.objects@).contains_key(t) by {
        if exists|j: int| slot_for(new, t, j) {
            let j = choose|j: int| slot_for(new, t, j);
            assert(slot_for(slots, t, j));
        }
        if exists|j: int| slot_for(slots, t, j) {
            let j = choose|j: int| slot_for(slots, t, j);
            assert(slot_for(new, t, j));
        }
        if t == s.ty {
            assert(slot_for(new, t, i));
        }
    }
    assert forall|t: TypeId| #[trigger] model(new).contains_key(t) implies model(new)[t] == model(slots).insert(s.ty, s.objects@)[t] by {
        let j = choose|j: int| slot_for(new, t, j);
        lemma_slot_in_model(new, j);
        if t != s.ty {
            assert(slot_for(slots, t, j));
            lemma_slot_in_model(slots, j);
        }
    }
    assert(model(new) =~= model(slots).insert(s.ty, s.objects@));
}

/// A slot for a new type adds that type alone.
proof fn lemma_push_slot(slots: Seq<Slot>, s: Slot)
    requires
        distinct_types(slots),
        !model(slots).contains_key(s.ty),
    ensures
        distinct_types(slots.push(s)),
        model(slots.push(s)) == model(slots).insert(s.ty, s.objects@),
{
    let new = slots.push(s);
    assert forall|i: int| 0 <= i < slots.len() implies slots[i].ty != s.ty by {
        assert(slot_for(slots, slots[i].ty, i));
    }
    assert forall|t: TypeId| #[trigger] model(new).contains_key(t) == model(slots).insert(s.ty, s.objects@).contains_key(t) by {
        if exists|j: int| slot_for(new, t, j) {
            let j = choose|j: int| slot_for(new, t, j);
            if j < slots.len() {
                assert(slot_for(slots, t, j));
            }
        }
        if exists|j: int| slot_for(slots, t, j) {
            let j = choose|j: int| slot_for(slots, t, j);
            assert(slot_for(new, t, j));
        }
        if t == s.ty {
            assert(slot_for(new, t, slots.len() as int));
        }
    }
    assert forall|t: TypeId| #[trigger] model(new).contains_key(t) implies model(new)[t] == model(slots).insert(s.ty, s.objects@)[t] by {
        let j = choose|j: int| slot_for(new, t, j);
        lemma_slot_in_model(new, j);
        if t != s.ty {
            assert(slot_for(slots, t, j));
            lemma_slot_in_model(slots, j);
        }
    }
    assert(model(new) =~= model(slots).insert(s.ty, s.objects@));
}

/// An in-memory store of records, kept apart by the type they belong to.
/// Each type has its own collection, made the first time the type is used.
pub struct Store {
    slots: Vec<Slot>,
}

impl Default for Store {
    /// Same as `Store::new`.
    fn default() -> (r: Store)
        ensures
            r.wf(),
            r@ == Map::<TypeId, Collection>::empty(),
    {
        Store::new()
    }
}

impl View for Store {
    type V = Map<TypeId, Collection>;

    /// The collection of each type that has been used.
    closed spec fn view(&self) -> Map<TypeId, Collection> {
        model(self.slots@)
    }
}

impl Store {
    /// Whether the store is in good shape: one collection per type.
    pub closed spec fn wf(&self) -> bool {
        distinct_types(self.slots@)
    }

    /// A store with no collection yet.
    pub fn new() -> (r: Store)
        ensures
            r.wf(),
            r@ == Map::<TypeId, Collection>::empty(),
    {
        let r = Store { slots: Vec::new() };
        assert(r@ =~= Map::<TypeId, Collection>::empty());
        r
    }

    /// Where the collection for `ty` stands, if there is one.
    fn find(&self, ty: TypeId) -> (r: Option<usize>)
        requires
            self.wf(),
        ensures
            match r {
                Some(i) => i < self.slots@.len() && self.slots@[i as int].ty == ty,
                None => !self@.contains_key(ty),
            },
    {
        let mut i: usize = 0;
        while i < self.slots.len()
            invariant
                0 <= i <= self.slots@.len(),
                forall|j: int| 0 <= j < i ==> self.slots@[j].ty != ty,
            decreases self.slots@.len() - i,
        {
            if same_type(&self.slots[i].ty, &ty) {
                return Some(i);
            }
            i = i + 1;
        }
        None
    }

    /// Where the collection for `ty` stands, made empty first if `ty` has none.
    fn get_or_create(&mut self, ty: TypeId) -> (r: usize)
        requires
            old(self).wf(),
        ensures
            final(self).wf(),
            r < final(self).slots@.len(),
            final(self).slots@[r as int].ty == ty,
            final(self)@ == old(self)@.insert(ty, collection_in(old(self)@, ty)),
    {
        match self.find(ty) {
            Some(i) => {
                proof {
                    lemma_slot_in_model(self.slots@, i as int);
                    assert(self@.insert(ty, collection_in(self@, ty)) =~= self@);
                }
                i
            },
            None => {
                let slot = Slot { ty, objects: ObjectStore::new() };
                proof {
                    lemma_push_slot(self.slots@, slot);
                }
                self.slots.push(slot);
                self.slots.len() - 1
            },
        }
    }
    /// The last sequence number handed out for `ty`: 0 if none was.
    pub fn current_seq(&self, ty: TypeId) -> (r: u64)
        requires
            self.wf(),
        ensures
            r == collection_in(self@, ty).seq,
    {
        match self.find(ty) {
            Some(i) => {
                proof {
                    lemma_slot_in_model(self.slots@, i as int);
                }
                self.slots[i].objects.current_seq()
            },
            None => 0,
        }
    }

    /// Advances the sequence counter of `ty` and returns its new value,
    /// making the collection of `ty` if it has none: the first value is 1.
    pub fn seq_next(&mut self, ty: TypeId) -> (r: u64)
        requires
            old(self).wf(),
            collection_in(old(self)@, ty).seq < u64::MAX,
        ensures
            final(self).wf(),
            r == collection_in(old(self)@, ty).seq + 1,
            final(self)@ == after_seq_next(old(self)@, ty),
    {
        let i = self.get_or_create(ty);
        let ghost mid = self.slots@;
        proof {
            lemma_slot_in_model(mid, i as int);
        }
        let r = self.slots[i].objects.next_seq();
        proof {
            assert(self.slots@ == mid.update(i as int, self.slots@[i as int]));
            lemma_replace_slot(mid, i as int, self.slots@[i as int]);
        }
        r
    }

    /// Appends a record at the end of the collection of `ty`, making that
    /// collection if `ty` has none.
    pub fn insert(&mut self, ty: TypeId, val: Value)
        requires
            old(self).wf(),
        ensures
            final(self).wf(),
            final(self)@ == after_insert(old(self)@, ty, val),
    {
        let i = self.get_or_create(ty);
        let ghost mid = self.slots@;
        proof {
            lemma_slot_in_model(mid, i as int);
        }
        self.slots[i].objects.insert(val);
        proof {
            assert(self.slots@ == mid.update(i as int, self.slots@[i as int]));
            lemma_replace_slot(mid, i as int, self.slots@[i as int]);
        }
    }

    /// The first record of `ty` that `filter` selects, in storage order; none
    /// if `ty` has no collection.
    pub fn first(&self, ty: TypeId, filter: &Option<FilterGroups>) -> (r: Option<Value>)
        requires
            self.wf(),
        ensures
            r == first_match(*filter, collection_in(self@, ty).records),
    {
        match self.find(ty) {
            Some(i) => {
                proof {
                    lemma_slot_in_model(self.slots@, i as int);
                }
                self.slots[i].objects.first(filter)
            },
            None => {
                proof {
                    let e = Seq::<Value>::empty();
                    if exists|k: int| crate::collection::is_first_match(*filter, e, k) {
                        let k = choose|k: int| crate::collection::is_first_match(*filter, e, k);
                        assert(k < e.len());
                    }
                }
                None
            },
        }
    }

    /// Every record of `ty` that `filter` selects, in storage order; empty if
    /// `ty` has no collection.
    pub fn list(&self, ty: TypeId, filter: &Option<FilterGroups>) -> (r: Vec<Value>)
        requires
            self.wf(),
        ensures
            r@ == matching(*filter, collection_in(self@, ty).records),
    {
        match self.find(ty) {
            Some(i) => {
                proof {
                    lemma_slot_in_model(self.slots@, i as int);
                }
                self.slots[i].objects.list(filter)
            },
            None => Vec::new(),
        }
    }

    /// Removes every record of `ty` that `filter` matches and returns how many
    /// went. Fails if `ty` has no collection.
    pub fn delete(&mut self, ty: TypeId, filter: &FilterGroups) -> (r: Result<u64, Error>)
        requires
            old(self).wf(),
        ensures
            final(self).wf(),
            match r {
                Ok(n) => {
                    &&& old(self)@.contains_key(ty)
                    &&& n == matching(Some(*filter), old(self)@[ty].records).len()
                    &&& final(self)@ == old(self)@.insert(
                        ty,
                        Collection { records: unmatched(*filter, old(self)@[ty].records), seq: old(self)@[ty].seq },
                    )
                },
                Err(e) => {
                    &&& !old(self)@.contains_key(ty)
                    &&& e == Error::FailToDeleteNoStoreForType
                    &&& final(self)@ == old(self)@
                },
            },
    {
        match self.find(ty) {
            Some(i) => {
                let ghost mid = self.slots@;
                proof {
                    lemma_slot_in_model(mid, i as int);
                }
                let n = self.slots[i].objects.delete(filter);
                proof {
                    assert(self.slots@ == mid.update(i as int, self.slots@[i as int]));
                    lemma_replace_slot(mid, i as int, self.slots@[i as int]);
                }
                Ok(n)
            },
            None => Err(Error::FailToDeleteNoStoreForType),
        }
    }

    /// Replaces, in storage order, each record of `ty` that `filter` matches by
    /// what `modify` makes of it, and returns how many were replaced. Fails if
    /// `ty` has no collection. The first failure of `modify` ends the call and
    /// is returned: the records before it stay updated, the others as they were.
    pub fn update<F: Fn(&Value) -> Result<Value, Error>>(&mut self, ty: TypeId, filter: &FilterGroups, modify: F) -> (r: Result<u64, Error>)
        requires
            old(self).wf(),
            forall|v: Value| modify.requires((&v,)),
        ensures
            final(self).wf(),
            !old(self)@.contains_key(ty) ==> r == Err::<u64, Error>(Error::FailToUpdateNoStoreForType) && final(self)@ == old(self)@,
            old(self)@.contains_key(ty) ==> {
                &&& final(self)@.dom() == old(self)@.dom()
                &&& forall|t: TypeId| t != ty && old(self)@.contains_key(t) ==> #[trigger] final(self)@[t] == old(self)@[t]
                &&& final(self)@[ty].seq == old(self)@[ty].seq
                &&& update_outcome(*filter, modify, old(self)@[ty].records, final(self)@[ty].records, r)
            },
    {
        match self.find(ty) {
            Some(i) => {
                let ghost mid = self.slots@;
                proof {
                    lemma_slot_in_model(mid, i as int);
                }
                let r = self.slots[i].objects.update_raw(filter, modify);
                proof {
                    assert(self.slots@ == mid.update(i as int, self.slots@[i as int]));
                    lemma_replace_slot(mid, i as int, self.slots@[i as int]);
                    assert(self@.dom() =~= old(self)@.dom());
                }
                r
            },
            None => Err(Error::FailToUpdateNoStoreForType),
        }
    }
}

} // verus!
