//! The record and filter types the store works on, both owned by outside
//! crates, and the few facts about them that the store relies on.
use modql::filter::FilterGroups;
use serde_json::Error as JsonError;
use serde_json::Value;
use std::any::TypeId;
use vstd::prelude::*;

verus! {

#[verifier::external_type_specification]
#[verifier::external_body]
pub struct ExValue(serde_json::Value);

#[verifier::external_type_specification]
#[verifier::external_body]
pub struct ExJsonError(JsonError);

#[verifier::external_type_specification]
#[verifier::external_body]
pub struct ExFilterGroups(modql::filter::FilterGroups);

#[verifier::external_type_specification]
#[verifier::external_body]
pub struct ExTypeId(std::any::TypeId);

/// Whether a record passes a filter, as modql decides it.
pub uninterp spec fn group_matches(g: FilterGroups, v: Value) -> bool;

/// Relies on modql's `FilterGroups::is_match_json`: it reads only the filter
/// and the record, so its answer is a function of the two.
#[verifier::external_body]
pub(crate) fn is_match(g: &FilterGroups, v: &Value) -> (r: bool)
    ensures
        r == group_matches(*g, *v),
{
    g.is_match_json(v)
}

/// Relies on serde_json's derived `Clone` for `Value`: a copy equal to the original.
pub assume_specification[ <serde_json::Value as Clone>::clone ](v: &serde_json::Value) -> (r: serde_json::Value)
    ensures
        r == *v,
;

/// Relies on std's `PartialEq` for `TypeId`: equal exactly when both name the same type.
#[verifier::external_body]
pub(crate) fn same_type(a: &TypeId, b: &TypeId) -> (r: bool)
    ensures
        r == (*a == *b),
{
    *a == *b
}

/// Whether an optional filter selects a record: no filter selects everything.
pub open spec fn selects(filter: Option<FilterGroups>, v: Value) -> bool {
    match filter {
        None => true,
        Some(g) => group_matches(g, v),
    }
}

/// The records of `s` that `filter` selects, in the order of `s`.
pub open spec fn matching(filter: Option<FilterGroups>, s: Seq<Value>) -> Seq<Value>
    decreases s.len(),
{
    if s.len() == 0 {
        Seq::empty()
    } else {
        let rest = matching(filter, s.drop_last());
        if selects(filter, s.last()) {
            rest.push(s.last())
        } else {
            rest
        }
    }
}

/// The records of `s` that `g` does not match, in the order of `s`.
pub open spec fn unmatched(g: FilterGroups, s: Seq<Value>) -> Seq<Value>
    decreases s.len(),
{
    if s.len() == 0 {
        Seq::empty()
    } else {
        let rest = unmatched(g, s.drop_last());
        if group_matches(g, s.last()) {
            rest
        } else {
            rest.push(s.last())
        }
    }
}

} // verus!
