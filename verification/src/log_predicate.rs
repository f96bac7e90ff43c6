//! Conditions on the fields of a record beyond exact values.
use vstd::prelude::*;

use crate::codec::same_text;
use crate::labels::{fields_view, has_key, MetadataField, Pairs};

verus! {

broadcast use vstd::seq_lib::group_seq_properties;

/// Condition on a record.
#[derive(Debug, PartialEq, Eq)]
pub enum LogPredicate {
    /// The record has a field of this name.
    FieldExists(String),
}

/// Value of a condition.
#[verifier::ext_equal]
pub enum PredicateModel {
    /// The record has a field of this name.
    FieldExists(Seq<char>),
}

impl View for LogPredicate {
    type V = PredicateModel;

    open spec fn view(&self) -> PredicateModel {
        match self {
            LogPredicate::FieldExists(key) => PredicateModel::FieldExists(key@),
        }
    }
}

impl PredicateModel {
    /// Whether a record with these fields meets the condition.
    pub open spec fn holds(self, fields: Pairs) -> bool {
        match self {
            PredicateModel::FieldExists(key) => has_key(fields, key),
        }
    }
}

/// Values of conditions.
pub open spec fn predicates_view(predicates: Seq<LogPredicate>) -> Seq<PredicateModel> {
    predicates.map_values(|predicate: LogPredicate| predicate@)
}

/// Whether a record with these fields meets all conditions.
pub open spec fn all_hold(predicates: Seq<PredicateModel>, fields: Pairs) -> bool {
    forall|i: int| 0 <= i < predicates.len() ==> (#[trigger] predicates[i]).holds(fields)
}

/// Whether some field has this name.
fn has_field(fields: &Vec<MetadataField>, key: &str) -> (has: bool)
    ensures
        has == has_key(fields_view(fields@), key@),
{
    let ghost pairs = fields_view(fields@);
    let mut index: usize = 0;
    while index < fields.len()
        invariant
            index <= fields@.len(),
            pairs == fields_view(fields@),
            forall|i: int| 0 <= i < index ==> #[trigger] pairs[i].0 != key@,
        decreases fields@.len() - index,
    {
        proof {
            assert(pairs[index as int].0 == fields@[index as int].key@);
        }
        if same_text(&fields[index].key, key) {
            return true;
        }
        index = index + 1;
    }
    false
}

impl LogPredicate {
    /// Requires a field, whatever its value.
    pub fn field_exists(key: &str) -> (predicate: Self)
        ensures
            predicate@ == PredicateModel::FieldExists(key@),
    {
        LogPredicate::FieldExists(key.to_owned())
    }

    /// Whether a record with these fields meets the condition.
    pub fn matches(&self, fields: &Vec<MetadataField>) -> (met: bool)
        ensures
            met == self@.holds(fields_view(fields@)),
    {
        match self {
            LogPredicate::FieldExists(key) => has_field(fields, key),
        }
    }

    /// Whether two conditions are the same.
    pub fn same(&self, other: &LogPredicate) -> (same: bool)
        ensures
            same == (self@ == other@),
    {
        match (self, other) {
            (LogPredicate::FieldExists(left), LogPredicate::FieldExists(right)) => same_text(
                left,
                right,
            ),
        }
    }
}

impl Clone for LogPredicate {
    fn clone(&self) -> (copy: Self)
        ensures
            copy@ == self@,
    {
        match self {
            LogPredicate::FieldExists(key) => LogPredicate::field_exists(key),
        }
    }
}

/// Whether a record with these fields meets all conditions.
pub fn all_match(predicates: &Vec<LogPredicate>, fields: &Vec<MetadataField>) -> (met: bool)
    ensures
        met == all_hold(predicates_view(predicates@), fields_view(fields@)),
{
    let ghost models = predicates_view(predicates@);
    let mut index: usize = 0;
    while index < predicates.len()
        invariant
            index <= predicates@.len(),
            models == predicates_view(predicates@),
            forall|i: int|
                0 <= i < index ==> (#[trigger] models[i]).holds(fields_view(fields@)),
        decreases predicates@.len() - index,
    {
        proof {
            assert(models[index as int] == predicates@[index as int]@);
        }
        if !predicates[index].matches(fields) {
            return false;
        }
        index = index + 1;
    }
    true
}

/// Whether two lists of conditions are the same.
pub fn same_predicates(left: &Vec<LogPredicate>, right: &Vec<LogPredicate>) -> (same: bool)
    ensures
        same == (predicates_view(left@) == predicates_view(right@)),
{
    let ghost l = predicates_view(left@);
    let ghost r = predicates_view(right@);
    if left.len() != right.len() {
        proof {
            assert(l.len() != r.len());
        }
        return false;
    }
    let mut index: usize = 0;
    while index < left.len()
        invariant
            index <= left@.len(),
            left@.len() == right@.len(),
            l == predicates_view(left@),
            r == predicates_view(right@),
            forall|i: int| 0 <= i < index ==> l[i] == r[i],
        decreases left@.len() - index,
    {
        proof {
            assert(l[index as int] == left@[index as int]@);
            assert(r[index as int] == right@[index as int]@);
        }
        if !left[index].same(&right[index]) {
            return false;
        }
        index = index + 1;
    }
    proof {
        assert(l =~= r);
    }
    true
}

/// Copies conditions.
pub fn clone_predicates(predicates: &Vec<LogPredicate>) -> (copies: Vec<LogPredicate>)
    ensures
        predicates_view(copies@) == predicates_view(predicates@),
{
    let mut copies: Vec<LogPredicate> = Vec::new();
    let mut index: usize = 0;
    while index < predicates.len()
        invariant
            index <= predicates@.len(),
            copies@.len() == index,
            forall|i: int| 0 <= i < index ==> (#[trigger] copies@[i])@ == predicates@[i]@,
        decreases predicates@.len() - index,
    {
        copies.push(predicates[index].clone());
        index = index + 1;
    }
    proof {
        assert(predicates_view(copies@) =~= predicates_view(predicates@));
    }
    copies
}

} // verus!
