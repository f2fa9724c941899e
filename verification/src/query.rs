//! The rules by which a query condition accepts a document's field.
//!
//! The value model lives with the caller. What this module decides on is
//! what the caller has observed of a field against the value of a condition:
//! whether the two are equal, how they compare where they can be compared,
//! and whether the field's value is among the items of the condition's value
//! where that is a list.
use vstd::prelude::*;

verus! {

/// The operator of a condition.
#[derive(Debug, Clone, Copy, PartialEq, Eq, Structural)]
pub enum Operator {
    Eq,
    Ne,
    Gt,
    Lt,
    Gte,
    Lte,
    In,
    Nin,
}

/// How one value stands to another.
#[derive(Debug, Clone, Copy, PartialEq, Eq, Structural)]
pub enum Comparison {
    Less,
    Equal,
    Greater,
}

/// What was observed of a document's field against a condition's value.
#[derive(Debug, Clone, Copy)]
pub struct Observation {
    /// The field's value equals the condition's value.
    pub equal: bool,
    /// How the field's value compares with the condition's value; `None`
    /// where the two cannot be compared.
    pub ordering: Option<Comparison>,
    /// Whether the field's value is among the items of the condition's
    /// value; `None` where the condition's value is no list.
    pub listed: Option<bool>,
}

/// Whether a condition with `operator` accepts a document, given what was
/// observed of the field it names; `None` stands for a document that lacks
/// the field, which no condition accepts.
pub open spec fn accepts(operator: Operator, field: Option<Observation>) -> bool {
    match field {
        None => false,
        Some(seen) => match operator {
            Operator::Eq => seen.equal,
            Operator::Ne => !seen.equal,
            Operator::Gt => seen.ordering == Some(Comparison::Greater),
            Operator::Lt => seen.ordering == Some(Comparison::Less),
            Operator::Gte => seen.ordering == Some(Comparison::Greater) || seen.ordering == Some(
                Comparison::Equal,
            ),
            Operator::Lte => seen.ordering == Some(Comparison::Less) || seen.ordering == Some(
                Comparison::Equal,
            ),
            Operator::In => seen.listed == Some(true),
            Operator::Nin => seen.listed != Some(true),
        },
    }
}

/// How the integer `a` stands to the integer `b`.
pub open spec fn integer_order(a: i64, b: i64) -> Comparison {
    if a < b {
        Comparison::Less
    } else if a == b {
        Comparison::Equal
    } else {
        Comparison::Greater
    }
}

/// Evaluates the conditions of a query.
#[derive(Debug, Clone, Copy)]
pub struct QueryExecutor;

impl QueryExecutor {
    /// Whether a document meets every condition of a query, given for each
    /// condition whether the document meets it. A query without conditions
    /// is met by every document.
    pub fn matches_all_conditions(&self, met: &[bool]) -> (r: bool)
        ensures
            r <==> forall|i: int| 0 <= i < met@.len() ==> met@[i],
    {
        let mut i: usize = 0;
        while i < met.len()
            invariant
                i <= met@.len(),
                forall|k: int| 0 <= k < i ==> met@[k],
            decreases met@.len() - i,
        {
            if !met[i] {
                return false;
            }
            i += 1;
        }
        true
    }

    /// Whether a condition with `operator` accepts a document, given what
    /// was observed of the field that the condition names, or `None` where
    /// the document lacks that field.
    pub fn matches_condition(&self, operator: &Operator, field: Option<&Observation>) -> (r: bool)
        ensures
            r == accepts(
                *operator,
                match field {
                    Some(seen) => Some(*seen),
                    None => None,
                },
            ),
    {
        match field {
            Some(seen) => match operator {
                Operator::Eq => seen.equal,
                Operator::Ne => !seen.equal,
                Operator::Gt => is_order(&seen.ordering, Comparison::Greater),
                Operator::Lt => is_order(&seen.ordering, Comparison::Less),
                Operator::Gte => is_order(&seen.ordering, Comparison::Greater) || is_order(
                    &seen.ordering,
                    Comparison::Equal,
                ),
                Operator::Lte => is_order(&seen.ordering, Comparison::Less) || is_order(
                    &seen.ordering,
                    Comparison::Equal,
                ),
                Operator::In => match seen.listed {
                    Some(found) => found,
                    None => false,
                },
                Operator::Nin => match seen.listed {
                    Some(found) => !found,
                    None => true,
                },
            },
            None => false,
        }
    }

    /// How two integer values compare.
    pub fn compare_integers(&self, a: i64, b: i64) -> (r: Option<Comparison>)
        ensures
            r == Some(integer_order(a, b)),
    {
        if a < b {
            Some(Comparison::Less)
        } else if a == b {
            Some(Comparison::Equal)
        } else {
            Some(Comparison::Greater)
        }
    }
}

/// Whether `ordering` is known and is `wanted`.
fn is_order(ordering: &Option<Comparison>, wanted: Comparison) -> (r: bool)
    ensures
        r == (*ordering == Some(wanted)),
{
    match ordering {
        Some(found) => *found == wanted,
        None => false,
    }
}

} // verus!
