use vstd::prelude::*;
use crate::value::{Record, VariableType};
use crate::constraint::Predicate;

verus! {

/// The scalar a record holds under `label`, read as 0 when absent.
pub open spec fn field(h: Record<i32>, label: Seq<char>) -> int {
    match h.lookup(label) {
        Some(x) => x as int,
        None => 0,
    }
}

/// Predicates on integer values, among them those of the cryptarithm encoding.
pub enum Relation {
    /// Two scalars that differ.
    Distinct,
    /// Two scalars, the first smaller.
    Less,
    /// A scalar equal to 0.
    Zero,
    /// A scalar other than 0.
    NonZero,
    /// A column record whose digits and carries add up:
    /// `left + right + carry_in == sum + 10 * carry_out`.
    ColumnSum(String, String, String, String, String),
    /// A scalar equal to the given field of a column record.
    Projection(String),
}

impl Predicate<i32> for Relation {
    open spec fn holds(&self, v: VariableType<i32>) -> bool {
        match self {
            Relation::Zero => v matches VariableType::Value(x) && x == 0,
            Relation::NonZero => v matches VariableType::Value(x) && x != 0,
            Relation::ColumnSum(a, b, c, ci, co) => match v {
                VariableType::Hidden(h) => field(h, a@) + field(h, b@) + field(h, ci@) == field(h, c@) + 10 * field(
                    h,
                    co@,
                ),
                VariableType::Value(_) => false,
            },
            _ => false,
        }
    }

    open spec fn relates(&self, a: VariableType<i32>, b: VariableType<i32>) -> bool {
        match self {
            Relation::Distinct => a matches VariableType::Value(x) && b matches VariableType::Value(y) && x != y,
            Relation::Less => a matches VariableType::Value(x) && b matches VariableType::Value(y) && x < y,
            Relation::Projection(l) => a matches VariableType::Value(x) && b matches VariableType::Hidden(h)
                && h.lookup(l@) == Some(x),
            _ => false,
        }
    }

    fn test(&self, v: &VariableType<i32>) -> (r: bool) {
        match self {
            Relation::Zero => match v {
                VariableType::Value(x) => *x == 0,
                VariableType::Hidden(_) => false,
            },
            Relation::NonZero => match v {
                VariableType::Value(x) => *x != 0,
                VariableType::Hidden(_) => false,
            },
            Relation::ColumnSum(a, b, c, ci, co) => match v {
                VariableType::Hidden(h) => {
                    let va = read_field(h, a);
                    let vb = read_field(h, b);
                    let vc = read_field(h, c);
                    let vci = read_field(h, ci);
                    let vco = read_field(h, co);
                    va + vb + vci == vc + 10 * vco
                },
                VariableType::Value(_) => false,
            },
            _ => false,
        }
    }

    fn test_pair(&self, a: &VariableType<i32>, b: &VariableType<i32>) -> (r: bool) {
        match self {
            Relation::Distinct => match (a, b) {
                (VariableType::Value(x), VariableType::Value(y)) => *x != *y,
                _ => false,
            },
            Relation::Less => match (a, b) {
                (VariableType::Value(x), VariableType::Value(y)) => *x < *y,
                _ => false,
            },
            Relation::Projection(l) => match (a, b) {
                (VariableType::Value(x), VariableType::Hidden(h)) => match h.get_key(l) {
                    Some(y) => *x == *y,
                    None => false,
                },
                _ => false,
            },
            _ => false,
        }
    }
}

/// The field of `h` under `label` as a wide integer, 0 when absent.
fn read_field(h: &Record<i32>, label: &String) -> (r: i64)
    ensures
        r as int == field(*h, label@),
{
    match h.get_key(label) {
        Some(x) => *x as i64,
        None => 0,
    }
}

} // verus!
