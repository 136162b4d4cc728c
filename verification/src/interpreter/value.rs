//! Runtime values.

use crate::number::{ieee_equal, ieee_from_integer, Number};
use vstd::prelude::*;
use vstd::slice::slice_to_vec;
use vstd::string::StringSliceAdditionalSpecFns;

verus! {

/// How a run fails. The first violation met, going left to right and depth
/// first, ends the run.
#[derive(Debug, Clone, Copy, PartialEq, Eq, Structural)]
pub enum RunError {
    /// An operator, a member, a method, an index or a condition met a value of
    /// a kind it is not defined on.
    Type,
    /// A call gave another number of arguments than the function declares, or
    /// than the method takes.
    Arity,
    /// A variable or a function is not bound.
    Name,
    /// An array was indexed before its first element, at or past its length,
    /// or by a number that has no integer part.
    Bounds,
    /// A `return` at top level, or a function body that ended without one.
    Structure,
    /// The run needed more fuel than it was given.
    Limit,
}

/// A runtime value.
#[derive(Debug)]
pub enum Value {
    Array(Vec<Value>),
    Bool(bool),
    Number(Number),
    Text(Vec<u8>),
}

/// Model of a [`Value`].
pub enum ValueView {
    Array(Seq<ValueView>),
    Bool(bool),
    Number(Number),
    Text(Seq<u8>),
}

/// The models of a sequence of values, element by element.
pub open spec fn value_views(items: Seq<Value>) -> Seq<ValueView>
    decreases items,
{
    Seq::new(
        items.len(),
        |i: int|
            if 0 <= i < items.len() {
                items[i]@
            } else {
                arbitrary()
            },
    )
}

/// The model of a sequence of values has their models at their places.
pub proof fn lemma_value_views(items: Seq<Value>)
    ensures
        value_views(items).len() == items.len(),
        forall|i: int| 0 <= i < items.len() ==> #[trigger] value_views(items)[i] == items[i]@,
{
}

impl View for Value {
    type V = ValueView;

    open spec fn view(&self) -> ValueView
        decreases self,
    {
        match self {
            Value::Array(items) => ValueView::Array(value_views(items@)),
            Value::Bool(value) => ValueView::Bool(*value),
            Value::Number(value) => ValueView::Number(*value),
            Value::Text(text) => ValueView::Text(text@),
        }
    }
}

/// The element of `value` at `position`: a type error unless `value` is an
/// array, a bounds error at or past the array's length.
pub open spec fn element_of(value: ValueView, position: int) -> Result<ValueView, RunError> {
    match value {
        ValueView::Array(items) => if 0 <= position < items.len() {
            Ok(items[position])
        } else {
            Err(RunError::Bounds)
        },
        _ => Err(RunError::Type),
    }
}

/// Whether two byte strings are equal.
pub fn same_bytes(lhs: &[u8], rhs: &[u8]) -> (same: bool)
    ensures
        same == (lhs@ == rhs@),
{
    if lhs.len() != rhs.len() {
        return false;
    }
    let mut i: usize = 0;
    while i < lhs.len()
        invariant
            lhs.len() == rhs.len(),
            i <= lhs.len(),
            lhs@.take(i as int) == rhs@.take(i as int),
        decreases lhs.len() - i,
    {
        if lhs[i] != rhs[i] {
            return false;
        }
        proof {
            assert(lhs@.take(i + 1) == lhs@.take(i as int).push(lhs@[i as int]));
            assert(rhs@.take(i + 1) == rhs@.take(i as int).push(rhs@[i as int]));
        }
        i += 1;
    }
    proof {
        assert(lhs@.take(lhs.len() as int) == lhs@);
        assert(rhs@.take(rhs.len() as int) == rhs@);
    }
    true
}

impl Clone for Value {
    fn clone(&self) -> (copy: Self)
        ensures
            copy@ == self@,
        decreases self,
    {
        match self {
            Value::Array(items) => {
                let mut copies: Vec<Value> = Vec::new();
                let mut i: usize = 0;
                while i < items.len()
                    invariant
                        self is Array,
                        self->Array_0 == *items,
                        i <= items.len(),
                        copies.len() == i,
                        forall|j: int| 0 <= j < i ==> copies@[j]@ == items@[j]@,
                    decreases items.len() - i,
                {
                    proof {
                        assert(decreases_to!(*self => self->Array_0));
                        assert(decreases_to!(*items => items@));
                        assert(decreases_to!(items@ => items@[i as int]));
                    }
                    let copy = items[i].clone();
                    copies.push(copy);
                    i += 1;
                }
                proof {
                    assert(value_views(copies@) =~= value_views(items@));
                }
                Value::Array(copies)
            },
            Value::Bool(value) => Value::Bool(*value),
            Value::Number(value) => Value::Number(*value),
            Value::Text(text) => Value::Text(slice_to_vec(text.as_slice())),
        }
    }
}

impl Value {
    /// The element at `position` of an array.
    pub fn element(&self, position: usize) -> (found: Result<&Value, RunError>)
        ensures
            match found {
                Ok(item) => element_of(self@, position as int) == Ok::<ValueView, RunError>(item@),
                Err(error) => element_of(self@, position as int) == Err::<ValueView, RunError>(
                    error,
                ),
            },
    {
        match self {
            Value::Array(items) => if position < items.len() {
                proof {
                    lemma_value_views(items@);
                }
                Ok(&items[position])
            } else {
                proof {
                    lemma_value_views(items@);
                }
                Err(RunError::Bounds)
            },
            _ => Err(RunError::Type),
        }
    }

    /// Whether this value is the boolean `expected`.
    pub fn eq_bool(&self, expected: bool) -> (same: bool)
        ensures
            same == (self@ == ValueView::Bool(expected)),
    {
        match self {
            Value::Bool(value) => *value == expected,
            _ => false,
        }
    }

    /// Whether this value is a number equal to the integer `expected`.
    pub fn eq_number(&self, expected: i32) -> (same: bool)
        ensures
            same == match self@ {
                ValueView::Number(value) => ieee_equal(
                    value.bits,
                    ieee_from_integer(expected as int),
                ),
                _ => false,
            },
    {
        match self {
            Value::Number(value) => value.equals(Number::from_integer(expected as i64)),
            _ => false,
        }
    }

    /// Whether this value is the text `expected`.
    pub fn eq_text(&self, expected: &str) -> (same: bool)
        ensures
            same == (self@ == ValueView::Text(expected.spec_bytes())),
    {
        match self {
            Value::Text(text) => same_bytes(text.as_slice(), expected.as_bytes()),
            _ => false,
        }
    }
}

} // verus!
