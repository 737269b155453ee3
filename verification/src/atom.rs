//! Values that an automaton treats as opaque: state identifiers and input
//! symbols. The engine copies them and tests them for identity, nothing else.

use vstd::prelude::*;

verus! {

/// An opaque, copyable value with a decidable identity test.
///
/// `same` decides mathematical equality, so every set and map that the
/// automata are modelled by is keyed by the values themselves.
pub trait Atom: Copy {
    /// Whether the two values are the same value.
    fn same(&self, other: &Self) -> (r: bool)
        ensures
            r == (*self == *other),
    ;
}

impl Atom for char {
    fn same(&self, other: &Self) -> (r: bool) {
        *self == *other
    }
}

impl Atom for bool {
    fn same(&self, other: &Self) -> (r: bool) {
        *self == *other
    }
}

impl Atom for u8 {
    fn same(&self, other: &Self) -> (r: bool) {
        *self == *other
    }
}

impl Atom for u16 {
    fn same(&self, other: &Self) -> (r: bool) {
        *self == *other
    }
}

impl Atom for u32 {
    fn same(&self, other: &Self) -> (r: bool) {
        *self == *other
    }
}

impl Atom for u64 {
    fn same(&self, other: &Self) -> (r: bool) {
        *self == *other
    }
}

impl Atom for usize {
    fn same(&self, other: &Self) -> (r: bool) {
        *self == *other
    }
}

impl Atom for i32 {
    fn same(&self, other: &Self) -> (r: bool) {
        *self == *other
    }
}

impl Atom for i64 {
    fn same(&self, other: &Self) -> (r: bool) {
        *self == *other
    }
}

} // verus!
