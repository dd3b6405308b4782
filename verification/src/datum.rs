//! Values that can flow through a live collection.
use vstd::prelude::*;

verus! {

/// A value that can be duplicated.
///
/// Operators that copy elements, such as a cross product, ask for this of the element type.
pub trait Dup: Sized {
    /// A second value equal to this one.
    fn dup(&self) -> (r: Self)
        ensures
            r == *self,
    ;
}

/// A value that can be duplicated and compared.
///
/// Operators that compare elements, such as removing duplicates, ask for this of the element
/// type.
pub trait Datum: Dup {
    /// Whether two values are equal.
    fn same(&self, other: &Self) -> (b: bool)
        ensures
            b == (*self == *other),
    ;
}

impl Dup for () {
    fn dup(&self) -> (r: Self) {
        ()
    }
}

impl Datum for () {
    fn same(&self, other: &Self) -> (b: bool) {
        true
    }
}

impl Dup for bool {
    fn dup(&self) -> (r: Self) {
        *self
    }
}

impl Datum for bool {
    fn same(&self, other: &Self) -> (b: bool) {
        *self == *other
    }
}

impl Dup for char {
    fn dup(&self) -> (r: Self) {
        *self
    }
}

impl Datum for char {
    fn same(&self, other: &Self) -> (b: bool) {
        *self == *other
    }
}

impl Dup for u8 {
    fn dup(&self) -> (r: Self) {
        *self
    }
}

impl Datum for u8 {
    fn same(&self, other: &Self) -> (b: bool) {
        *self == *other
    }
}

impl Dup for u32 {
    fn dup(&self) -> (r: Self) {
        *self
    }
}

impl Datum for u32 {
    fn same(&self, other: &Self) -> (b: bool) {
        *self == *other
    }
}

impl Dup for u64 {
    fn dup(&self) -> (r: Self) {
        *self
    }
}

impl Datum for u64 {
    fn same(&self, other: &Self) -> (b: bool) {
        *self == *other
    }
}

impl Dup for usize {
    fn dup(&self) -> (r: Self) {
        *self
    }
}

impl Datum for usize {
    fn same(&self, other: &Self) -> (b: bool) {
        *self == *other
    }
}

impl Dup for i32 {
    fn dup(&self) -> (r: Self) {
        *self
    }
}

impl Datum for i32 {
    fn same(&self, other: &Self) -> (b: bool) {
        *self == *other
    }
}

impl Dup for i64 {
    fn dup(&self) -> (r: Self) {
        *self
    }
}

impl Datum for i64 {
    fn same(&self, other: &Self) -> (b: bool) {
        *self == *other
    }
}

impl<T: Dup> Dup for Option<T> {
    fn dup(&self) -> (r: Self) {
        match self {
            Some(v) => Some(v.dup()),
            None => None,
        }
    }
}

impl<T: Datum> Datum for Option<T> {
    fn same(&self, other: &Self) -> (b: bool) {
        match (self, other) {
            (Some(v), Some(w)) => v.same(w),
            (None, None) => true,
            _ => false,
        }
    }
}

impl<A: Dup, B: Dup> Dup for (A, B) {
    fn dup(&self) -> (r: Self) {
        (self.0.dup(), self.1.dup())
    }
}

impl<A: Datum, B: Datum> Datum for (A, B) {
    fn same(&self, other: &Self) -> (b: bool) {
        self.0.same(&other.0) && self.1.same(&other.1)
    }
}

impl Dup for String {
    fn dup(&self) -> (r: Self) {
        self.clone()
    }
}

} // verus!
