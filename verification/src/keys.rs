//! Capabilities a trie asks of its key and value types.
//!
//! A key segment must support an equality test and value-based duplication;
//! a stored value must support duplication, because a fetch hands back an
//! independent copy. Both capabilities are stated so that the result is the
//! mathematical equal of the input, which is what the trie's contracts build
//! on. Implementations are provided for the primitive types that are usable
//! as-is; a client type can implement the traits the same way.

use vstd::prelude::*;

verus! {

/// Value-based duplication: the copy equals the original.
pub trait Dup: Sized {
    /// Returns an independent copy of `self`, equal to it.
    fn dup(&self) -> (r: Self)
        ensures
            r == *self,
    ;
}

/// A path segment: duplicable, with an equality test that agrees with
/// mathematical equality.
pub trait Segment: Dup {
    /// Decides whether two segments are equal.
    fn seg_eq(&self, other: &Self) -> (r: bool)
        ensures
            r == (*self == *other),
    ;
}

impl Dup for u8 {
    fn dup(&self) -> (r: u8) {
        *self
    }
}

impl Segment for u8 {
    fn seg_eq(&self, other: &u8) -> (r: bool) {
        *self == *other
    }
}

impl Dup for u16 {
    fn dup(&self) -> (r: u16) {
        *self
    }
}

impl Segment for u16 {
    fn seg_eq(&self, other: &u16) -> (r: bool) {
        *self == *other
    }
}

impl Dup for u32 {
    fn dup(&self) -> (r: u32) {
        *self
    }
}

impl Segment for u32 {
    fn seg_eq(&self, other: &u32) -> (r: bool) {
        *self == *other
    }
}

impl Dup for u64 {
    fn dup(&self) -> (r: u64) {
        *self
    }
}

impl Segment for u64 {
    fn seg_eq(&self, other: &u64) -> (r: bool) {
        *self == *other
    }
}

impl Dup for usize {
    fn dup(&self) -> (r: usize) {
        *self
    }
}

impl Segment for usize {
    fn seg_eq(&self, other: &usize) -> (r: bool) {
        *self == *other
    }
}

impl Dup for i8 {
    fn dup(&self) -> (r: i8) {
        *self
    }
}

impl Segment for i8 {
    fn seg_eq(&self, other: &i8) -> (r: bool) {
        *self == *other
    }
}

impl Dup for i16 {
    fn dup(&self) -> (r: i16) {
        *self
    }
}

impl Segment for i16 {
    fn seg_eq(&self, other: &i16) -> (r: bool) {
        *self == *other
    }
}

impl Dup for i32 {
    fn dup(&self) -> (r: i32) {
        *self
    }
}

impl Segment for i32 {
    fn seg_eq(&self, other: &i32) -> (r: bool) {
        *self == *other
    }
}

impl Dup for i64 {
    fn dup(&self) -> (r: i64) {
        *self
    }
}

impl Segment for i64 {
    fn seg_eq(&self, other: &i64) -> (r: bool) {
        *self == *other
    }
}

impl Dup for isize {
    fn dup(&self) -> (r: isize) {
        *self
    }
}

impl Segment for isize {
    fn seg_eq(&self, other: &isize) -> (r: bool) {
        *self == *other
    }
}

impl Dup for bool {
    fn dup(&self) -> (r: bool) {
        *self
    }
}

impl Segment for bool {
    fn seg_eq(&self, other: &bool) -> (r: bool) {
        *self == *other
    }
}

impl Dup for char {
    fn dup(&self) -> (r: char) {
        *self
    }
}

impl Segment for char {
    fn seg_eq(&self, other: &char) -> (r: bool) {
        *self == *other
    }
}

impl<'a> Dup for &'a str {
    fn dup(&self) -> (r: &'a str) {
        *self
    }
}

} // verus!
