//! The decisions of the parser generator that do not depend on the code it
//! emits: reading field attributes, and where fields land in a struct.
use vstd::prelude::*;

use crate::len::Len;

pub mod ast;
pub mod attr;
pub mod field;
pub mod struct_;
pub mod type_;

verus! {

/// A length known to the generator: a fixed number of bytes and bits, or one
/// that is only known at parse time.
#[derive(Debug, Clone, Copy, PartialEq, Eq, Structural)]
pub enum GenLen {
    Fixed(Len),
    Dynamic,
}

impl GenLen {
    /// The sum of two generator lengths: fixed when both are fixed.
    pub open spec fn spec_add(self, other: GenLen) -> GenLen {
        match (self, other) {
            (GenLen::Fixed(a), GenLen::Fixed(b)) => GenLen::Fixed(a.spec_add_len(b)),
            _ => GenLen::Dynamic,
        }
    }

    /// Whether `self + other` can be computed without overflow.
    pub open spec fn can_add(self, other: GenLen) -> bool {
        match (self, other) {
            (GenLen::Fixed(a), GenLen::Fixed(b)) => a.can_add(b),
            _ => true,
        }
    }

    /// Adds two generator lengths.
    pub fn add(self, other: GenLen) -> (r: GenLen)
        requires
            self.can_add(other),
        ensures
            r == self.spec_add(other),
    {
        match (self, other) {
            (GenLen::Fixed(a), GenLen::Fixed(b)) => GenLen::Fixed(a + b),
            _ => GenLen::Dynamic,
        }
    }
}

} // verus!
