//! Errors in generating a field's type, and the layout of primitives.
use vstd::prelude::*;

use crate::codegen::field;
use crate::codegen::GenLen;
use crate::len::Len;

pub mod concat;
pub mod primitive;
pub mod struct_ref;

verus! {

/// Why a type cannot be generated.
#[derive(Debug)]
pub enum Error {
    /// The type needs alignment but is not aligned itself.
    UnalignedType,
    /// The type has no size known at generation time.
    UnsizedType,
    /// The type needs byte alignment, but its start offset is this length,
    /// which ends mid-byte.
    InvalidAlignment(Len),
    /// No struct of this name has been generated.
    UnknownType(String),
    /// A concatenation cannot be generated.
    Concat(concat::Error),
    /// A nested field cannot be generated.
    Field(Box<field::Error>),
    /// A constant `@len` bound of `bound` bytes is below the `needed` bytes
    /// of the struct it holds.
    LenBoundTooSmall { bound: usize, needed: usize },
}

/// Where a field's type starts: the struct's cursor plus what the field has
/// already taken.
pub fn start_offset(struct_offset: GenLen, field_len: GenLen) -> (r: GenLen)
    requires
        struct_offset.can_add(field_len),
    ensures
        r == struct_offset.spec_add(field_len),
{
    struct_offset.add(field_len)
}

} // verus!
