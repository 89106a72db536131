//! The parts of a parsed DSL specification that the generator reads.
use vstd::prelude::*;

use vstd::arithmetic::power2::{lemma2_to64, lemma2_to64_rest, lemma_pow2_adds, pow2};

verus! {

/// An attribute written before a field, such as `@endian(little)`.
#[derive(Debug, Clone)]
pub struct Attribute<'a> {
    /// The attribute's name, without the `@`.
    pub name: &'a str,
    /// The argument expressions between the brackets.
    pub args: Vec<Expr<'a>>,
}

/// An argument expression of an attribute.
#[derive(Debug, Clone)]
pub enum Expr<'a> {
    /// A path such as `big` or `binparse.hooks.cstring`, one segment per entry.
    Path(Vec<&'a str>),
    /// Any other expression (a literal, an arithmetic expression, ...).
    Other,
}

/// A primitive type of the DSL.
#[derive(Debug, Clone, Copy, PartialEq, Eq, Structural)]
pub enum Primitive {
    U8,
    U16,
    U32,
    U64,
    U128,
}

impl Primitive {
    /// The number of bytes a value of this type occupies.
    pub open spec fn spec_byte_len(self) -> usize {
        match self {
            Primitive::U8 => 1,
            Primitive::U16 => 2,
            Primitive::U32 => 4,
            Primitive::U64 => 8,
            Primitive::U128 => 16,
        }
    }

    /// The number of bytes a value of this type occupies.
    pub fn byte_len(self) -> (r: usize)
        ensures
            r == self.spec_byte_len(),
    {
        match self {
            Primitive::U8 => 1,
            Primitive::U16 => 2,
            Primitive::U32 => 4,
            Primitive::U64 => 8,
            Primitive::U128 => 16,
        }
    }
}

/// A primitive occupies the bytes of its Rust type: its bytes hold exactly
/// as many values as `u8`, `u16`, `u32`, `u64` or `u128` does, so its bit width
/// (eight bits per byte) is that type's.
pub proof fn lemma_primitive_spans_its_type(p: Primitive)
    ensures
        pow2((8 * p.spec_byte_len()) as nat) == match p {
            Primitive::U8 => u8::MAX as int + 1,
            Primitive::U16 => u16::MAX as int + 1,
            Primitive::U32 => u32::MAX as int + 1,
            Primitive::U64 => u64::MAX as int + 1,
            Primitive::U128 => u128::MAX as int + 1,
        },
{
    lemma2_to64();
    lemma2_to64_rest();
    lemma_pow2_adds(64, 64);
}

} // verus!
