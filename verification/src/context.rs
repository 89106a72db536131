//! What a consuming hook is handed, and how parsing fails.
use vstd::prelude::*;

use crate::len::Len;

verus! {

/// Where a hook runs: the message that encloses the field, the field's
/// offset in it, and the field's name for error reports.
#[derive(Debug, Clone, Copy)]
pub struct HookContext<'a> {
    pub enclosing: &'a [u8],
    pub offset: usize,
    pub field: &'static str,
}

/// Why parsing failed.
#[derive(Debug, Clone, Copy, PartialEq, Eq)]
pub enum ParseError {
    /// The input ended before `expected` bytes; it holds `got`.
    NotEnoughData { expected: usize, got: usize },
    /// A hook rejected the bytes of `field`.
    HookFailed { field: &'static str, reason: &'static str },
    /// A length that should be whole bytes has leftover bits.
    UnalignedLength(Len),
}

/// The result of a parse step.
pub type ParseResult<T> = Result<T, ParseError>;

} // verus!
