//! Runtime support for zero-copy binary parsers: bit-granular lengths,
//! consuming hooks (C strings, LEB128 varints, DNS names) and the layout
//! decisions of the code generator.

pub mod context;
pub mod hooks;
pub mod len;
pub mod protocols;

pub use context::{HookContext, ParseError, ParseResult};
pub use len::Len;
pub mod codegen;
