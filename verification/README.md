# binparse

Runtime support for zero-copy binary parsers, verified with Verus.

- `src/len.rs`: `Len`, a byte-and-bit length, and the laws of its addition.
- `src/context.rs`: `HookContext`, `ParseError`, `ParseResult`.
- `src/hooks.rs`: `cstring`, `leb128_unsigned`, `leb128_signed`, with their
  mathematical model (`leb128_len`, `leb128_digits`, ...), the minimal
  encoders, and laws (round trips, prefix stability).
- `src/protocols/hooks.rs`: `dns_name`, DNS name decoding with compression
  pointers (RFC 1035 4.1.4), specified by `read_name`.
- `src/codegen/`: the generator's layout decisions: `@endian` attributes and
  byte order, `GenLen`, field placement, the struct cursor and the registry
  of generated structs (`field.rs`, `struct_.rs`), primitive, concatenation
  and struct-reference layout (`type_/`), the field-by-field length check of
  a generated `parse`, and the error types.
- `app/lib.rs`: the error types with their messages (`thiserror`) and the
  emitted code (`quote`): primitive getters, end-offset getters, `parse`.
