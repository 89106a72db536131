//! Where a primitive field (`u8` ... `u128`) lies in its struct, and in which
//! byte order it is read.
use vstd::prelude::*;

use crate::codegen::ast::Primitive;
use crate::codegen::attr::{Endian, ParsedAttrs};
use crate::codegen::struct_::DoneFieldType;
use crate::codegen::type_::Error;
use crate::codegen::GenLen;
use crate::len::Len;

verus! {

/// What the generator knows of a primitive field.
#[derive(Debug, Clone, Copy, PartialEq, Eq, Structural)]
pub struct PrimitiveInfo {
    /// The field's length: its whole bytes.
    pub len: GenLen,
    /// The kind of field it is: always `Primitive`.
    pub field_type: DoneFieldType,
    /// The byte order its getter reads in.
    pub endian: Endian,
    /// The index of its first byte.
    pub start_byte: usize,
    /// The index after its last byte.
    pub end_byte: usize,
}

/// The byte order set by the attributes of a field and of its struct: the
/// field's `@endian`, else the struct's, else big endian.
pub open spec fn resolved_endian(field_attrs: ParsedAttrs, struct_attrs: ParsedAttrs) -> Endian {
    match field_attrs.endian {
        Some(e) => e,
        None => match struct_attrs.endian {
            Some(e) => e,
            None => Endian::Big,
        },
    }
}

/// Places a primitive at the start offset `start_offset`, read in the byte
/// order its field's and its struct's attributes set.
///
/// A primitive is read from whole bytes, so an offset that ends mid-byte is
/// rejected; otherwise the field spans the type's bytes from the offset's
/// byte on. The generator places primitives at fixed offsets only.
pub fn generate(
    primitive: Primitive,
    start_offset: GenLen,
    field_attrs: &ParsedAttrs,
    struct_attrs: &ParsedAttrs,
) -> (r: Result<PrimitiveInfo, Error>)
    requires
        match start_offset {
            GenLen::Fixed(o) => o.bit == 0 ==> o.byte + primitive.spec_byte_len() <= usize::MAX,
            GenLen::Dynamic => false,
        },
    ensures
        match start_offset {
            GenLen::Fixed(o) => if o.bit != 0 {
                r == Err::<PrimitiveInfo, Error>(Error::InvalidAlignment(o))
            } else {
                r == Ok::<PrimitiveInfo, Error>(
                    PrimitiveInfo {
                        len: GenLen::Fixed(Len { byte: primitive.spec_byte_len(), bit: 0 }),
                        field_type: DoneFieldType::Primitive,
                        endian: resolved_endian(*field_attrs, *struct_attrs),
                        start_byte: o.byte,
                        end_byte: (o.byte + primitive.spec_byte_len()) as usize,
                    },
                )
            },
            GenLen::Dynamic => false,
        },
{
    let len = Len { byte: primitive.byte_len(), bit: 0 };
    match start_offset {
        GenLen::Fixed(offset) => {
            if offset.bit != 0 {
                return Err(Error::InvalidAlignment(offset));
            }
            let end = offset + len;
            Ok(
                PrimitiveInfo {
                    len: GenLen::Fixed(len),
                    field_type: DoneFieldType::Primitive,
                    endian: byte_order(field_attrs, struct_attrs),
                    start_byte: offset.byte,
                    end_byte: end.byte,
                },
            )
        },
        GenLen::Dynamic => {
            proof {
                assert(false);
            }
            Err(Error::UnsizedType)
        },
    }
}

/// The byte order a primitive field is read in: the field's `@endian`,
/// else the struct's, else big endian.
pub fn byte_order(field_attrs: &ParsedAttrs, struct_attrs: &ParsedAttrs) -> (r: Endian)
    ensures
        r == resolved_endian(*field_attrs, *struct_attrs),
{
    field_attrs.merge_endian(struct_attrs.merge_endian(Endian::default()))
}

/// A field's own `@endian` overrides its struct's, and the struct's applies
/// only to fields without one; with neither, big endian is used.
pub proof fn lemma_field_endian_overrides_struct(field_attrs: ParsedAttrs, struct_attrs: ParsedAttrs)
    ensures
        field_attrs.endian matches Some(e) ==> resolved_endian(field_attrs, struct_attrs) == e,
        field_attrs.endian is None ==> resolved_endian(field_attrs, struct_attrs) == match struct_attrs.endian {
            Some(e) => e,
            None => Endian::Big,
        },
{
}

} // verus!
