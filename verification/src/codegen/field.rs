//! One field of a struct: its state while generated, where it ends, and why
//! it can fail.
use vstd::prelude::*;

use crate::codegen::struct_::DoneFieldType;
use crate::codegen::type_;
use crate::codegen::GenLen;
use crate::len::Len;
use vstd::string::StringExecFns;

verus! {

/// Why a field cannot be generated.
#[derive(Debug)]
pub enum Error {
    /// Its type cannot be generated.
    Type(type_::Error),
    /// No start offset and no previous field tell where it begins.
    UnknownOffset,
}

/// A field while it is generated.
#[derive(Debug)]
pub struct FieldState {
    /// The field's name.
    pub field_name: String,
    /// The length found for it so far.
    pub len: GenLen,
    /// The kind of field it is.
    pub field_type: DoneFieldType,
    /// The name of the getter that returns where the field ends.
    pub offset_getter_fn_name: String,
}

impl FieldState {
    /// A field named `field_name` with nothing known of it yet: an empty
    /// length, the kind `Other`, and the end getter `<name>_end_offset`.
    pub fn new(field_name: &str) -> (r: Self)
        ensures
            r.field_name@ == field_name@,
            r.len == GenLen::Fixed(Len { byte: 0, bit: 0 }),
            r.field_type == DoneFieldType::Other,
            r.offset_getter_fn_name@ == field_name@ + "_end_offset"@,
    {
        let offset_getter_fn_name = <String as StringExecFns>::from_str(field_name).concat(
            "_end_offset",
        );
        FieldState {
            field_name: <String as StringExecFns>::from_str(field_name),
            len: GenLen::Fixed(Len { byte: 0, bit: 0 }),
            field_type: DoneFieldType::Other,
            offset_getter_fn_name,
        }
    }
}

/// Places a field of length `len` at the struct's cursor `offset`.
///
/// Returns where the field ends (what its end getter reports, `len +
/// offset`) and the struct's cursor after it (`offset + len`); for fixed
/// lengths the two are the same bit position.
pub fn place_field(offset: GenLen, len: GenLen) -> (r: (GenLen, GenLen))
    requires
        offset.can_add(len),
    ensures
        r.0 == len.spec_add(offset),
        r.1 == offset.spec_add(len),
        offset is Fixed && len is Fixed ==> r.0 == r.1,
        offset is Dynamic || len is Dynamic ==> r.0 == GenLen::Dynamic && r.1 == GenLen::Dynamic,
{
    proof {
        match (offset, len) {
            (GenLen::Fixed(a), GenLen::Fixed(b)) => {
                crate::len::lemma_add_commutative(a, b);
            },
            _ => {},
        }
    }
    let end = len.add(offset);
    let next = offset.add(len);
    (end, next)
}

} // verus!
