use binparse::codegen::ast::{Attribute, Expr, Primitive};
use binparse::codegen::attr::{Endian, Error, ParsedAttrs};
use binparse::codegen::field::{self, place_field, FieldState};
use binparse::codegen::struct_::{
    self, parse_len_check, struct_len, DoneFieldType, Registry, StructState,
};
use binparse::codegen::type_::concat::concat_layout;
use binparse::codegen::type_::primitive::{self, PrimitiveInfo};
use binparse::codegen::type_::struct_ref::{struct_ref_layout, struct_ref_len};
use binparse::codegen::type_;
use binparse::codegen::GenLen;
use binparse::{Len, ParseError};

fn endian_attr<'a>(args: Vec<Expr<'a>>) -> Attribute<'a> {
    Attribute { name: "endian", args }
}

#[test]
fn attrs_none() {
    let parsed = ParsedAttrs::parse(&[]).unwrap();
    assert_eq!(parsed.endian, None);
    assert_eq!(parsed.merge_endian(Endian::Little), Endian::Little);
}

#[test]
fn attrs_endian_little_and_big() {
    let parsed = ParsedAttrs::parse(&[endian_attr(vec![Expr::Path(vec!["little"])])]).unwrap();
    assert_eq!(parsed.endian, Some(Endian::Little));
    assert_eq!(parsed.merge_endian(Endian::Big), Endian::Little);
    let parsed = ParsedAttrs::parse(&[endian_attr(vec![Expr::Path(vec!["big"])])]).unwrap();
    assert_eq!(parsed.merge_endian(Endian::Little), Endian::Big);
}

#[test]
fn attrs_last_endian_wins_and_others_ignored() {
    let attrs = [
        endian_attr(vec![Expr::Path(vec!["little"])]),
        Attribute { name: "skip", args: vec![] },
        endian_attr(vec![Expr::Path(vec!["big"])]),
        Attribute { name: "align", args: vec![Expr::Other] },
    ];
    assert_eq!(ParsedAttrs::parse(&attrs).unwrap().endian, Some(Endian::Big));
}

#[test]
fn attrs_wrong_arg_count() {
    let err = ParsedAttrs::parse(&[endian_attr(vec![])]).unwrap_err();
    assert!(matches!(err, Error::WrongArgCount { attr: "endian", expected: 1, got: 0 }));
    let two = endian_attr(vec![Expr::Path(vec!["big"]), Expr::Path(vec!["little"])]);
    let err = ParsedAttrs::parse(&[two]).unwrap_err();
    assert!(matches!(err, Error::WrongArgCount { attr: "endian", expected: 1, got: 2 }));
}

#[test]
fn attrs_invalid_endian_values() {
    let err = ParsedAttrs::parse(&[endian_attr(vec![Expr::Path(vec!["middle"])])]).unwrap_err();
    assert!(matches!(err, Error::InvalidEndianValue(ref s) if s == "middle"));
    let err = ParsedAttrs::parse(&[endian_attr(vec![Expr::Path(vec!["a", "big"])])]).unwrap_err();
    assert!(matches!(err, Error::InvalidEndianValue(ref s) if s == "<non-identifier>"));
    let err = ParsedAttrs::parse(&[endian_attr(vec![Expr::Other])]).unwrap_err();
    assert!(matches!(err, Error::InvalidEndianValue(ref s) if s == "<non-identifier>"));
}

#[test]
fn attrs_first_invalid_endian_is_reported() {
    let attrs = [
        endian_attr(vec![Expr::Path(vec!["big"])]),
        endian_attr(vec![Expr::Path(vec!["sideways"])]),
        endian_attr(vec![]),
    ];
    let err = ParsedAttrs::parse(&attrs).unwrap_err();
    assert!(matches!(err, Error::InvalidEndianValue(ref s) if s == "sideways"));
}

#[test]
fn endian_defaults() {
    assert_eq!(Endian::default(), Endian::Big);
    assert_eq!(ParsedAttrs::default().endian, None);
}

fn fixed(byte: usize, bit: usize) -> GenLen {
    GenLen::Fixed(Len { byte, bit })
}

fn endian(e: &str) -> ParsedAttrs {
    ParsedAttrs::parse(&[endian_attr(vec![Expr::Path(vec![e])])]).unwrap()
}

#[test]
fn primitive_generate_aligned() {
    let none = ParsedAttrs::default();
    let info = primitive::generate(Primitive::U32, fixed(3, 0), &none, &none).unwrap();
    assert_eq!(
        info,
        PrimitiveInfo {
            len: fixed(4, 0),
            field_type: DoneFieldType::Primitive,
            endian: Endian::Big,
            start_byte: 3,
            end_byte: 7
        }
    );
    let info = primitive::generate(Primitive::U128, fixed(0, 0), &none, &none).unwrap();
    assert_eq!((info.start_byte, info.end_byte), (0, 16));
}

#[test]
fn primitive_generate_unaligned_rejected() {
    let none = ParsedAttrs::default();
    let err = primitive::generate(Primitive::U16, fixed(1, 4), &none, &none).unwrap_err();
    assert!(matches!(err, type_::Error::InvalidAlignment(Len { byte: 1, bit: 4 })));
}

#[test]
fn primitive_byte_order_three_levels() {
    let none = ParsedAttrs::default();
    // Baseline: @endian(little) struct; `word` inherits, `@endian(big) be` overrides.
    let word = primitive::generate(Primitive::U16, fixed(1, 0), &none, &endian("little")).unwrap();
    assert_eq!(word.endian, Endian::Little);
    let be = primitive::generate(Primitive::U32, fixed(3, 0), &endian("big"), &endian("little")).unwrap();
    assert_eq!(be.endian, Endian::Big);
    assert_eq!(primitive::byte_order(&none, &none), Endian::Big);
    assert_eq!(primitive::byte_order(&endian("little"), &none), Endian::Little);
    assert_eq!(primitive::byte_order(&none, &endian("little")), Endian::Little);
}

#[test]
fn field_state_new() {
    let f = FieldState::new("flags");
    assert_eq!(f.field_name, "flags");
    assert_eq!(f.len, fixed(0, 0));
    assert_eq!(f.field_type, DoneFieldType::Other);
    assert_eq!(f.offset_getter_fn_name, "flags_end_offset");
}

#[test]
fn place_field_fixed_and_dynamic() {
    assert_eq!(place_field(fixed(1, 5), fixed(0, 4)), (fixed(2, 1), fixed(2, 1)));
    assert_eq!(place_field(GenLen::Dynamic, fixed(1, 0)), (GenLen::Dynamic, GenLen::Dynamic));
    assert_eq!(place_field(fixed(1, 0), GenLen::Dynamic), (GenLen::Dynamic, GenLen::Dynamic));
}

#[test]
fn struct_state_advances_cursor_over_bitfields() {
    let mut st = StructState::new("TcpFlags");
    assert_eq!(st.name, "TcpFlags");
    assert_eq!(st.offset, fixed(0, 0));
    assert!(st.done_fields.is_empty());
    let mut a = FieldState::new("data_offset");
    a.len = fixed(0, 4);
    a.field_type = DoneFieldType::BitField;
    assert_eq!(st.add_field(a), fixed(0, 4));
    let mut b = FieldState::new("reserved");
    b.len = fixed(0, 3);
    assert_eq!(st.add_field(b), fixed(0, 7));
    let mut c = FieldState::new("window");
    c.len = fixed(2, 1);
    assert_eq!(st.add_field(c), fixed(3, 0));
    assert_eq!(st.offset, fixed(3, 0));
    assert_eq!(st.done_fields.len(), 3);
    assert_eq!(st.done_fields[0].name, "data_offset");
    assert_eq!(st.done_fields[0].field_type, DoneFieldType::BitField);
    assert_eq!(st.done_fields[2].offset_getter_fn_name, "window_end_offset");
    assert_eq!(st.done_fields[1].end, fixed(0, 7));
    assert_eq!(st.last_offset_getter_fn_name.as_deref(), Some("window_end_offset"));
}

#[test]
fn struct_state_add_generated_field() {
    let mut st = StructState::new("Padded");
    assert_eq!(st.add_generated_field("a", fixed(1, 0), DoneFieldType::Primitive), fixed(1, 0));
    assert_eq!(st.add_generated_field("b", fixed(3, 0), DoneFieldType::Other), fixed(4, 0));
    assert_eq!(st.done_fields[1].name, "b");
    assert_eq!(st.done_fields[1].len, fixed(3, 0));
    assert_eq!(st.done_fields[1].end, fixed(4, 0));
    assert_eq!(st.done_fields[0].field_type, DoneFieldType::Primitive);
    assert_eq!(st.last_offset_getter_fn_name.as_deref(), Some("b_end_offset"));
}

#[test]
fn registry_records_struct_lengths() {
    let mut reg = Registry::new();
    assert_eq!(reg.get("Inner"), None);
    let mut inner = StructState::new("Inner");
    inner.add_generated_field("a", fixed(1, 0), DoneFieldType::Primitive);
    inner.add_generated_field("b", fixed(2, 0), DoneFieldType::Primitive);
    inner.finish(&mut reg);
    assert_eq!(reg.get("Inner"), Some(fixed(3, 0)));
    assert_eq!(reg.get("Other"), None);
    assert_eq!(struct_ref_layout(&reg, "Inner", None, fixed(5, 0)).unwrap(), fixed(3, 0));
    let err = struct_ref_layout(&reg, "Missing", None, fixed(5, 0)).unwrap_err();
    assert!(matches!(err, type_::Error::UnknownType(ref s) if s == "Missing"));
    reg.insert("Inner", fixed(7, 0));
    assert_eq!(reg.get("Inner"), Some(fixed(7, 0)));
}

#[test]
fn struct_len_sums_fields() {
    let fields = vec![
        ("a".to_string(), Ok(fixed(1, 0))),
        ("b".to_string(), Ok(fixed(0, 3))),
        ("c".to_string(), Ok(fixed(2, 5))),
    ];
    assert_eq!(struct_len(fields).unwrap(), fixed(4, 0));
    let fields = vec![("a".to_string(), Ok(fixed(1, 0))), ("b".to_string(), Ok(GenLen::Dynamic))];
    assert_eq!(struct_len(fields).unwrap(), GenLen::Dynamic);
    assert_eq!(struct_len(vec![]).unwrap(), fixed(0, 0));
}

#[test]
fn struct_len_reports_first_failing_field() {
    let fields = vec![
        ("a".to_string(), Ok(fixed(1, 0))),
        ("b".to_string(), Err(field::Error::UnknownOffset)),
        ("c".to_string(), Err(field::Error::Type(type_::Error::UnsizedType))),
    ];
    let err = struct_len(fields).unwrap_err();
    assert!(matches!(err, struct_::Error::Field { ref name, error: field::Error::UnknownOffset } if name == "b"));
}

fn l(byte: usize, bit: usize) -> Len {
    Len { byte, bit }
}

#[test]
fn parse_len_check_reports_first_field_that_does_not_fit() {
    // Padded: a ends at 1, b (after 2 pad bytes) at 4, c at 6, d at 8.
    let padded = [l(1, 0), l(4, 0), l(6, 0), l(8, 0)];
    assert_eq!(parse_len_check(&padded, 8), Ok(8));
    assert_eq!(parse_len_check(&padded, 10), Ok(8));
    assert_eq!(parse_len_check(&padded, 3), Err(ParseError::NotEnoughData { expected: 4, got: 3 }));
    assert_eq!(parse_len_check(&padded, 0), Err(ParseError::NotEnoughData { expected: 1, got: 0 }));
    // Validated: the 4-byte magic comes first.
    let validated = [l(4, 0), l(4, 4), l(5, 0), l(7, 0), l(7, 2), l(8, 0)];
    assert_eq!(parse_len_check(&validated, 3), Err(ParseError::NotEnoughData { expected: 4, got: 3 }));
    // A bitfield that ends mid-byte needs that byte.
    assert_eq!(parse_len_check(&validated, 4), Err(ParseError::NotEnoughData { expected: 5, got: 4 }));
}

#[test]
fn parse_len_check_unaligned_and_empty() {
    assert_eq!(
        parse_len_check(&[l(1, 0), l(1, 4)], 6),
        Err(ParseError::UnalignedLength(l(1, 4)))
    );
    assert_eq!(parse_len_check(&[], 0), Ok(0));
}

#[test]
fn concat_layout_offsets() {
    let items = [Len { byte: 0, bit: 4 }, Len { byte: 0, bit: 4 }, Len { byte: 1, bit: 0 }];
    let (total, starts) = concat_layout(&items, Len { byte: 2, bit: 0 });
    assert_eq!(total, Len { byte: 2, bit: 0 });
    assert_eq!(starts, vec![Len { byte: 2, bit: 0 }, Len { byte: 2, bit: 4 }, Len { byte: 3, bit: 0 }]);
    let (total, starts) = concat_layout(&[], Len { byte: 5, bit: 1 });
    assert_eq!(total, Len { byte: 0, bit: 0 });
    assert!(starts.is_empty());
}

#[test]
fn struct_ref_len_cases() {
    let err = struct_ref_len(None, "Inner", None, fixed(0, 0)).unwrap_err();
    assert!(matches!(err, type_::Error::UnknownType(ref s) if s == "Inner"));
    assert_eq!(struct_ref_len(Some(fixed(3, 0)), "Inner", None, fixed(2, 0)).unwrap(), fixed(3, 0));
    let err = struct_ref_len(Some(fixed(3, 0)), "Inner", None, fixed(2, 1)).unwrap_err();
    assert!(matches!(err, type_::Error::InvalidAlignment(Len { byte: 2, bit: 1 })));
    let err = struct_ref_len(Some(fixed(3, 1)), "Inner", Some(Some(3)), fixed(2, 0)).unwrap_err();
    assert!(matches!(err, type_::Error::LenBoundTooSmall { bound: 3, needed: 4 }));
    assert_eq!(struct_ref_len(Some(fixed(3, 1)), "Inner", Some(Some(4)), fixed(2, 0)).unwrap(), fixed(4, 0));
    assert_eq!(struct_ref_len(Some(fixed(3, 0)), "Inner", Some(None), fixed(2, 0)).unwrap(), GenLen::Dynamic);
    assert_eq!(
        struct_ref_len(Some(GenLen::Dynamic), "Inner", Some(Some(1)), GenLen::Dynamic).unwrap(),
        fixed(1, 0)
    );
    let err = struct_ref_len(Some(fixed(3, 0)), "Inner", Some(Some(9)), fixed(0, 5)).unwrap_err();
    assert!(matches!(err, type_::Error::InvalidAlignment(Len { byte: 0, bit: 5 })));
}

#[test]
fn type_start_offset() {
    assert_eq!(type_::start_offset(fixed(1, 6), fixed(0, 3)), fixed(2, 1));
    assert_eq!(type_::start_offset(GenLen::Dynamic, fixed(0, 3)), GenLen::Dynamic);
}
