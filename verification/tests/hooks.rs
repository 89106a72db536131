use binparse::hooks::{cstring, leb128_signed, leb128_unsigned};

#[test]
fn test_cstring_basic() {
    let data = b"hello\0world";
    let (s, len) = cstring(data);
    assert_eq!(s, "hello");
    assert_eq!(len, 6);
}

#[test]
fn test_cstring_no_null() {
    let data = b"hello";
    let (s, len) = cstring(data);
    assert_eq!(s, "hello");
    assert_eq!(len, 5);
}

#[test]
fn test_cstring_empty() {
    let data = b"\0rest";
    let (s, len) = cstring(data);
    assert_eq!(s, "");
    assert_eq!(len, 1);
}

#[test]
fn test_leb128_unsigned_single_byte() {
    let data = [0x7F];
    let (val, len) = leb128_unsigned(&data);
    assert_eq!(val, 127);
    assert_eq!(len, 1);
}

#[test]
fn test_leb128_unsigned_multi_byte() {
    let data = [0xE5, 0x8E, 0x26];
    let (val, len) = leb128_unsigned(&data);
    assert_eq!(val, 624485);
    assert_eq!(len, 3);
}

#[test]
fn test_leb128_unsigned_zero() {
    let data = [0x00];
    let (val, len) = leb128_unsigned(&data);
    assert_eq!(val, 0);
    assert_eq!(len, 1);
}

#[test]
fn test_leb128_signed_positive() {
    let data = [0x7F];
    let (val, len) = leb128_signed(&data);
    assert_eq!(val, -1);
    assert_eq!(len, 1);
}

#[test]
fn test_leb128_signed_negative() {
    let data = [0xC0, 0xBB, 0x78];
    let (val, len) = leb128_signed(&data);
    assert_eq!(val, -123456);
    assert_eq!(len, 3);
}

#[test]
fn test_leb128_signed_zero() {
    let data = [0x00];
    let (val, len) = leb128_signed(&data);
    assert_eq!(val, 0);
    assert_eq!(len, 1);
}

#[test]
fn test_leb128_signed_positive_multi() {
    let data = [0x80 | 57, 0x00];
    let (val, len) = leb128_signed(&data);
    assert_eq!(val, 57);
    assert_eq!(len, 2);
}

// ---------------------------------------------------------------------------

#[test]
fn cstring_empty_input() {
    assert_eq!(cstring(&[]), (String::new(), 0));
}

#[test]
fn cstring_invalid_utf8_is_replaced() {
    let (s, len) = cstring(&[b'a', 0xFF, b'b', 0, b'z']);
    assert_eq!(s, "a\u{FFFD}b");
    assert_eq!(len, 4);
}

#[test]
fn cstring_multibyte_utf8() {
    let (s, len) = cstring("h\u{e9}!\0x".as_bytes());
    assert_eq!(s, "h\u{e9}!");
    assert_eq!(len, 5);
}

#[test]
fn cstring_bytes_after_nul_do_not_matter() {
    assert_eq!(cstring(b"abc\0"), cstring(b"abc\0def\0ghi"));
}

#[test]
fn leb128_unsigned_empty_input() {
    assert_eq!(leb128_unsigned(&[]), (0, 0));
}

#[test]
fn leb128_unsigned_unterminated_consumes_all() {
    assert_eq!(leb128_unsigned(&[0x81, 0x82]), (1 + (2 << 7), 2));
}

#[test]
fn leb128_unsigned_ten_bytes_keeps_low_64_bits() {
    let data = [0xFF, 0xFF, 0xFF, 0xFF, 0xFF, 0xFF, 0xFF, 0xFF, 0xFF, 0x7F];
    assert_eq!(leb128_unsigned(&data), (u64::MAX, 10));
}

#[test]
fn leb128_unsigned_max_nine_bytes() {
    let data = [0xFF, 0xFF, 0xFF, 0xFF, 0xFF, 0xFF, 0xFF, 0xFF, 0x7F];
    assert_eq!(leb128_unsigned(&data), ((1u64 << 63) - 1, 9));
}

#[test]
fn leb128_unsigned_bytes_after_end_do_not_matter() {
    assert_eq!(leb128_unsigned(&[0xE5, 0x8E, 0x26]), leb128_unsigned(&[0xE5, 0x8E, 0x26, 0xFF, 0x01]));
}

#[test]
fn leb128_signed_empty_input() {
    assert_eq!(leb128_signed(&[]), (0, 0));
}

#[test]
fn leb128_signed_ten_bytes_no_sign_extension() {
    let data = [0xFF, 0xFF, 0xFF, 0xFF, 0xFF, 0xFF, 0xFF, 0xFF, 0xFF, 0x7F];
    assert_eq!(leb128_signed(&data), (-1, 10));
    let data = [0x80, 0x80, 0x80, 0x80, 0x80, 0x80, 0x80, 0x80, 0x80, 0x7E];
    assert_eq!(leb128_signed(&data), (0, 10));
    let data = [0x80, 0x80, 0x80, 0x80, 0x80, 0x80, 0x80, 0x80, 0x80, 0x01];
    assert_eq!(leb128_signed(&data), (i64::MIN, 10));
}

#[test]
fn leb128_signed_nine_bytes_sign_extends_from_bit_62() {
    let data = [0x80, 0x80, 0x80, 0x80, 0x80, 0x80, 0x80, 0x80, 0x40];
    assert_eq!(leb128_signed(&data), (-(1i64 << 62), 9));
    let data = [0xFF, 0xFF, 0xFF, 0xFF, 0xFF, 0xFF, 0xFF, 0xFF, 0x3F];
    assert_eq!(leb128_signed(&data), ((1i64 << 62) - 1, 9));
}

#[test]
fn leb128_signed_unterminated_sign_extends_last_byte() {
    assert_eq!(leb128_signed(&[0xC0]), (-64, 1));
}

#[test]
fn leb128_signed_minus_128() {
    assert_eq!(leb128_signed(&[0x80, 0x7F]), (-128, 2));
}

#[test]
fn leb128_signed_matches_unsigned_when_sign_clear() {
    let data = [0xE5, 0x8E, 0x26];
    assert_eq!(leb128_signed(&data).0, leb128_unsigned(&data).0 as i64);
    let data = [0xC0, 0xBB, 0x78];
    assert_eq!(leb128_signed(&data).0, leb128_unsigned(&data).0 as i64 - (1i64 << 21));
}

#[test]
fn leb128_overlong_stops_after_ten_bytes() {
    let data = [0xFFu8; 12];
    assert_eq!(leb128_unsigned(&data), (u64::MAX, 10));
    assert_eq!(leb128_signed(&data), (-1, 10));
    let data = [0x80u8; 11];
    assert_eq!(leb128_unsigned(&data), (0, 10));
    assert_eq!(leb128_signed(&data), (0, 10));
}

fn encode_unsigned(mut v: u64) -> Vec<u8> {
    let mut out = Vec::new();
    loop {
        let low = (v & 0x7F) as u8;
        v >>= 7;
        if v == 0 {
            out.push(low);
            return out;
        }
        out.push(low | 0x80);
    }
}

fn encode_signed(mut v: i64) -> Vec<u8> {
    let mut out = Vec::new();
    loop {
        let low = (v & 0x7F) as u8;
        v >>= 7;
        if (v == 0 && low & 0x40 == 0) || (v == -1 && low & 0x40 != 0) {
            out.push(low);
            return out;
        }
        out.push(low | 0x80);
    }
}

#[test]
fn leb128_unsigned_round_trips() {
    for v in [0u64, 1, 127, 128, 300, 624485, 1 << 63, u64::MAX - 1, u64::MAX] {
        let mut e = encode_unsigned(v);
        let n = e.len();
        e.extend_from_slice(&[0xFF, 0x00]);
        assert_eq!(leb128_unsigned(&e), (v, n));
    }
}

#[test]
fn leb128_signed_round_trips() {
    for v in [0i64, 1, -1, 63, 64, -64, -65, 57, -123456, i64::MAX, i64::MIN, i64::MIN + 1] {
        let mut e = encode_signed(v);
        let n = e.len();
        assert!(n <= 10);
        e.extend_from_slice(&[0xFF, 0x00]);
        assert_eq!(leb128_signed(&e), (v, n));
    }
}

#[test]
fn cstring_text_round_trips() {
    for text in ["", "plain", "h\u{e9}llo w\u{f6}rld", "\u{1F600} emoji"] {
        let mut bytes = text.as_bytes().to_vec();
        assert_eq!(cstring(&bytes), (text.to_string(), bytes.len()));
        bytes.push(0);
        bytes.extend_from_slice(b"rest\0");
        assert_eq!(cstring(&bytes), (text.to_string(), text.len() + 1));
    }
}
