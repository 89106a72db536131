use binparse::protocols::hooks::dns_name;
use binparse::{HookContext, ParseError};

const MSG: [u8; 16] = [
    0xAB, 0xCD, 3, b'a', b'b', b'c', 2, b'd', b'e', 0, 0x00, 0x01, 0xC0, 0x02, 0x00, 0x1C,
];

fn ctx<'a>(msg: &'a [u8], offset: usize, field: &'static str) -> HookContext<'a> {
    HookContext { enclosing: msg, offset, field }
}

#[test]
fn dns_name_plain_labels() {
    let (labels, consumed) = dns_name(&MSG[2..], ctx(&MSG, 2, "DnsMsg.qname")).unwrap();
    assert_eq!(labels, vec![b"abc".to_vec(), b"de".to_vec()]);
    assert_eq!(consumed, 8);
}

#[test]
fn dns_name_pointer_consumes_two_bytes() {
    let (labels, consumed) = dns_name(&MSG[12..], ctx(&MSG, 12, "DnsMsg.aname")).unwrap();
    assert_eq!(labels, vec![b"abc".to_vec(), b"de".to_vec()]);
    assert_eq!(consumed, 2);
}

#[test]
fn dns_name_root_name() {
    let msg = [0u8];
    assert_eq!(dns_name(&msg, ctx(&msg, 0, "f")).unwrap(), (Vec::<Vec<u8>>::new(), 1));
}

#[test]
fn dns_name_labels_then_pointer() {
    // "x" followed by a pointer to "abc.de"
    let mut msg = MSG.to_vec();
    msg.extend_from_slice(&[1, b'x', 0xC0, 0x02]);
    let (labels, consumed) = dns_name(&msg[16..], ctx(&msg, 16, "f")).unwrap();
    assert_eq!(labels, vec![b"x".to_vec(), b"abc".to_vec(), b"de".to_vec()]);
    assert_eq!(consumed, 4);
}

#[test]
fn dns_name_pointer_loop_fails() {
    let mut looping = MSG;
    looping[12] = 0xC0;
    looping[13] = 12;
    assert_eq!(
        dns_name(&looping[12..], ctx(&looping, 12, "DnsMsg.aname")).unwrap_err(),
        ParseError::HookFailed { field: "DnsMsg.aname", reason: "too many DNS compression jumps" }
    );
}

#[test]
fn dns_name_eight_jumps_allowed_nine_rejected() {
    // A chain of pointers: byte 2k holds a pointer to 2k + 2, ending in a root name.
    let mut msg = Vec::new();
    for k in 0..8u8 {
        msg.extend_from_slice(&[0xC0, 2 * k + 2]);
    }
    msg.push(0);
    assert_eq!(dns_name(&msg, ctx(&msg, 0, "f")).unwrap(), (Vec::<Vec<u8>>::new(), 2));
    let mut longer = vec![0xC0, 2];
    for k in 0..8u8 {
        longer.extend_from_slice(&[0xC0, 2 * k + 4]);
    }
    longer.push(0);
    assert!(matches!(
        dns_name(&longer, ctx(&longer, 0, "f")),
        Err(ParseError::HookFailed { field: "f", .. })
    ));
}

#[test]
fn dns_name_dangling_pointer() {
    let mut dangling = MSG;
    dangling[13] = 200;
    assert_eq!(
        dns_name(&dangling[12..], ctx(&dangling, 12, "DnsMsg.aname")).unwrap_err(),
        ParseError::NotEnoughData { expected: 201, got: 16 }
    );
}

#[test]
fn dns_name_truncated_label() {
    let msg = [5u8, b'a', b'b'];
    assert_eq!(
        dns_name(&msg, ctx(&msg, 0, "f")).unwrap_err(),
        ParseError::NotEnoughData { expected: 6, got: 3 }
    );
}

#[test]
fn dns_name_truncated_pointer_and_empty() {
    let msg = [0xC0u8];
    assert_eq!(
        dns_name(&msg, ctx(&msg, 0, "f")).unwrap_err(),
        ParseError::NotEnoughData { expected: 2, got: 1 }
    );
    let msg = [3u8, b'a', b'b', b'c'];
    assert_eq!(
        dns_name(&msg, ctx(&msg, 0, "f")).unwrap_err(),
        ParseError::NotEnoughData { expected: 5, got: 4 }
    );
    assert_eq!(
        dns_name(&[], ctx(&[], 0, "f")).unwrap_err(),
        ParseError::NotEnoughData { expected: 1, got: 0 }
    );
}

#[test]
fn dns_name_ignores_its_own_data() {
    let (labels, consumed) = dns_name(&[0xFF, 0xFF], ctx(&MSG, 2, "f")).unwrap();
    assert_eq!(labels.len(), 2);
    assert_eq!(consumed, 8);
}

#[test]
fn dns_name_uncompressed_round_trip() {
    let labels: Vec<Vec<u8>> = vec![vec![0xFF, 0x00, b'x'], vec![b'a'; 63], vec![7]];
    let mut msg = vec![1u8, 2, 3];
    for l in &labels {
        msg.push(l.len() as u8);
        msg.extend_from_slice(l);
    }
    msg.push(0);
    let enc_len = msg.len() - 3;
    msg.extend_from_slice(&[0xC0, 0x00, 9]);
    assert_eq!(dns_name(&[], ctx(&msg, 3, "f")).unwrap(), (labels, enc_len));
}
