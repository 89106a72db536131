use binparse::Len;

#[test]
fn len_add_without_carry() {
    let a = Len { byte: 1, bit: 2 };
    let b = Len { byte: 3, bit: 4 };
    assert_eq!(a + b, Len { byte: 4, bit: 6 });
}

#[test]
fn len_add_with_carry() {
    let a = Len { byte: 1, bit: 5 };
    let b = Len { byte: 2, bit: 6 };
    assert_eq!(a + b, Len { byte: 4, bit: 3 });
}

#[test]
fn len_add_exact_byte_carry() {
    assert_eq!(Len { byte: 0, bit: 4 } + Len { byte: 0, bit: 4 }, Len { byte: 1, bit: 0 });
}

#[test]
fn len_default_is_zero() {
    assert_eq!(Len::default(), Len { byte: 0, bit: 0 });
    let a = Len { byte: 7, bit: 3 };
    assert_eq!(Len::default() + a, a);
    assert_eq!(a + Len::default(), a);
}

#[test]
fn len_add_commutes_and_associates() {
    let a = Len { byte: 1, bit: 7 };
    let b = Len { byte: 0, bit: 3 };
    let c = Len { byte: 5, bit: 6 };
    assert_eq!(a + b, b + a);
    assert_eq!((a + b) + c, a + (b + c));
}

#[test]
fn len_add_keeps_total_bits() {
    let a = Len { byte: 2, bit: 7 };
    let b = Len { byte: 3, bit: 7 };
    let s = a + b;
    assert_eq!(8 * s.byte + s.bit, (8 * 2 + 7) + (8 * 3 + 7));
    assert!(s.bit < 8);
}

#[test]
fn len_add_carries_only_once() {
    // Bits beyond a byte on both sides: a single byte is carried.
    assert_eq!(Len { byte: 0, bit: 10 } + Len { byte: 0, bit: 10 }, Len { byte: 1, bit: 12 });
}
