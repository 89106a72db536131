//! Consuming hooks shared by generated parsers: NUL-terminated strings and
//! LEB128 variable-length integers.
use vstd::prelude::*;

use vstd::arithmetic::div_mod::{lemma_mod_multiples_vanish, lemma_small_mod};
use vstd::arithmetic::mul::lemma_mul_inequality;
use vstd::arithmetic::power2::{
    lemma2_to64, lemma2_to64_rest, lemma_pow2_adds, lemma_pow2_pos, lemma_pow2_strictly_increases, pow2,
};
use vstd::bits::{lemma_u64_pow2_no_overflow, lemma_u64_shl_is_mul};
use vstd::slice::slice_subrange;
use vstd::utf8::{
    decode_utf8, encode_scalar, encode_utf8, encode_utf8_decode_utf8, encode_utf8_valid_utf8, is_ascii_chars,
    is_ascii_chars_encode_utf8, valid_utf8,
};

verus! {

// ---------------------------------------------------------------------------
// LEB128 model
// ---------------------------------------------------------------------------

/// Whether a LEB128 byte announces that another byte follows.
pub open spec fn has_continuation(b: u8) -> bool {
    b >= 0x80
}

/// The seven payload bits of a LEB128 byte.
pub open spec fn payload(b: u8) -> nat {
    (b % 128) as nat
}

/// The number of bytes of the run at the start of `s` that makes up a LEB128
/// encoding: up to and including the first byte without continuation bit,
/// or all of `s` when no byte ends it.
pub open spec fn leb128_run(s: Seq<u8>) -> nat
    decreases s.len(),
{
    if s.len() == 0 {
        0
    } else if !has_continuation(s[0]) {
        1
    } else {
        1 + leb128_run(s.drop_first())
    }
}

/// The most bytes a decode reads: ten groups of seven bits cover 64 bits.
pub open spec fn leb128_max_len() -> nat {
    10
}

/// The number of bytes a LEB128 decode consumes from the start of `s`: its
/// run, but at most ten bytes; an over-long run is cut after its tenth byte.
pub open spec fn leb128_len(s: Seq<u8>) -> nat {
    if leb128_run(s) > leb128_max_len() {
        leb128_max_len()
    } else {
        leb128_run(s)
    }
}

/// The payloads of the first `n` bytes of `s` read as a little-endian
/// base-128 number.
pub open spec fn leb128_digits(s: Seq<u8>, n: nat) -> nat
    decreases n,
{
    if n == 0 {
        0
    } else {
        leb128_digits(s, (n - 1) as nat) + payload(s[n - 1]) * pow2(7 * (n - 1) as nat)
    }
}

/// The unsigned value decoded from the start of `s`: the LEB128 number,
/// truncated to its low 64 bits.
pub open spec fn leb128_unsigned_value(s: Seq<u8>) -> nat {
    leb128_digits(s, leb128_len(s)) % pow2(64)
}

/// The two's-complement reading of the low `width` bits `v`.
pub open spec fn twos_complement(v: nat, width: nat) -> int {
    if width == 0 {
        0
    } else if v >= pow2((width - 1) as nat) {
        v - pow2(width)
    } else {
        v as int
    }
}

/// The number of value bits a signed decode keeps from an encoding of `n`
/// bytes: seven per byte, at most 64.
pub open spec fn leb128_signed_width(n: nat) -> nat {
    if 7 * n < 64 {
        7 * n
    } else {
        64
    }
}

/// The signed value decoded from the start of `s`: the low
/// `leb128_signed_width` bits of the LEB128 number, read in two's complement.
pub open spec fn leb128_signed_value(s: Seq<u8>) -> int {
    let n = leb128_len(s);
    let w = leb128_signed_width(n);
    twos_complement(leb128_digits(s, n) % pow2(w), w)
}

// ---------------------------------------------------------------------------
// LEB128 lemmas
// ---------------------------------------------------------------------------

/// `leb128_run` is the index after the first byte without continuation bit.
proof fn lemma_leb128_len_at(s: Seq<u8>, k: int)
    requires
        0 <= k < s.len(),
        forall|j: int| 0 <= j < k ==> has_continuation(#[trigger] s[j]),
        !has_continuation(s[k]),
    ensures
        leb128_run(s) == k + 1,
    decreases k,
{
    if k > 0 {
        assert forall|j: int| 0 <= j < k - 1 implies has_continuation(
            #[trigger] s.drop_first()[j],
        ) by {
            assert(s.drop_first()[j] == s[j + 1]);
        }
        lemma_leb128_len_at(s.drop_first(), k - 1);
    }
}

/// When the first `k` bytes all continue, the run holds at least `k` bytes.
proof fn lemma_leb128_run_at_least(s: Seq<u8>, k: int)
    requires
        0 <= k <= s.len(),
        forall|j: int| 0 <= j < k ==> has_continuation(#[trigger] s[j]),
    ensures
        leb128_run(s) >= k,
        k == s.len() ==> leb128_run(s) == s.len(),
    decreases k,
{
    if k > 0 {
        assert forall|j: int| 0 <= j < k - 1 implies has_continuation(
            #[trigger] s.drop_first()[j],
        ) by {
            assert(s.drop_first()[j] == s[j + 1]);
        }
        lemma_leb128_run_at_least(s.drop_first(), k - 1);
    }
}

/// The shape of a LEB128 run: it never passes its input and is empty only
/// for empty input; every byte but its last continues, and its last byte
/// ends it unless the input ran out.
proof fn lemma_leb128_run_shape(s: Seq<u8>)
    ensures
        leb128_run(s) <= s.len(),
        s.len() > 0 ==> leb128_run(s) > 0,
        forall|j: int| 0 <= j < leb128_run(s) - 1 ==> has_continuation(#[trigger] s[j]),
        0 < leb128_run(s) < s.len() ==> !has_continuation(s[leb128_run(s) - 1]),
    decreases s.len(),
{
    if s.len() > 0 && has_continuation(s[0]) {
        lemma_leb128_run_shape(s.drop_first());
        assert forall|j: int| 0 <= j < leb128_run(s) - 1 implies has_continuation(
            #[trigger] s[j],
        ) by {
            if j > 0 {
                assert(s[j] == s.drop_first()[j - 1]);
            }
        }
        if 0 < leb128_run(s) < s.len() {
            assert(s[leb128_run(s) - 1] == s.drop_first()[leb128_run(s.drop_first()) - 1]);
        }
    }
}

/// Adding a payload below the bits already filled: for shifts up to 56 the
/// bitwise or is a sum, and the sum stays below the next seven-bit boundary.
proof fn lemma_accumulate_low(r: u64, c: u64, s: u64)
    requires
        s <= 56,
        r < pow2(s as nat),
        c < 128,
    ensures
        r | (c << s) == r + c * pow2(s as nat),
        r + c * pow2(s as nat) < pow2((s + 7) as nat),
{
    lemma2_to64();
    lemma_pow2_pos(s as nat);
    lemma_pow2_adds(s as nat, 7);
    lemma_mul_inequality(c as int, 127, pow2(s as nat) as int);
    lemma_u64_pow2_no_overflow((s + 7) as nat);
    lemma_u64_shl_is_mul(c, s);
    lemma_u64_shl_is_mul(1, s);
    assert(r | (c << s) == r + (c << s)) by (bit_vector)
        requires
            r < (1u64 << s),
            c < 128,
            s <= 56,
    ;
}

/// Adding the tenth payload: only its lowest bit lands in the 64-bit result.
proof fn lemma_accumulate_top(r: u64, c: u64)
    requires
        r < pow2(63),
        c < 128,
    ensures
        r | (c << 63u64) == (r + c * pow2(63)) % (pow2(64) as int),
{
    lemma2_to64();
    lemma2_to64_rest();
    assert(r | (c << 63u64) == r + (c % 2) * 0x8000_0000_0000_0000u64) by (bit_vector)
        requires
            r < 0x8000_0000_0000_0000u64,
            c < 128,
    ;
    let low: int = r + (c % 2) * 0x8000_0000_0000_0000int;
    assert(c * 0x8000_0000_0000_0000int == (c / 2) * 0x1_0000_0000_0000_0000int + (c % 2)
        * 0x8000_0000_0000_0000int) by (nonlinear_arith);
    lemma_mod_multiples_vanish((c / 2) as int, low, 0x1_0000_0000_0000_0000int);
    lemma_small_mod(low as nat, 0x1_0000_0000_0000_0000nat);
}

/// The shape of the encoding a LEB128 decode consumes: it never runs past
/// its input, holds at most ten bytes, and is empty only for empty input;
/// every byte but its last carries a continuation bit, and its last byte ends
/// it unless the input ran out or ten bytes were read.
pub proof fn lemma_leb128_len_shape(s: Seq<u8>)
    ensures
        leb128_len(s) <= s.len(),
        leb128_len(s) <= leb128_max_len(),
        s.len() > 0 ==> leb128_len(s) > 0,
        forall|j: int| 0 <= j < leb128_len(s) - 1 ==> has_continuation(#[trigger] s[j]),
        0 < leb128_len(s) < s.len() && leb128_len(s) < leb128_max_len() ==> !has_continuation(
            s[leb128_len(s) - 1],
        ),
{
    lemma_leb128_run_shape(s);
}

/// The payloads of `n` bytes fill at most `7 * n` bits.
pub proof fn lemma_leb128_digits_bound(s: Seq<u8>, n: nat)
    ensures
        leb128_digits(s, n) < pow2(7 * n),
    decreases n,
{
    lemma2_to64();
    if n == 0 {
    } else {
        let k = (n - 1) as nat;
        lemma_leb128_digits_bound(s, k);
        lemma_pow2_adds(7 * k, 7);
        lemma_mul_inequality(payload(s[k as int]) as int, 127, pow2(7 * k) as int);
    }
}

/// For one to nine bytes, the top kept bit of the number is bit 6 of the
/// last byte.
proof fn lemma_leb128_sign_bit(s: Seq<u8>, n: nat)
    requires
        1 <= n <= 9,
        n <= s.len(),
    ensures
        leb128_digits(s, n) >= pow2((7 * n - 1) as nat) <==> payload(s[n - 1]) >= 64,
{
    lemma2_to64();
    let k = (n - 1) as nat;
    let p = payload(s[k as int]) as int;
    let base = pow2(7 * k) as int;
    lemma_leb128_digits_bound(s, k);
    lemma_pow2_adds(7 * k, 6);
    lemma_pow2_pos(7 * k);
    assert(7 * k + 6 == 7 * n - 1);
    if p >= 64 {
        lemma_mul_inequality(64, p, base);
    } else {
        lemma_mul_inequality(p, 63, base);
    }
}

// ---------------------------------------------------------------------------
// LEB128 decoders
// ---------------------------------------------------------------------------

/// Decodes an unsigned LEB128 integer from the start of `data`.
///
/// Returns the value (truncated to 64 bits) and the number of bytes
/// consumed. An empty input decodes to `(0, 0)`; an input without a final
/// byte consumes everything; at most ten bytes are read, so an over-long
/// encoding stops after its tenth byte.
pub fn leb128_unsigned(data: &[u8]) -> (res: (u64, usize))
    ensures
        res.1 == leb128_len(data@),
        res.0 == leb128_unsigned_value(data@),
{
    let mut result: u64 = 0;
    let mut shift: u64 = 0;
    let mut consumed: usize = 0;
    proof {
        lemma2_to64();
    }
    while consumed < data.len() && consumed < 10
        invariant
            consumed <= data.len(),
            consumed <= 10,
            shift == 7 * consumed,
            forall|j: int| 0 <= j < consumed ==> has_continuation(#[trigger] data@[j]),
            result == leb128_digits(data@, consumed as nat) % pow2(64),
            consumed <= 9 ==> leb128_digits(data@, consumed as nat) < pow2(7 * consumed as nat),
        decreases data.len() - consumed,
    {
        let byte = data[consumed];
        let chunk = (byte & 0x7F) as u64;
        assert(chunk == payload(byte)) by {
            assert(byte & 0x7F == byte % 128) by (bit_vector);
        }
        let ghost d = leb128_digits(data@, consumed as nat);
        proof {
            lemma2_to64_rest();
            lemma_pow2_pos(64);
            if consumed <= 8 {
                lemma_u64_pow2_no_overflow(7 * consumed as nat);
                lemma_small_mod(d, pow2(64));
                lemma_accumulate_low(result, chunk, shift);
                lemma_u64_pow2_no_overflow((7 * consumed + 7) as nat);
                lemma_small_mod((d + chunk * pow2(shift as nat)) as nat, pow2(64));
            } else {
                lemma_small_mod(d, pow2(64));
                lemma_accumulate_top(result, chunk);
            }
        }
        result = result | (chunk << shift);
        consumed += 1;
        if byte & 0x80 == 0 {
            proof {
                assert(!has_continuation(byte)) by {
                    assert(byte & 0x80 == 0 ==> byte < 0x80) by (bit_vector);
                }
                lemma_leb128_len_at(data@, consumed - 1);
            }
            return (result, consumed);
        }
        assert(has_continuation(byte)) by {
            assert(byte & 0x80 != 0 ==> byte >= 0x80) by (bit_vector);
        }
        shift += 7;
    }
    proof {
        lemma_leb128_run_at_least(data@, consumed as int);
    }
    (result, consumed)
}

/// Decodes a signed LEB128 integer from the start of `data`.
///
/// Returns the value and the number of bytes consumed. When the encoding
/// holds fewer than 64 value bits, bit 6 of its last byte is the sign and is
/// extended; an empty input decodes to `(0, 0)`. At most ten bytes are read,
/// so an over-long encoding stops after its tenth byte.
pub fn leb128_signed(data: &[u8]) -> (res: (i64, usize))
    ensures
        res.1 == leb128_len(data@),
        res.0 == leb128_signed_value(data@),
{
    let (raw, consumed) = leb128_unsigned(data);
    let ghost n = consumed as nat;
    let ghost d = leb128_digits(data@, n);
    proof {
        lemma2_to64();
        lemma2_to64_rest();
        lemma_leb128_len_shape(data@);
        lemma_leb128_digits_bound(data@, n);
    }
    if consumed == 0 {
        return (0, 0);
    }
    if consumed < 10 {
        let shift = 7 * consumed as u64;
        proof {
            lemma_u64_pow2_no_overflow(7 * n);
            lemma_small_mod(d, pow2(64));
            lemma_u64_pow2_no_overflow(63);
            if n < 9 {
                lemma_pow2_strictly_increases(7 * n, 63);
            }
            lemma_leb128_sign_bit(data@, n);
            lemma_pow2_pos(7 * n);
            lemma_small_mod(d, pow2(7 * n));
            assert(leb128_signed_width(n) == 7 * n);
        }
        let last = data[consumed - 1];
        assert((last & 0x40 != 0) == (payload(last) >= 64)) by {
            assert((last & 0x40 != 0) == (last % 128 >= 64)) by (bit_vector);
        }
        if last & 0x40 != 0 {
            proof {
                lemma_u64_shl_is_mul(1, shift);
            }
            let value = (raw as i128) - ((1u64 << shift) as i128);
            (value as i64, consumed)
        } else {
            (raw as i64, consumed)
        }
    } else if raw >= 0x8000_0000_0000_0000u64 {
        assert(leb128_signed_width(n) == 64);
        let value = (raw as i128) - 0x1_0000_0000_0000_0000i128;
        (value as i64, consumed)
    } else {
        (raw as i64, consumed)
    }
}

// ---------------------------------------------------------------------------
// NUL-terminated strings
// ---------------------------------------------------------------------------

/// The index of the first NUL byte of `s`, or `s.len()` when it holds none.
pub open spec fn nul_position(s: Seq<u8>) -> nat
    decreases s.len(),
{
    if s.len() == 0 {
        0
    } else if s[0] == 0 {
        0
    } else {
        1 + nul_position(s.drop_first())
    }
}

/// The bytes a C string occupies at the start of `s`: its content and the
/// NUL after it, or all of `s` when no NUL ends it.
pub open spec fn cstring_len(s: Seq<u8>) -> nat {
    if nul_position(s) < s.len() {
        nul_position(s) + 1
    } else {
        nul_position(s)
    }
}

/// The text std's lossy UTF-8 decoding makes of `bytes`: valid sequences
/// decoded, each invalid one replaced by U+FFFD.
pub uninterp spec fn utf8_lossy(bytes: Seq<u8>) -> Seq<char>;

/// Calls std's `String::from_utf8_lossy` and takes the result as an owned
/// `String`. Claimed: the result is `utf8_lossy` of the bytes, and for valid
/// UTF-8 it is exactly their decoding (std documents that valid input is
/// returned unchanged). What it makes of invalid input is left to the name.
#[verifier::external_body]
fn from_utf8_lossy(bytes: &[u8]) -> (s: String)
    ensures
        s@ == utf8_lossy(bytes@),
        valid_utf8(bytes@) ==> s@ == decode_utf8(bytes@),
{
    String::from_utf8_lossy(bytes).into_owned()
}

/// `nul_position` is the first index that holds a NUL, or the length.
proof fn lemma_nul_position_at(s: Seq<u8>, k: int)
    requires
        0 <= k <= s.len(),
        forall|j: int| 0 <= j < k ==> #[trigger] s[j] != 0,
        k == s.len() || s[k] == 0,
    ensures
        nul_position(s) == k,
    decreases k,
{
    if k > 0 {
        assert forall|j: int| 0 <= j < k - 1 implies #[trigger] s.drop_first()[j] != 0 by {
            assert(s.drop_first()[j] == s[j + 1]);
        }
        lemma_nul_position_at(s.drop_first(), k - 1);
    }
}

/// Reads a NUL-terminated string from the start of `data`.
///
/// Returns the text before the first NUL (decoded as lossy UTF-8) and the
/// number of bytes consumed, which counts the NUL when there is one.
pub fn cstring(data: &[u8]) -> (res: (String, usize))
    ensures
        res.0@ == utf8_lossy(data@.take(nul_position(data@) as int)),
        valid_utf8(data@.take(nul_position(data@) as int)) ==> res.0@ == decode_utf8(
            data@.take(nul_position(data@) as int),
        ),
        res.1 == cstring_len(data@),
{
    let mut end: usize = 0;
    while end < data.len() && data[end] != 0
        invariant
            end <= data.len(),
            forall|j: int| 0 <= j < end ==> #[trigger] data@[j] != 0,
        decreases data.len() - end,
    {
        end += 1;
    }
    proof {
        lemma_nul_position_at(data@, end as int);
    }
    let s = from_utf8_lossy(slice_subrange(data, 0, end));
    let consumed = if end < data.len() {
        end + 1
    } else {
        end
    };
    (s, consumed)
}

// ---------------------------------------------------------------------------
// Laws
// ---------------------------------------------------------------------------

/// Whether `s` starts with a complete LEB128 encoding, one whose last byte
/// has no continuation bit.
pub open spec fn leb128_terminated(s: Seq<u8>) -> bool {
    leb128_len(s) > 0 && !has_continuation(s[leb128_len(s) - 1])
}

/// The payload number of a prefix does not depend on what follows it.
proof fn lemma_leb128_digits_prefix(s: Seq<u8>, t: Seq<u8>, n: nat)
    requires
        n <= s.len(),
    ensures
        leb128_digits(s + t, n) == leb128_digits(s, n),
    decreases n,
{
    if n > 0 {
        lemma_leb128_digits_prefix(s, t, (n - 1) as nat);
        assert((s + t)[n - 1] == s[n - 1]);
    }
}

/// Decoding a complete LEB128 encoding is not affected by the bytes after
/// it: the same bytes are consumed and the same unsigned and signed values
/// come out.
pub proof fn lemma_leb128_prefix_stable(s: Seq<u8>, t: Seq<u8>)
    requires
        leb128_terminated(s),
    ensures
        leb128_len(s + t) == leb128_len(s),
        leb128_unsigned_value(s + t) == leb128_unsigned_value(s),
        leb128_signed_value(s + t) == leb128_signed_value(s),
{
    let n = leb128_len(s);
    lemma_leb128_len_shape(s);
    assert forall|j: int| 0 <= j < n - 1 implies has_continuation(#[trigger] (s + t)[j]) by {
        assert((s + t)[j] == s[j]);
        assert(has_continuation(s[j]));
    }
    assert((s + t)[n - 1] == s[n - 1]);
    lemma_leb128_len_at(s + t, n - 1);
    lemma_leb128_digits_prefix(s, t, n);
}

/// An unsigned decode of at most nine bytes yields a value that fits in the
/// `7 * n` bits those bytes carry.
pub proof fn lemma_leb128_unsigned_fits(s: Seq<u8>)
    requires
        leb128_len(s) <= 9,
    ensures
        leb128_unsigned_value(s) < pow2(7 * leb128_len(s)),
        leb128_unsigned_value(s) == leb128_digits(s, leb128_len(s)),
{
    let n = leb128_len(s);
    lemma_leb128_digits_bound(s, n);
    lemma_pow2_pos(64);
    if n < 9 {
        lemma_pow2_strictly_increases(7 * n, 64);
    } else {
        lemma_pow2_strictly_increases(63, 64);
    }
    lemma_small_mod(leb128_digits(s, n), pow2(64));
}

/// The signed decode of one to nine bytes is the unsigned decode,
/// sign-extended from bit `7 * n - 1`: it is the unsigned value when bit 6
/// of the last byte is clear, and the unsigned value minus `2^(7n)` when it
/// is set.
pub proof fn lemma_leb128_signed_extends_unsigned(s: Seq<u8>)
    requires
        1 <= leb128_len(s) <= 9,
    ensures
        payload(s[leb128_len(s) - 1]) < 64 ==> leb128_signed_value(s) == leb128_unsigned_value(s),
        payload(s[leb128_len(s) - 1]) >= 64 ==> leb128_signed_value(s) == leb128_unsigned_value(s)
            - pow2(7 * leb128_len(s)),
{
    let n = leb128_len(s);
    lemma_leb128_len_shape(s);
    lemma_leb128_unsigned_fits(s);
    lemma_leb128_sign_bit(s, n);
    lemma_pow2_pos(7 * n);
    lemma_small_mod(leb128_digits(s, n), pow2(7 * n));
}

/// A C string read never runs past its input and is empty only for empty
/// input; its text ends where the bytes consumed end, or one byte before.
pub proof fn lemma_cstring_len_bounds(s: Seq<u8>)
    ensures
        nul_position(s) <= cstring_len(s) <= s.len(),
        cstring_len(s) == 0 <==> s.len() == 0,
        cstring_len(s) <= nul_position(s) + 1,
    decreases s.len(),
{
    if s.len() > 0 && s[0] != 0 {
        lemma_cstring_len_bounds(s.drop_first());
    }
}

/// Reading a NUL-terminated string is not affected by the bytes after its
/// NUL: the same text is read and the same bytes are consumed.
pub proof fn lemma_cstring_prefix_stable(s: Seq<u8>, t: Seq<u8>)
    requires
        nul_position(s) < s.len(),
    ensures
        nul_position(s + t) == nul_position(s),
        cstring_len(s + t) == cstring_len(s),
        (s + t).take(nul_position(s + t) as int) == s.take(nul_position(s) as int),
    decreases s.len(),
{
    if s[0] != 0 {
        lemma_cstring_prefix_stable(s.drop_first(), t);
        assert((s + t).drop_first() =~= s.drop_first() + t);
    }
    assert((s + t).take(nul_position(s) as int) =~= s.take(nul_position(s) as int));
}

/// ASCII bytes are valid UTF-8 and decode to the characters with the same
/// codes, so a C string of ASCII bytes is read verbatim.
pub proof fn lemma_ascii_decodes_verbatim(bytes: Seq<u8>)
    requires
        forall|i: int| 0 <= i < bytes.len() ==> #[trigger] bytes[i] < 0x80,
    ensures
        valid_utf8(bytes),
        decode_utf8(bytes) == bytes.map_values(|b: u8| b as char),
{
    let chars = bytes.map_values(|b: u8| b as char);
    assert(is_ascii_chars(chars));
    is_ascii_chars_encode_utf8(chars);
    assert forall|i: int| 0 <= i < chars.len() implies chars[i] as u8 == bytes[i] by {
        let b = bytes[i];
        assert((b as char) as u8 == b);
    }
    assert(encode_utf8(chars) =~= bytes);
    encode_utf8_valid_utf8(chars);
    encode_utf8_decode_utf8(chars);
}

// ---------------------------------------------------------------------------
// Round trips
// ---------------------------------------------------------------------------

/// The minimal unsigned LEB128 encoding of `v`: its 7-bit groups, least
/// significant first, with the continuation bit on every byte but the last.
pub open spec fn leb128_encode_unsigned(v: nat) -> Seq<u8>
    decreases v,
{
    if v < 128 {
        seq![v as u8]
    } else {
        seq![(v % 128 + 128) as u8] + leb128_encode_unsigned(v / 128)
    }
}

/// Putting a byte in front of a sequence shifts its payload number by seven
/// bits.
proof fn lemma_leb128_digits_prepend(b: u8, s: Seq<u8>, n: nat)
    requires
        n <= s.len(),
    ensures
        leb128_digits(seq![b] + s, n + 1) == payload(b) + 128 * leb128_digits(s, n),
    decreases n,
{
    lemma2_to64();
    let bs = seq![b] + s;
    if n == 0 {
        assert(bs[0] == b);
        assert(leb128_digits(bs, 1) == leb128_digits(bs, 0) + payload(bs[0]) * pow2(0));
        assert(leb128_digits(bs, 1) == payload(b)) by (nonlinear_arith)
            requires
                leb128_digits(bs, 1) == 0 + payload(b) * pow2(0),
                pow2(0) == 1,
        ;
    } else {
        let k = (n - 1) as nat;
        lemma_leb128_digits_prepend(b, s, k);
        assert(bs[n as int] == s[k as int]);
        lemma_pow2_adds(7 * k, 7);
        let p = payload(s[k as int]) as int;
        let q = pow2(7 * k) as int;
        let d = leb128_digits(s, k) as int;
        assert(leb128_digits(bs, n + 1) == leb128_digits(bs, n) + p * pow2(7 * n));
        assert(leb128_digits(s, n) == d + p * q);
        assert(pow2(7 * n) == q * 128);
        assert(p * (q * 128) == 128 * (p * q)) by (nonlinear_arith);
        assert(128 * (d + p * q) == 128 * d + 128 * (p * q)) by (nonlinear_arith);
    }
}

/// The shape and value of a minimal unsigned encoding.
proof fn lemma_leb128_encode_unsigned(v: nat, k: nat)
    requires
        k >= 1,
    ensures
        leb128_encode_unsigned(v).len() >= 1,
        forall|j: int|
            0 <= j < leb128_encode_unsigned(v).len() - 1 ==> has_continuation(
                #[trigger] leb128_encode_unsigned(v)[j],
            ),
        !has_continuation(leb128_encode_unsigned(v).last()),
        leb128_digits(leb128_encode_unsigned(v), leb128_encode_unsigned(v).len()) == v,
        v < pow2(7 * k) ==> leb128_encode_unsigned(v).len() <= k,
    decreases v,
{
    lemma2_to64();
    let e = leb128_encode_unsigned(v);
    if v < 128 {
        assert(e[0] == v as u8);
        assert(leb128_digits(e, 1) == leb128_digits(e, 0) + payload(e[0]) * pow2(0));
        assert(leb128_digits(e, 1) == v) by (nonlinear_arith)
            requires
                leb128_digits(e, 1) == 0 + payload(e[0]) * pow2(0),
                pow2(0) == 1,
                payload(e[0]) == v,
        ;
    } else {
        let b = (v % 128 + 128) as u8;
        let rest = leb128_encode_unsigned(v / 128);
        if k >= 2 {
            lemma_leb128_encode_unsigned(v / 128, (k - 1) as nat);
            lemma_pow2_adds(7 * (k - 1) as nat, 7);
        } else {
            lemma_leb128_encode_unsigned(v / 128, 1);
        }
        assert(e == seq![b] + rest);
        assert forall|j: int| 0 <= j < e.len() - 1 implies has_continuation(#[trigger] e[j]) by {
            if j > 0 {
                assert(e[j] == rest[j - 1]);
            }
        }
        assert(e.last() == rest.last());
        lemma_leb128_digits_prepend(b, rest, rest.len());
        assert(payload(b) == v % 128);
        if k == 1 {
            assert(pow2(7) == 128);
        }
    }
}

/// Decoding the minimal unsigned encoding of a 64-bit value, followed by any
/// bytes, gives the value back and consumes exactly the encoding, which holds
/// at most ten bytes.
pub proof fn lemma_leb128_unsigned_round_trip(v: nat, t: Seq<u8>)
    requires
        v < pow2(64),
    ensures
        leb128_encode_unsigned(v).len() <= 10,
        leb128_len(leb128_encode_unsigned(v) + t) == leb128_encode_unsigned(v).len(),
        leb128_unsigned_value(leb128_encode_unsigned(v) + t) == v,
{
    let e = leb128_encode_unsigned(v);
    lemma_pow2_strictly_increases(64, 70);
    lemma_leb128_encode_unsigned(v, 10);
    lemma_leb128_len_at(e, e.len() - 1);
    assert(leb128_terminated(e));
    lemma_leb128_prefix_stable(e, t);
    lemma_small_mod(v, pow2(64));
}

/// Whether the 7-bit group `low` ends the minimal signed encoding of a value
/// whose higher groups are `rest`: the rest is all sign, matching bit 6.
pub open spec fn leb128_signed_group_ends(low: int, rest: int) -> bool {
    (rest == 0 && low < 64) || (rest == -1 && low >= 64)
}

/// The minimal signed LEB128 encoding of `v`: its 7-bit groups, least
/// significant first (an arithmetic shift), ending with the group after which
/// only sign bits that agree with its bit 6 remain; the continuation bit is
/// set on every byte but the last.
pub open spec fn leb128_encode_signed(v: int) -> Seq<u8>
    decreases (if v >= 0 { v } else { -v }),
{
    let low = v % 128;
    let rest = v / 128;
    if leb128_signed_group_ends(low, rest) {
        seq![low as u8]
    } else {
        seq![(low + 128) as u8] + leb128_encode_signed(rest)
    }
}

/// The shape and value of a minimal signed encoding of `n` bytes: the value
/// lies in the `7n`-bit two's-complement range, and the payload number is
/// the value, plus `2^(7n)` when it is negative.
proof fn lemma_leb128_encode_signed(v: int, k: nat)
    requires
        k >= 1,
    ensures
        leb128_encode_signed(v).len() >= 1,
        forall|j: int|
            0 <= j < leb128_encode_signed(v).len() - 1 ==> has_continuation(
                #[trigger] leb128_encode_signed(v)[j],
            ),
        !has_continuation(leb128_encode_signed(v).last()),
        -pow2((7 * leb128_encode_signed(v).len() - 1) as nat) <= v,
        v < pow2((7 * leb128_encode_signed(v).len() - 1) as nat),
        leb128_digits(leb128_encode_signed(v), leb128_encode_signed(v).len()) == if v >= 0 {
            v
        } else {
            v + pow2(7 * leb128_encode_signed(v).len())
        },
        -pow2((7 * k - 1) as nat) <= v < pow2((7 * k - 1) as nat) ==> leb128_encode_signed(v).len()
            <= k,
    decreases (if v >= 0 { v } else { -v }),
{
    lemma2_to64();
    let e = leb128_encode_signed(v);
    let low = v % 128;
    let rest = v / 128;
    lemma_pow2_adds((7 * k - 7) as nat, 6);
    if leb128_signed_group_ends(low, rest) {
        assert(e[0] == low as u8);
        assert(payload(e[0]) == low);
        assert(leb128_digits(e, 1) == leb128_digits(e, 0) + payload(e[0]) * pow2(0));
        assert(leb128_digits(e, 1) == low) by (nonlinear_arith)
            requires
                leb128_digits(e, 1) == 0 + payload(e[0]) * pow2(0),
                pow2(0) == 1,
                payload(e[0]) == low,
        ;
        lemma_pow2_pos((7 * k - 7) as nat);
        if k > 1 {
            lemma_pow2_strictly_increases(6, (7 * k - 1) as nat);
        }
    } else {
        let b = (low + 128) as u8;
        let tail = leb128_encode_signed(rest);
        let m = tail.len();
        if k >= 2 {
            lemma_leb128_encode_signed(rest, (k - 1) as nat);
            lemma_pow2_adds((7 * k - 8) as nat, 7);
            assert((7 * (k - 1) - 1) as nat == (7 * k - 8) as nat);
        } else {
            lemma_leb128_encode_signed(rest, 1);
        }
        assert(e == seq![b] + tail);
        assert forall|j: int| 0 <= j < e.len() - 1 implies has_continuation(#[trigger] e[j]) by {
            if j > 0 {
                assert(e[j] == tail[j - 1]);
            }
        }
        assert(e.last() == tail.last());
        lemma_leb128_digits_prepend(b, tail, m);
        assert(payload(b) == low);
        let n = m + 1;
        lemma_pow2_adds((7 * m - 1) as nat, 7);
        lemma_pow2_adds(7 * m, 7);
        assert(pow2((7 * n - 1) as nat) == pow2((7 * m - 1) as nat) * 128);
        assert(pow2(7 * n) == pow2(7 * m) * 128);
        if k == 1 {
            assert(pow2(6) == 64);
        }
    }
}

/// Decoding the minimal signed encoding of a 64-bit value, followed by any
/// bytes, gives the value back and consumes exactly the encoding, which holds
/// at most ten bytes.
pub proof fn lemma_leb128_signed_round_trip(v: int, t: Seq<u8>)
    requires
        -pow2(63) <= v < pow2(63),
    ensures
        leb128_encode_signed(v).len() <= 10,
        leb128_len(leb128_encode_signed(v) + t) == leb128_encode_signed(v).len(),
        leb128_signed_value(leb128_encode_signed(v) + t) == v,
{
    lemma2_to64();
    lemma2_to64_rest();
    let e = leb128_encode_signed(v);
    let n = e.len();
    lemma_pow2_strictly_increases(63, 69);
    lemma_leb128_encode_signed(v, 10);
    lemma_leb128_len_at(e, n - 1);
    assert(leb128_terminated(e));
    lemma_leb128_prefix_stable(e, t);
    let d = leb128_digits(e, n);
    if n <= 9 {
        assert(leb128_signed_width(n) == 7 * n);
        lemma_pow2_adds((7 * n - 1) as nat, 1);
        lemma_small_mod(d, pow2(7 * n));
    } else {
        assert(leb128_signed_width(n) == 64);
        lemma_pow2_adds(64, 6);
        if v >= 0 {
            lemma_small_mod(d, pow2(64));
        } else {
            let r = (v + pow2(64)) as nat;
            lemma_mod_multiples_vanish(64, r as int, pow2(64) as int);
            lemma_small_mod(r, pow2(64));
        }
    }
}

/// A character other than NUL encodes to bytes none of which is zero.
proof fn lemma_encode_scalar_nonzero(c: u32)
    requires
        c != 0,
    ensures
        forall|i: int| 0 <= i < encode_scalar(c).len() ==> #[trigger] encode_scalar(c)[i] != 0,
{
    let e = encode_scalar(c);
    assert(c != 0 && c <= 0x7F ==> (c & 0x7F) as u8 != 0) by (bit_vector);
    assert(forall|x: u32| #![auto] (0xC0u8 | ((x >> 6) & 0x1F) as u8) != 0) by (bit_vector);
    assert(forall|x: u32| #![auto] (0xE0u8 | ((x >> 12) & 0x0F) as u8) != 0) by (bit_vector);
    assert(forall|x: u32| #![auto] (0xF0u8 | ((x >> 18) & 0x7) as u8) != 0) by (bit_vector);
    assert(forall|x: u32| #![auto] (0x80u8 | (x & 0x3F) as u8) != 0) by (bit_vector);
    assert(forall|x: u32| #![auto] (0x80u8 | ((x >> 6) & 0x3F) as u8) != 0) by (bit_vector);
    assert(forall|x: u32| #![auto] (0x80u8 | ((x >> 12) & 0x3F) as u8) != 0) by (bit_vector);
}

/// Text without NUL characters (code 0) encodes to UTF-8 bytes none of which is zero.
proof fn lemma_encode_utf8_nonzero(text: Seq<char>)
    requires
        forall|i: int| 0 <= i < text.len() ==> (#[trigger] text[i]) as u32 != 0,
    ensures
        forall|i: int| 0 <= i < encode_utf8(text).len() ==> #[trigger] encode_utf8(text)[i] != 0,
    decreases text.len(),
{
    if text.len() > 0 {
        let head = encode_scalar(text[0] as u32);
        let tail = encode_utf8(text.drop_first());
        lemma_encode_scalar_nonzero(text[0] as u32);
        assert forall|i: int| 0 <= i < text.drop_first().len() implies (
            #[trigger] text.drop_first()[i]) as u32 != 0 by {
            assert(text.drop_first()[i] == text[i + 1]);
        }
        lemma_encode_utf8_nonzero(text.drop_first());
        assert forall|i: int| 0 <= i < encode_utf8(text).len() implies #[trigger] encode_utf8(
            text,
        )[i] != 0 by {
            if i < head.len() {
                assert(encode_utf8(text)[i] == head[i]);
            } else {
                assert(encode_utf8(text)[i] == tail[i - head.len()]);
            }
        }
    }
}

/// Text without NUL characters, written as UTF-8 and ended by a NUL, is read
/// back unchanged by `cstring`, whatever follows; written without the NUL it
/// is read back unchanged too.
pub proof fn lemma_cstring_text_round_trip(text: Seq<char>, rest: Seq<u8>)
    requires
        forall|i: int| 0 <= i < text.len() ==> (#[trigger] text[i]) as u32 != 0,
    ensures
        ({
            let bytes = encode_utf8(text);
            let framed = bytes + seq![0u8] + rest;
            &&& nul_position(framed) == bytes.len()
            &&& cstring_len(framed) == bytes.len() + 1
            &&& framed.take(nul_position(framed) as int) == bytes
            &&& nul_position(bytes) == bytes.len()
            &&& cstring_len(bytes) == bytes.len()
            &&& bytes.take(nul_position(bytes) as int) == bytes
            &&& valid_utf8(bytes)
            &&& decode_utf8(bytes) == text
        }),
{
    let bytes = encode_utf8(text);
    let framed = bytes + seq![0u8] + rest;
    lemma_encode_utf8_nonzero(text);
    assert forall|j: int| 0 <= j < bytes.len() implies #[trigger] framed[j] != 0 by {
        assert(framed[j] == bytes[j]);
    }
    assert(framed[bytes.len() as int] == 0);
    lemma_nul_position_at(framed, bytes.len() as int);
    lemma_nul_position_at(bytes, bytes.len() as int);
    assert(framed.take(bytes.len() as int) =~= bytes);
    assert(bytes.take(bytes.len() as int) =~= bytes);
    encode_utf8_valid_utf8(text);
    encode_utf8_decode_utf8(text);
}

} // verus!
