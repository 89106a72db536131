//! Protocol-specific consuming hooks referenced from the DSL specs.
use vstd::prelude::*;

use vstd::slice::{slice_subrange, slice_to_vec};

use crate::context::{HookContext, ParseError, ParseResult};

verus! {

/// A decoded DNS name as its raw labels (each label's bytes, no separator).
/// Labels are opaque octets on the wire (not guaranteed ASCII/UTF-8), so they
/// are returned verbatim.
pub type DnsLabels = Vec<Vec<u8>>;

/// The number of compression pointers a name may follow.
pub open spec fn max_dns_jumps() -> nat {
    8
}

/// How reading a DNS name ends.
pub enum NameOutcome {
    /// The name's labels, and the bytes it occupies at its start offset.
    Decoded(Seq<Seq<u8>>, int),
    /// The message ends before the byte at index `expected - 1`.
    Truncated(int),
    /// More compression pointers than `max_dns_jumps` were met.
    TooManyJumps,
}

/// Whether a length byte is a compression pointer (its two top bits set).
pub open spec fn is_pointer(b: u8) -> bool {
    b >= 0xC0
}

/// Reads a DNS name (RFC 1035 4.1.4) from position `pos` of `msg`, for a
/// field that starts at `start`, after `jumps` pointers, having collected
/// `labels`. `pointer_end` is the end of the first pointer met, relative to
/// `start`, once one has been met.
///
/// A zero byte ends the name; a pointer byte `0b11xxxxxx` and the byte after
/// it give the 14-bit offset to continue at; any other byte `n` is followed
/// by a label of `n` bytes. The bytes occupied are those up to the first
/// pointer or, with no pointer, up to the terminating zero.
pub open spec fn read_name(
    msg: Seq<u8>,
    start: int,
    pos: int,
    jumps: nat,
    pointer_end: Option<int>,
    labels: Seq<Seq<u8>>,
) -> NameOutcome
    decreases 9 - jumps, msg.len() - pos,
{
    if pos < 0 || pos >= msg.len() {
        NameOutcome::Truncated(pos + 1)
    } else if is_pointer(msg[pos]) {
        if pos + 1 >= msg.len() {
            NameOutcome::Truncated(pos + 2)
        } else if jumps + 1 > max_dns_jumps() {
            NameOutcome::TooManyJumps
        } else {
            let first_end = match pointer_end {
                Some(e) => e,
                None => pos + 2 - start,
            };
            let target = (msg[pos] - 0xC0) * 256 + msg[pos + 1];
            read_name(msg, start, target, jumps + 1, Some(first_end), labels)
        }
    } else if msg[pos] == 0 {
        let consumed = match pointer_end {
            Some(e) => e,
            None => pos + 1 - start,
        };
        NameOutcome::Decoded(labels, consumed)
    } else {
        let end = pos + 1 + msg[pos];
        if end > msg.len() {
            NameOutcome::Truncated(end)
        } else {
            read_name(msg, start, end, jumps, pointer_end, labels.push(msg.subrange(pos + 1, end)))
        }
    }
}

/// The outcome of reading the DNS name that starts at `offset` of `msg`.
pub open spec fn dns_name_outcome(msg: Seq<u8>, offset: int) -> NameOutcome {
    read_name(msg, offset, offset, 0, None, Seq::empty())
}

/// The contents of a list of labels.
pub open spec fn labels_view(labels: Seq<Vec<u8>>) -> Seq<Seq<u8>> {
    labels.map_values(|l: Vec<u8>| l@)
}

/// Decode a DNS name (RFC 1035 4.1.4), following compression pointers.
///
/// The returned `usize` is the number of bytes consumed from the field's
/// start (a pointer terminates consumption at the pointer itself); pointers
/// jump within the enclosing message via `ctx.enclosing`. The field's own
/// bytes `_data` are not read.
pub fn dns_name(_data: &[u8], ctx: HookContext<'_>) -> (res: ParseResult<(DnsLabels, usize)>)
    requires
        ctx.offset < usize::MAX,
        ctx.enclosing.len() <= usize::MAX - 257,
    ensures
        match dns_name_outcome(ctx.enclosing@, ctx.offset as int) {
            NameOutcome::Decoded(labels, consumed) => res matches Ok((l, c)) && labels_view(l@)
                == labels && c == consumed,
            NameOutcome::Truncated(expected) => res matches Err(
                ParseError::NotEnoughData { expected: e, got },
            ) && e == expected && got == ctx.enclosing.len() && e > got,
            NameOutcome::TooManyJumps => res matches Err(ParseError::HookFailed { field, reason })
                && field == ctx.field && reason@ == "too many DNS compression jumps"@,
        },
{
    let msg = ctx.enclosing;
    let mut labels: DnsLabels = Vec::new();
    let mut pos = ctx.offset;
    let mut consumed: Option<usize> = None;
    let mut jumps: usize = 0;
    let ghost outcome = dns_name_outcome(msg@, ctx.offset as int);
    proof {
        lemma_dns_name_bounds(msg@, ctx.offset as int);
        assert(labels_view(labels@) =~= Seq::<Seq<u8>>::empty());
    }
    loop
        invariant
            msg == ctx.enclosing,
            msg.len() <= usize::MAX - 257,
            pos < usize::MAX,
            jumps <= max_dns_jumps(),
            jumps == 0 ==> pos >= ctx.offset && consumed is None,
            consumed is None ==> jumps == 0,
            consumed matches Some(c) ==> c <= msg.len() + 2,
            read_name(
                msg@,
                ctx.offset as int,
                pos as int,
                jumps as nat,
                match consumed {
                    Some(c) => Some(c as int),
                    None => None,
                },
                labels_view(labels@),
            ) == outcome,
            outcome == dns_name_outcome(ctx.enclosing@, ctx.offset as int),
        decreases 9 - jumps, msg.len() - pos,
    {
        if pos >= msg.len() {
            return Err(ParseError::NotEnoughData { expected: pos + 1, got: msg.len() });
        }
        let len_byte = msg[pos];
        if len_byte >= 0xC0 {
            if pos + 1 >= msg.len() {
                return Err(ParseError::NotEnoughData { expected: pos + 2, got: msg.len() });
            }
            let second = msg[pos + 1];
            if consumed.is_none() {
                consumed = Some(pos + 2 - ctx.offset);
            }
            jumps += 1;
            if jumps > 8 {
                return Err(
                    ParseError::HookFailed {
                        field: ctx.field,
                        reason: "too many DNS compression jumps",
                    },
                );
            }
            pos = ((len_byte - 0xC0) as usize) * 256 + second as usize;
        } else if len_byte == 0 {
            let consumed = match consumed {
                Some(c) => c,
                None => pos + 1 - ctx.offset,
            };
            return Ok((labels, consumed));
        } else {
            let end = pos + 1 + len_byte as usize;
            if end > msg.len() {
                return Err(ParseError::NotEnoughData { expected: end, got: msg.len() });
            }
            let label = slice_to_vec(slice_subrange(msg, pos + 1, end));
            let ghost before = labels@;
            labels.push(label);
            proof {
                assert(labels_view(labels@) =~= labels_view(before).push(
                    msg@.subrange(pos + 1, end as int),
                ));
            }
            pos = end;
        }
    }
}

/// What a partial read of a name keeps: the bytes consumed so far stay inside
/// the message, and the outcome respects the same bounds.
proof fn lemma_read_name_bounds(
    msg: Seq<u8>,
    start: int,
    pos: int,
    jumps: nat,
    pointer_end: Option<int>,
    labels: Seq<Seq<u8>>,
)
    requires
        0 <= start,
        0 <= pos,
        pointer_end is None ==> start <= pos,
        pointer_end matches Some(e) ==> 2 <= e && start + e <= msg.len(),
    ensures
        read_name(msg, start, pos, jumps, pointer_end, labels) matches NameOutcome::Decoded(_, c)
            ==> 1 <= c && start + c <= msg.len(),
        read_name(msg, start, pos, jumps, pointer_end, labels) matches NameOutcome::Truncated(x)
            ==> x > msg.len(),
        pointer_end matches Some(e) ==> (read_name(
            msg,
            start,
            pos,
            jumps,
            pointer_end,
            labels,
        ) matches NameOutcome::Decoded(_, c) ==> c == e),
    decreases 9 - jumps, msg.len() - pos,
{
    if pos < msg.len() {
        if is_pointer(msg[pos]) {
            if pos + 1 < msg.len() && jumps + 1 <= max_dns_jumps() {
                let first_end = match pointer_end {
                    Some(e) => e,
                    None => pos + 2 - start,
                };
                let target = (msg[pos] - 0xC0) * 256 + msg[pos + 1];
                lemma_read_name_bounds(msg, start, target, jumps + 1, Some(first_end), labels);
            }
        } else if msg[pos] != 0 {
            let end = pos + 1 + msg[pos];
            if end <= msg.len() {
                lemma_read_name_bounds(
                    msg,
                    start,
                    end,
                    jumps,
                    pointer_end,
                    labels.push(msg.subrange(pos + 1, end)),
                );
            }
        }
    }
}

/// A decoded DNS name occupies at least one byte and never runs past the
/// message, and a truncation report always asks for more bytes than the
/// message holds.
pub proof fn lemma_dns_name_bounds(msg: Seq<u8>, offset: int)
    requires
        0 <= offset,
    ensures
        dns_name_outcome(msg, offset) matches NameOutcome::Decoded(_, c) ==> 1 <= c && offset + c
            <= msg.len(),
        dns_name_outcome(msg, offset) matches NameOutcome::Truncated(x) ==> x > msg.len(),
{
    lemma_read_name_bounds(msg, offset, offset, 0, None, Seq::empty());
}

/// Consumption stops at a pointer: a name that starts with a compression
/// pointer occupies exactly the pointer's two bytes.
pub proof fn lemma_dns_name_pointer_consumes_two(msg: Seq<u8>, offset: int)
    requires
        0 <= offset < msg.len(),
        is_pointer(msg[offset]),
    ensures
        dns_name_outcome(msg, offset) matches NameOutcome::Decoded(_, c) ==> c == 2,
{
    if offset + 1 < msg.len() {
        let target = (msg[offset] - 0xC0) * 256 + msg[offset + 1];
        lemma_read_name_bounds(msg, offset, target, 1, Some(2), Seq::empty());
    }
}

/// The bytes a list of labels occupies on the wire: each label's bytes and
/// its length byte.
pub open spec fn labels_wire_len(labels: Seq<Seq<u8>>) -> nat
    decreases labels.len(),
{
    if labels.len() == 0 {
        0
    } else {
        labels_wire_len(labels.drop_last()) + labels.last().len() + 1
    }
}

/// What a partial read keeps about the bytes consumed: before any pointer,
/// the position is right after the labels read so far; after one, the first
/// pointer sits just before the recorded end.
proof fn lemma_read_name_consumed_shape(
    msg: Seq<u8>,
    start: int,
    pos: int,
    jumps: nat,
    pointer_end: Option<int>,
    labels: Seq<Seq<u8>>,
)
    requires
        0 <= start,
        pointer_end is None ==> pos == start + labels_wire_len(labels),
        pointer_end matches Some(e) ==> 2 <= e && start + e <= msg.len() && is_pointer(
            msg[start + e - 2],
        ),
    ensures
        read_name(msg, start, pos, jumps, pointer_end, labels) matches NameOutcome::Decoded(l, c)
            ==> c == labels_wire_len(l) + 1 || (2 <= c && start + c <= msg.len() && is_pointer(
                msg[start + c - 2],
            )),
    decreases 9 - jumps, msg.len() - pos,
{
    if 0 <= pos < msg.len() {
        if is_pointer(msg[pos]) {
            if pos + 1 < msg.len() && jumps + 1 <= max_dns_jumps() {
                let first_end = match pointer_end {
                    Some(e) => e,
                    None => pos + 2 - start,
                };
                let target = (msg[pos] - 0xC0) * 256 + msg[pos + 1];
                lemma_read_name_consumed_shape(
                    msg,
                    start,
                    target,
                    jumps + 1,
                    Some(first_end),
                    labels,
                );
            }
        } else if msg[pos] != 0 {
            let end = pos + 1 + msg[pos];
            if end <= msg.len() {
                let next = labels.push(msg.subrange(pos + 1, end));
                assert(next.drop_last() =~= labels);
                lemma_read_name_consumed_shape(msg, start, end, jumps, pointer_end, next);
            }
        }
    }
}

/// The bytes a decoded DNS name occupies are either exactly its labels and
/// the terminating zero, or end with a compression pointer.
pub proof fn lemma_dns_name_consumed_shape(msg: Seq<u8>, offset: int)
    requires
        0 <= offset,
    ensures
        dns_name_outcome(msg, offset) matches NameOutcome::Decoded(labels, c) ==> c
            == labels_wire_len(labels) + 1 || (2 <= c && offset + c <= msg.len() && is_pointer(
            msg[offset + c - 2],
        )),
{
    lemma_read_name_consumed_shape(msg, offset, offset, 0, None, Seq::empty());
}

/// The wire form of a name written without compression: each label after
/// its length byte, then a zero byte.
pub open spec fn dns_encode_labels(labels: Seq<Seq<u8>>) -> Seq<u8>
    decreases labels.len(),
{
    if labels.len() == 0 {
        seq![0u8]
    } else {
        seq![labels[0].len() as u8] + labels[0] + dns_encode_labels(labels.drop_first())
    }
}

/// Whether every label holds 1 to 63 bytes, as RFC 1035 allows.
pub open spec fn valid_dns_labels(labels: Seq<Seq<u8>>) -> bool {
    forall|i: int| 0 <= i < labels.len() ==> 1 <= (#[trigger] labels[i]).len() <= 63
}

/// Reading an uncompressed name from `pos` collects its labels after those
/// read so far; the bytes consumed end at the first pointer met before, or
/// else at the name's terminating zero.
proof fn lemma_read_uncompressed(
    msg: Seq<u8>,
    start: int,
    pos: int,
    jumps: nat,
    pointer_end: Option<int>,
    acc: Seq<Seq<u8>>,
    labels: Seq<Seq<u8>>,
)
    requires
        0 <= pos,
        valid_dns_labels(labels),
        pos + dns_encode_labels(labels).len() <= msg.len(),
        msg.subrange(pos, pos + dns_encode_labels(labels).len()) == dns_encode_labels(labels),
    ensures
        read_name(msg, start, pos, jumps, pointer_end, acc) == NameOutcome::Decoded(
            acc + labels,
            match pointer_end {
                Some(e) => e,
                None => pos + dns_encode_labels(labels).len() - start,
            },
        ),
    decreases labels.len(),
{
    let enc = dns_encode_labels(labels);
    assert(msg[pos] == enc[0]);
    if labels.len() == 0 {
        assert(acc + labels =~= acc);
    } else {
        let l = labels[0];
        let tail = labels.drop_first();
        let tail_enc = dns_encode_labels(tail);
        let end = pos + 1 + l.len();
        assert(1 <= l.len() <= 63);
        assert(enc == seq![l.len() as u8] + l + tail_enc);
        assert(msg[pos] == l.len() as u8);
        assert(msg.subrange(pos + 1, end) =~= l) by {
            assert forall|j: int| 0 <= j < l.len() implies msg.subrange(pos + 1, end)[j] == l[j] by {
                assert(msg[pos + 1 + j] == enc[1 + j]);
            }
        }
        assert(msg.subrange(end, end + tail_enc.len()) =~= tail_enc) by {
            assert forall|j: int| 0 <= j < tail_enc.len() implies msg.subrange(
                end,
                end + tail_enc.len(),
            )[j] == tail_enc[j] by {
                assert(msg[end + j] == enc[1 + l.len() + j]);
            }
        }
        assert forall|i: int| 0 <= i < tail.len() implies 1 <= (#[trigger] tail[i]).len() <= 63 by {
            assert(tail[i] == labels[i + 1]);
        }
        lemma_read_uncompressed(msg, start, end, jumps, pointer_end, acc.push(l), tail);
        assert(acc.push(l) + tail =~= acc + labels);
    }
}

/// A compression pointer `[b1, b2]` (with `b1 >= 0xC0`) continues the read
/// at offset `(b1 - 0xC0) * 256 + b2` of the message: where an uncompressed
/// name is written at offset `t` and a pointer to `t` stands at `p`, the name
/// read at `p` has that name's labels and occupies the pointer's two bytes.
pub proof fn lemma_dns_name_pointer_follows_target(
    msg: Seq<u8>,
    labels: Seq<Seq<u8>>,
    t: int,
    p: int,
)
    requires
        valid_dns_labels(labels),
        0 <= t < 0x4000,
        t + dns_encode_labels(labels).len() <= msg.len(),
        msg.subrange(t, t + dns_encode_labels(labels).len()) == dns_encode_labels(labels),
        0 <= p,
        p + 1 < msg.len(),
        msg[p] as int == 0xC0 + t / 256,
        msg[p + 1] as int == t % 256,
    ensures
        dns_name_outcome(msg, p) == NameOutcome::Decoded(labels, 2),
{
    let target = (msg[p] - 0xC0) * 256 + msg[p + 1];
    assert(target == t);
    lemma_read_uncompressed(msg, p, t, 1, Some(2), Seq::empty(), labels);
    assert(Seq::<Seq<u8>>::empty() + labels =~= labels);
}

/// A name written without compression, anywhere in a message, is read back
/// with its labels verbatim, and occupies exactly its wire form.
pub proof fn lemma_dns_name_uncompressed_round_trip(
    before: Seq<u8>,
    labels: Seq<Seq<u8>>,
    after: Seq<u8>,
)
    requires
        valid_dns_labels(labels),
    ensures
        dns_name_outcome(before + dns_encode_labels(labels) + after, before.len() as int)
            == NameOutcome::Decoded(labels, dns_encode_labels(labels).len() as int),
{
    let enc = dns_encode_labels(labels);
    let msg = before + enc + after;
    assert(msg.subrange(before.len() as int, (before.len() + enc.len()) as int) =~= enc);
    lemma_read_uncompressed(
        msg,
        before.len() as int,
        before.len() as int,
        0,
        None,
        Seq::empty(),
        labels,
    );
    assert(Seq::<Seq<u8>>::empty() + labels =~= labels);
}

/// Reading the labels of a name, written without their terminating zero,
/// collects them and leaves the read right after them.
proof fn lemma_read_label_prefix(
    msg: Seq<u8>,
    start: int,
    pos: int,
    jumps: nat,
    pointer_end: Option<int>,
    acc: Seq<Seq<u8>>,
    labels: Seq<Seq<u8>>,
)
    requires
        0 <= pos,
        valid_dns_labels(labels),
        pos + dns_encode_labels(labels).len() - 1 <= msg.len(),
        msg.subrange(pos, pos + dns_encode_labels(labels).len() - 1) == dns_encode_labels(
            labels,
        ).drop_last(),
    ensures
        read_name(msg, start, pos, jumps, pointer_end, acc) == read_name(
            msg,
            start,
            pos + dns_encode_labels(labels).len() - 1,
            jumps,
            pointer_end,
            acc + labels,
        ),
    decreases labels.len(),
{
    let enc = dns_encode_labels(labels);
    if labels.len() == 0 {
        assert(acc + labels =~= acc);
    } else {
        let l = labels[0];
        let tail = labels.drop_first();
        let tail_enc = dns_encode_labels(tail);
        let end = pos + 1 + l.len();
        assert(1 <= l.len() <= 63);
        assert(enc == seq![l.len() as u8] + l + tail_enc);
        assert(tail_enc.len() >= 1) by {
            if tail.len() == 0 {
            } else {
                assert(tail_enc == seq![tail[0].len() as u8] + tail[0] + dns_encode_labels(
                    tail.drop_first(),
                ));
            }
        }
        let pre = enc.drop_last();
        assert(msg[pos] == pre[0]);
        assert(pre[0] == enc[0]);
        assert(msg[pos] == l.len() as u8);
        assert(msg.subrange(pos + 1, end) =~= l) by {
            assert forall|j: int| 0 <= j < l.len() implies msg.subrange(pos + 1, end)[j] == l[j] by {
                assert(msg[pos + 1 + j] == pre[1 + j]);
                assert(pre[1 + j] == enc[1 + j]);
            }
        }
        assert(msg.subrange(end, end + tail_enc.len() - 1) =~= tail_enc.drop_last()) by {
            assert forall|j: int| 0 <= j < tail_enc.len() - 1 implies msg.subrange(
                end,
                end + tail_enc.len() - 1,
            )[j] == tail_enc.drop_last()[j] by {
                assert(msg[end + j] == pre[1 + l.len() + j]);
                assert(pre[1 + l.len() + j] == enc[1 + l.len() + j]);
            }
        }
        assert forall|i: int| 0 <= i < tail.len() implies 1 <= (#[trigger] tail[i]).len() <= 63 by {
            assert(tail[i] == labels[i + 1]);
        }
        lemma_read_label_prefix(msg, start, end, jumps, pointer_end, acc.push(l), tail);
        assert(acc.push(l) + tail =~= acc + labels);
    }
}

/// A name written as labels followed by a compression pointer reads those
/// labels, then the name the pointer leads to: with `first` written from
/// offset `p` (without its terminating zero), then a pointer to offset `t`,
/// where the uncompressed name `rest` is written, the name read at `p` is
/// `first` followed by `rest`, and occupies `first`'s bytes and the pointer.
pub proof fn lemma_dns_name_labels_then_pointer(
    msg: Seq<u8>,
    first: Seq<Seq<u8>>,
    rest: Seq<Seq<u8>>,
    p: int,
    t: int,
)
    requires
        valid_dns_labels(first),
        valid_dns_labels(rest),
        0 <= t < 0x4000,
        t + dns_encode_labels(rest).len() <= msg.len(),
        msg.subrange(t, t + dns_encode_labels(rest).len()) == dns_encode_labels(rest),
        0 <= p,
        p + dns_encode_labels(first).len() < msg.len(),
        msg.subrange(p, p + dns_encode_labels(first).len() - 1) == dns_encode_labels(
            first,
        ).drop_last(),
        msg[p + dns_encode_labels(first).len() - 1] as int == 0xC0 + t / 256,
        msg[p + dns_encode_labels(first).len()] as int == t % 256,
    ensures
        dns_name_outcome(msg, p) == NameOutcome::Decoded(
            first + rest,
            dns_encode_labels(first).len() + 1int,
        ),
{
    let q = p + dns_encode_labels(first).len() - 1;
    lemma_read_label_prefix(msg, p, p, 0, None, Seq::empty(), first);
    let target = (msg[q] - 0xC0) * 256 + msg[q + 1];
    assert(target == t);
    lemma_read_uncompressed(msg, p, t, 1, Some(q + 2 - p), Seq::empty() + first, rest);
}

/// Reading on at a pointer that points to itself meets it again and again.
proof fn lemma_read_self_pointer(
    msg: Seq<u8>,
    start: int,
    p: int,
    jumps: nat,
    pointer_end: Option<int>,
    labels: Seq<Seq<u8>>,
)
    requires
        0 <= p < 0x4000,
        p + 1 < msg.len(),
        msg[p] as int == 0xC0 + p / 256,
        msg[p + 1] as int == p % 256,
        jumps <= max_dns_jumps(),
    ensures
        read_name(msg, start, p, jumps, pointer_end, labels) == NameOutcome::TooManyJumps,
    decreases 9 - jumps,
{
    if jumps + 1 <= max_dns_jumps() {
        let first_end = match pointer_end {
            Some(e) => e,
            None => p + 2 - start,
        };
        let target = (msg[p] - 0xC0) * 256 + msg[p + 1];
        assert(target == p);
        lemma_read_self_pointer(msg, start, p, jumps + 1, Some(first_end), labels);
    }
}

/// Pointers are followed a bounded number of times: a name that is a
/// compression pointer to itself is refused as having too many jumps.
pub proof fn lemma_dns_name_pointer_loop_refused(msg: Seq<u8>, p: int)
    requires
        0 <= p < 0x4000,
        p + 1 < msg.len(),
        msg[p] as int == 0xC0 + p / 256,
        msg[p + 1] as int == p % 256,
    ensures
        dns_name_outcome(msg, p) == NameOutcome::TooManyJumps,
{
    lemma_read_self_pointer(msg, p, p, 0, None, Seq::empty());
}

} // verus!
