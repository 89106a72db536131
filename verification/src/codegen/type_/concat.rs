//! A concatenation of items: its length, and where each item starts.
use vstd::prelude::*;

use crate::len::Len;

verus! {

/// Why a concatenation cannot be generated.
#[derive(Debug)]
pub enum Error {
    /// The item at this index has no length known at generation time.
    UnknownItemLen(usize),
}

/// The total length of the first `n` items.
pub open spec fn concat_total(items: Seq<Len>, n: nat) -> Len
    decreases n,
{
    if n == 0 {
        Len { byte: 0, bit: 0 }
    } else {
        concat_total(items, (n - 1) as nat).spec_add_len(items[n - 1])
    }
}

/// Where item `n` starts: `start` advanced by the first `n` items.
pub open spec fn concat_offset(items: Seq<Len>, start: Len, n: nat) -> Len
    decreases n,
{
    if n == 0 {
        start
    } else {
        items[n - 1].spec_add_len(concat_offset(items, start, (n - 1) as nat))
    }
}

/// Whether summing the items, and advancing `start` by them, never
/// overflows.
pub open spec fn concat_fits(items: Seq<Len>, start: Len) -> bool {
    forall|i: int|
        0 <= i < items.len() ==> concat_total(items, i as nat).can_add(#[trigger] items[i])
            && items[i].can_add(concat_offset(items, start, i as nat))
}

/// Lays out a concatenation whose items have the fixed lengths `items`,
/// starting at `start`: returns the total length and the start of each item.
pub fn concat_layout(items: &[Len], start: Len) -> (r: (Len, Vec<Len>))
    requires
        concat_fits(items@, start),
    ensures
        r.0 == concat_total(items@, items@.len() as nat),
        r.1@.len() == items@.len(),
        forall|i: int| 0 <= i < items@.len() ==> r.1@[i] == concat_offset(items@, start, i as nat),
        r.0.total_bits() == lens_bits(items@, items@.len() as nat),
        forall|i: int|
            0 <= i < items@.len() ==> (#[trigger] r.1@[i]).total_bits() == start.total_bits()
                + lens_bits(items@, i as nat),
{
    let mut total = Len { byte: 0, bit: 0 };
    let mut current = start;
    let mut starts: Vec<Len> = Vec::new();
    let mut i: usize = 0;
    while i < items.len()
        invariant
            i <= items@.len(),
            concat_fits(items@, start),
            total == concat_total(items@, i as nat),
            current == concat_offset(items@, start, i as nat),
            starts@.len() == i,
            forall|k: int| 0 <= k < i ==> starts@[k] == concat_offset(items@, start, k as nat),
        decreases items@.len() - i,
    {
        let item = items[i];
        assert(total.can_add(item) && item.can_add(current)) by {
            assert(items@[i as int] == item);
        }
        starts.push(current);
        total = total + item;
        current = item + current;
        i += 1;
    }
    proof {
        lemma_concat_holds_items_bits(items@, start, items@.len() as nat);
        assert forall|k: int|
            0 <= k < items@.len() implies (#[trigger] starts@[k]).total_bits() == start.total_bits()
                + lens_bits(items@, k as nat) by {
            lemma_concat_holds_items_bits(items@, start, k as nat);
        }
    }
    (total, starts)
}

/// Item `n` starts as many bits after `start` as the first `n` items hold.
pub proof fn lemma_concat_offset_bits(items: Seq<Len>, start: Len, n: nat)
    requires
        n <= items.len(),
        concat_fits(items, start),
    ensures
        concat_offset(items, start, n).total_bits() == start.total_bits() + concat_total(
            items,
            n,
        ).total_bits(),
    decreases n,
{
    if n > 0 {
        let k = (n - 1) as nat;
        lemma_concat_offset_bits(items, start, k);
        assert(concat_total(items, k).can_add(items[k as int]));
        assert(items[k as int].can_add(concat_offset(items, start, k)));
        crate::len::lemma_add_preserves_total_bits(concat_total(items, k), items[k as int]);
        crate::len::lemma_add_preserves_total_bits(
            items[k as int],
            concat_offset(items, start, k),
        );
    }
}

/// The number of bits the first `n` items hold together.
pub open spec fn lens_bits(items: Seq<Len>, n: nat) -> int
    decreases n,
{
    if n == 0 {
        0
    } else {
        lens_bits(items, (n - 1) as nat) + items[n - 1].total_bits()
    }
}

/// A concatenation holds exactly the bits of its items: the total of the
/// first `n` items holds the sum of their bits, and item `n` starts that many
/// bits after `start`.
pub proof fn lemma_concat_holds_items_bits(items: Seq<Len>, start: Len, n: nat)
    requires
        n <= items.len(),
        concat_fits(items, start),
    ensures
        concat_total(items, n).total_bits() == lens_bits(items, n),
        concat_offset(items, start, n).total_bits() == start.total_bits() + lens_bits(items, n),
    decreases n,
{
    if n > 0 {
        let k = (n - 1) as nat;
        lemma_concat_holds_items_bits(items, start, k);
        assert(concat_total(items, k).can_add(items[k as int]));
        assert(items[k as int].can_add(concat_offset(items, start, k)));
        crate::len::lemma_add_preserves_total_bits(concat_total(items, k), items[k as int]);
        crate::len::lemma_add_preserves_total_bits(
            items[k as int],
            concat_offset(items, start, k),
        );
    }
}

/// Whole bytes are carried out of the bits: with normalized items, the total
/// of a concatenation is normalized, and so is each item's start when
/// `start` is.
pub proof fn lemma_concat_normalized(items: Seq<Len>, start: Len, n: nat)
    requires
        n <= items.len(),
        forall|i: int| 0 <= i < items.len() ==> (#[trigger] items[i]).is_normalized(),
    ensures
        concat_total(items, n).is_normalized(),
        start.is_normalized() ==> concat_offset(items, start, n).is_normalized(),
    decreases n,
{
    if n > 0 {
        let k = (n - 1) as nat;
        lemma_concat_normalized(items, start, k);
        assert(items[k as int].is_normalized());
        crate::len::lemma_add_keeps_normalized(concat_total(items, k), items[k as int]);
        if start.is_normalized() {
            crate::len::lemma_add_keeps_normalized(items[k as int], concat_offset(items, start, k));
        }
    }
}

} // verus!
