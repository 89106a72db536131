use vstd::prelude::*;

verus! {

/// A length (or offset) counted in whole bytes plus extra bits.
///
/// A value is *normalized* when `bit < 8`; the total number of bits it
/// stands for is `8 * byte + bit`.
#[derive(Debug, Clone, Copy, PartialEq, Eq, Structural)]
pub struct Len {
    pub byte: usize,
    pub bit: usize,
}

impl Len {
    /// The number of bits this length stands for.
    pub open spec fn total_bits(self) -> int {
        8 * self.byte + self.bit
    }

    /// Whether the bit part is below one byte.
    pub open spec fn is_normalized(self) -> bool {
        self.bit < 8
    }

    /// Whether `self + other` can be computed without overflowing `usize`.
    pub open spec fn can_add(self, other: Len) -> bool {
        &&& self.bit + other.bit <= usize::MAX
        &&& self.byte + other.byte + (if self.bit + other.bit >= 8 { 1int } else { 0 }) <= usize::MAX
    }

    /// The sum of two lengths: bytes and bits are added separately, and one
    /// byte is carried out of the bits when they reach eight.
    pub open spec fn spec_add_len(self, other: Len) -> Len {
        let bit = self.bit + other.bit;
        if bit >= 8 {
            Len { byte: (self.byte + other.byte + 1) as usize, bit: (bit - 8) as usize }
        } else {
            Len { byte: (self.byte + other.byte) as usize, bit: bit as usize }
        }
    }
}

impl Len {
    /// The number of whole bytes needed to hold this length: `byte`, plus
    /// one when there are leftover bits.
    pub fn byte_ceil(&self) -> (r: usize)
        requires
            self.bit > 0 ==> self.byte < usize::MAX,
        ensures
            r == if self.bit > 0 { self.byte + 1 } else { self.byte as int },
    {
        if self.bit > 0 {
            self.byte + 1
        } else {
            self.byte
        }
    }
}

impl Default for Len {
    fn default() -> (r: Self)
        ensures
            r == (Len { byte: 0, bit: 0 }),
    {
        Len { byte: 0, bit: 0 }
    }
}

impl vstd::std_specs::ops::AddSpecImpl for Len {
    open spec fn obeys_add_spec() -> bool {
        true
    }

    open spec fn add_req(self, rhs: Len) -> bool {
        self.can_add(rhs)
    }

    open spec fn add_spec(self, rhs: Len) -> Len {
        self.spec_add_len(rhs)
    }
}

impl std::ops::Add for Len {
    type Output = Self;

    fn add(self, other: Self) -> (r: Self) {
        let mut byte = self.byte + other.byte;
        let mut bit = self.bit + other.bit;
        if bit >= 8 {
            byte += 1;
            bit -= 8;
        }
        Len { byte, bit }
    }
}

/// Adding two lengths preserves the total number of bits they stand for.
pub proof fn lemma_add_preserves_total_bits(a: Len, b: Len)
    requires
        a.can_add(b),
    ensures
        a.spec_add_len(b).total_bits() == a.total_bits() + b.total_bits(),
{
}

/// Length addition is commutative.
pub proof fn lemma_add_commutative(a: Len, b: Len)
    ensures
        a.can_add(b) == b.can_add(a),
        a.spec_add_len(b) == b.spec_add_len(a),
{
}

/// The sum of two normalized lengths is normalized.
pub proof fn lemma_add_keeps_normalized(a: Len, b: Len)
    requires
        a.is_normalized(),
        b.is_normalized(),
    ensures
        a.spec_add_len(b).is_normalized(),
{
}

/// The zero length is an identity for normalized lengths, on either side.
pub proof fn lemma_add_zero_identity(a: Len)
    requires
        a.is_normalized(),
    ensures
        (Len { byte: 0, bit: 0 }).can_add(a),
        (Len { byte: 0, bit: 0 }).spec_add_len(a) == a,
        a.spec_add_len(Len { byte: 0, bit: 0 }) == a,
{
}

/// Length addition is associative on normalized lengths whose sums fit.
pub proof fn lemma_add_associative(a: Len, b: Len, c: Len)
    requires
        a.is_normalized(),
        b.is_normalized(),
        c.is_normalized(),
        a.can_add(b),
        a.spec_add_len(b).can_add(c),
    ensures
        b.can_add(c),
        a.can_add(b.spec_add_len(c)),
        a.spec_add_len(b).spec_add_len(c) == a.spec_add_len(b.spec_add_len(c)),
{
}

} // verus!
