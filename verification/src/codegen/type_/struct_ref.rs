//! A field that holds another generated struct.
use vstd::prelude::*;

use crate::codegen::struct_::{registry_lookup, Registry};
use crate::codegen::type_::Error;
use crate::codegen::GenLen;
use crate::len::Len;

verus! {

/// The bytes a length rounds up to.
pub open spec fn byte_ceil_of(l: Len) -> int {
    if l.bit > 0 {
        l.byte + 1
    } else {
        l.byte as int
    }
}

/// How laying out a struct reference ends.
pub enum RefOutcome {
    /// No struct of that name has been generated.
    Unknown,
    /// The constant bound is below the struct's byte length.
    BoundTooSmall(usize, int),
    /// The fixed start offset ends mid-byte.
    Misaligned(Len),
    /// The field's length.
    Placed(GenLen),
}

/// How laying out a reference to a struct of length `inner` (if generated)
/// with the `@len` `bound` at `start` ends: an unknown struct is rejected; a
/// constant bound below the struct's byte length is rejected; a fixed start
/// that ends mid-byte is rejected. The field then takes its bound in bytes,
/// or the struct's own length.
pub open spec fn struct_ref_outcome(
    inner: Option<GenLen>,
    bound: Option<Option<usize>>,
    start: GenLen,
) -> RefOutcome {
    match inner {
        None => RefOutcome::Unknown,
        Some(len) => match bound {
            Some(b) => {
                if b is Some && len is Fixed && b->Some_0 < byte_ceil_of(len->Fixed_0) {
                    RefOutcome::BoundTooSmall(b->Some_0, byte_ceil_of(len->Fixed_0))
                } else if start is Fixed && start->Fixed_0.bit != 0 {
                    RefOutcome::Misaligned(start->Fixed_0)
                } else {
                    RefOutcome::Placed(
                        match b {
                            Some(byte) => GenLen::Fixed(Len { byte, bit: 0 }),
                            None => GenLen::Dynamic,
                        },
                    )
                }
            },
            None => if start is Fixed && start->Fixed_0.bit != 0 {
                RefOutcome::Misaligned(start->Fixed_0)
            } else {
                RefOutcome::Placed(len)
            },
        },
    }
}

/// Whether `r` reports the outcome `o` for the struct named `name`.
pub open spec fn reports_outcome(r: Result<GenLen, Error>, o: RefOutcome, name: Seq<char>) -> bool {
    match o {
        RefOutcome::Unknown => r matches Err(Error::UnknownType(s)) && s@ == name,
        RefOutcome::BoundTooSmall(v, needed) => r == Err::<GenLen, Error>(
            Error::LenBoundTooSmall { bound: v, needed: needed as usize },
        ),
        RefOutcome::Misaligned(o) => r == Err::<GenLen, Error>(Error::InvalidAlignment(o)),
        RefOutcome::Placed(l) => r == Ok::<GenLen, Error>(l),
    }
}

/// The length of a field holding the struct `name`, placed at `start`.
///
/// `inner` is the length of the struct `name` when it has been generated.
/// `bound` is the field's `@len`: `None` without one, `Some(None)` when its
/// value is only known at parse time, `Some(Some(b))` for a constant `b`.
/// The generator places a struct without `@len` at fixed offsets only.
pub fn struct_ref_len(inner: Option<GenLen>, name: &str, bound: Option<Option<usize>>, start: GenLen)
    -> (r: Result<GenLen, Error>)
    requires
        inner is Some && inner->Some_0 is Fixed && bound is Some && bound->Some_0 is Some
            ==> inner->Some_0->Fixed_0.bit > 0 ==> inner->Some_0->Fixed_0.byte < usize::MAX,
        inner is Some && bound is None ==> start is Fixed,
    ensures
        reports_outcome(r, struct_ref_outcome(inner, bound, start), name@),
{
    let len = match inner {
        Some(len) => len,
        None => {
            return Err(Error::UnknownType(name.to_owned()));
        },
    };
    match bound {
        Some(b) => {
            if let (Some(v), GenLen::Fixed(l)) = (b, len) {
                let needed = l.byte_ceil();
                if v < needed {
                    return Err(Error::LenBoundTooSmall { bound: v, needed });
                }
            }
            if let GenLen::Fixed(o) = start {
                if o.bit != 0 {
                    return Err(Error::InvalidAlignment(o));
                }
            }
            match b {
                Some(byte) => Ok(GenLen::Fixed(Len { byte, bit: 0 })),
                None => Ok(GenLen::Dynamic),
            }
        },
        None => match start {
            GenLen::Fixed(o) => {
                if o.bit != 0 {
                    return Err(Error::InvalidAlignment(o));
                }
                Ok(len)
            },
            GenLen::Dynamic => {
                proof {
                    assert(false);
                }
                Ok(len)
            },
        },
    }
}

/// The length of a field holding the struct `name`, looked up among the
/// structs generated so far: as `struct_ref_len` with the length recorded
/// last for `name`. A reference without `@len` at an aligned fixed offset
/// takes exactly the struct's recorded length.
pub fn struct_ref_layout(
    registry: &Registry,
    name: &str,
    bound: Option<Option<usize>>,
    start: GenLen,
) -> (r: Result<GenLen, Error>)
    requires
        registry.wf(),
        ({
            let inner = registry_lookup(registry.entries(), name@);
            &&& inner is Some && inner->Some_0 is Fixed && bound is Some && bound->Some_0 is Some
                ==> inner->Some_0->Fixed_0.bit > 0 ==> inner->Some_0->Fixed_0.byte < usize::MAX
            &&& inner is Some && bound is None ==> start is Fixed
        }),
    ensures
        reports_outcome(
            r,
            struct_ref_outcome(registry_lookup(registry.entries(), name@), bound, start),
            name@,
        ),
        bound is None && start is Fixed && start->Fixed_0.bit == 0 ==> match registry_lookup(
            registry.entries(),
            name@,
        ) {
            Some(len) => r == Ok::<GenLen, Error>(len),
            None => r is Err,
        },
{
    let inner = registry.get(name);
    struct_ref_len(inner, name, bound, start)
}

/// A reference without `@len`, at an aligned fixed offset, to a struct just
/// recorded in the registry takes exactly the struct's recorded length.
pub proof fn lemma_struct_ref_takes_recorded_len(
    entries: Seq<(Seq<char>, GenLen)>,
    name: Seq<char>,
    len: GenLen,
    start: Len,
)
    requires
        start.bit == 0,
    ensures
        struct_ref_outcome(registry_lookup(entries.push((name, len)), name), None, GenLen::Fixed(start))
            == RefOutcome::Placed(len),
{
    assert(entries.push((name, len)).last() == (name, len));
}

/// The bytes a normalized length rounds up to are the fewest that hold its
/// bits.
pub proof fn lemma_byte_ceil_is_least_holding(l: Len)
    requires
        l.is_normalized(),
    ensures
        8 * byte_ceil_of(l) >= l.total_bits(),
        byte_ceil_of(l) > 0 ==> 8 * (byte_ceil_of(l) - 1) < l.total_bits(),
{
}

/// A constant `@len` bound is accepted exactly when its bytes hold the bits
/// of the struct it refers to; at an aligned fixed start the field then
/// takes the bound's bytes.
pub proof fn lemma_struct_ref_bound_holds_struct(l: Len, b: usize, start: Len)
    requires
        l.is_normalized(),
        start.bit == 0,
    ensures
        8 * b >= l.total_bits() ==> struct_ref_outcome(
            Some(GenLen::Fixed(l)),
            Some(Some(b)),
            GenLen::Fixed(start),
        ) == RefOutcome::Placed(GenLen::Fixed(Len { byte: b, bit: 0 })),
        8 * b < l.total_bits() ==> struct_ref_outcome(
            Some(GenLen::Fixed(l)),
            Some(Some(b)),
            GenLen::Fixed(start),
        ) is BoundTooSmall,
{
}

} // verus!
