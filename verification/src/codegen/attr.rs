//! Field attributes: `@endian(big)` and `@endian(little)`.
use vstd::prelude::*;

use crate::codegen::ast::{Attribute, Expr};
use vstd::string::StringSliceAdditionalSpecFns;

verus! {

/// Byte order of a multi-byte field.
#[derive(Debug, Clone, Copy, PartialEq, Eq, Structural)]
pub enum Endian {
    Big,
    Little,
}

impl Default for Endian {
    /// Big endian, the DSL's global default.
    fn default() -> (r: Self)
        ensures
            r == Endian::Big,
    {
        Endian::Big
    }
}

/// Why the attributes of a field are rejected.
#[derive(Debug)]
pub enum Error {
    /// `@attr` was given `got` arguments where it takes `expected`.
    WrongArgCount { attr: &'static str, expected: usize, got: usize },
    /// The argument of `@endian` is neither `big` nor `little`.
    InvalidEndianValue(String),
    /// `@endian` on a `u8`, which has a single byte.
    EndianOnU8,
    /// `@endian` on a bitfield.
    EndianOnBitfield,
    /// `@endian` on a struct reference, which keeps its own byte order.
    EndianOnStructRef,
}

/// What reading one `@endian` attribute yields.
pub enum EndianArg {
    /// A valid byte order.
    Valid(Endian),
    /// The attribute has this many arguments instead of one.
    WrongArgCount(nat),
    /// The argument is this text, which names no byte order.
    Invalid(Seq<char>),
}

impl Error {
    /// Whether this error is the one reported for a rejected `@endian`.
    pub open spec fn reports(self, arg: EndianArg) -> bool {
        match arg {
            EndianArg::Valid(_) => false,
            EndianArg::WrongArgCount(n) => self matches Error::WrongArgCount { attr, expected, got }
                && attr@ == "endian"@ && expected == 1 && got == n,
            EndianArg::Invalid(text) => self matches Error::InvalidEndianValue(s) && s@ == text,
        }
    }
}

/// Whether `attr` is an `@endian` attribute.
pub open spec fn is_endian_attr(attr: Attribute) -> bool {
    attr.name@ == "endian"@
}

/// What the arguments of an `@endian` attribute say: exactly one argument,
/// a single-segment path `big` or `little`.
pub open spec fn endian_arg(attr: Attribute) -> EndianArg {
    if attr.args@.len() != 1 {
        EndianArg::WrongArgCount(attr.args@.len())
    } else {
        match attr.args@[0] {
            Expr::Path(path) => if path@.len() == 1 {
                if path@[0]@ == "big"@ {
                    EndianArg::Valid(Endian::Big)
                } else if path@[0]@ == "little"@ {
                    EndianArg::Valid(Endian::Little)
                } else {
                    EndianArg::Invalid(path@[0]@)
                }
            } else {
                EndianArg::Invalid("<non-identifier>"@)
            },
            Expr::Other => EndianArg::Invalid("<non-identifier>"@),
        }
    }
}

/// The byte order a list of attributes sets: the last `@endian` wins, and
/// the first invalid `@endian` rejects the whole list.
pub open spec fn attrs_endian(attrs: Seq<Attribute>) -> Result<Option<Endian>, EndianArg>
    decreases attrs.len(),
{
    if attrs.len() == 0 {
        Ok(None)
    } else {
        match attrs_endian(attrs.drop_last()) {
            Err(arg) => Err(arg),
            Ok(current) => if is_endian_attr(attrs.last()) {
                match endian_arg(attrs.last()) {
                    EndianArg::Valid(e) => Ok(Some(e)),
                    arg => Err(arg),
                }
            } else {
                Ok(current)
            },
        }
    }
}

/// Whether two strings hold the same text.
pub(crate) fn str_eq(a: &str, b: &str) -> (r: bool)
    ensures
        r == (a@ == b@),
{
    let x = a.as_bytes();
    let y = b.as_bytes();
    if x.len() != y.len() {
        return false;
    }
    let mut i: usize = 0;
    while i < x.len()
        invariant
            i <= x.len(),
            x.len() == y.len(),
            x@ == a.spec_bytes(),
            y@ == b.spec_bytes(),
            forall|j: int| 0 <= j < i ==> x@[j] == y@[j],
        decreases x.len() - i,
    {
        if x[i] != y[i] {
            return false;
        }
        i += 1;
    }
    assert(x@ =~= y@);
    proof {
        vstd::utf8::encode_utf8_decode_utf8(a@);
        vstd::utf8::encode_utf8_decode_utf8(b@);
    }
    true
}

/// The attributes of a field that the generator acts on.
#[derive(Debug, Clone)]
pub struct ParsedAttrs {
    /// The byte order set by `@endian`, if any.
    pub endian: Option<Endian>,
}

impl Default for ParsedAttrs {
    /// No attribute set.
    fn default() -> (r: Self)
        ensures
            r.endian is None,
    {
        ParsedAttrs { endian: None }
    }
}

impl ParsedAttrs {
    /// Reads the attributes of a field. Attributes other than `@endian` are
    /// left to other passes.
    pub fn parse(attrs: &[Attribute<'_>]) -> (res: Result<Self, Error>)
        ensures
            match attrs_endian(attrs@) {
                Ok(e) => res matches Ok(parsed) && parsed.endian == e,
                Err(arg) => res matches Err(err) && err.reports(arg),
            },
    {
        let mut result = ParsedAttrs { endian: None };
        let mut i: usize = 0;
        while i < attrs.len()
            invariant
                i <= attrs.len(),
                attrs_endian(attrs@.take(i as int)) == Ok::<Option<Endian>, EndianArg>(
                    result.endian,
                ),
            decreases attrs.len() - i,
        {
            let attr = &attrs[i];
            proof {
                assert(attrs@.take(i + 1).drop_last() =~= attrs@.take(i as int));
                assert(attrs@.take(i + 1).last() == attrs@[i as int]);
            }
            if str_eq(attr.name, "endian") {
                match Self::parse_endian(attr) {
                    Ok(e) => {
                        result.endian = Some(e);
                    },
                    Err(err) => {
                        proof {
                            lemma_attrs_endian_error_persists(attrs@, i as nat + 1);
                        }
                        return Err(err);
                    },
                }
            }
            i += 1;
        }
        assert(attrs@.take(attrs.len() as int) =~= attrs@);
        Ok(result)
    }

    fn parse_endian(attr: &Attribute<'_>) -> (res: Result<Endian, Error>)
        ensures
            match endian_arg(*attr) {
                EndianArg::Valid(e) => res == Ok::<Endian, Error>(e),
                arg => res matches Err(err) && err.reports(arg),
            },
    {
        if attr.args.len() != 1 {
            return Err(Error::WrongArgCount { attr: "endian", expected: 1, got: attr.args.len() });
        }
        match &attr.args[0] {
            Expr::Path(path) => {
                if path.len() == 1 {
                    if str_eq(path[0], "big") {
                        Ok(Endian::Big)
                    } else if str_eq(path[0], "little") {
                        Ok(Endian::Little)
                    } else {
                        Err(Error::InvalidEndianValue(path[0].to_owned()))
                    }
                } else {
                    Err(Error::InvalidEndianValue("<non-identifier>".to_owned()))
                }
            },
            Expr::Other => Err(Error::InvalidEndianValue("<non-identifier>".to_owned())),
        }
    }

    /// The byte order of the field: its own `@endian`, else `default`.
    pub fn merge_endian(&self, default: Endian) -> (r: Endian)
        ensures
            r == match self.endian {
                Some(e) => e,
                None => default,
            },
    {
        self.endian.unwrap_or(default)
    }
}

/// Once a prefix of the attributes is rejected, so is every longer prefix,
/// for the same reason.
pub proof fn lemma_attrs_endian_error_persists(attrs: Seq<Attribute>, k: nat)
    requires
        k <= attrs.len(),
        attrs_endian(attrs.take(k as int)) is Err,
    ensures
        attrs_endian(attrs) == attrs_endian(attrs.take(k as int)),
    decreases attrs.len() - k,
{
    if k < attrs.len() {
        assert(attrs.take(k + 1int).drop_last() =~= attrs.take(k as int));
        lemma_attrs_endian_error_persists(attrs, k + 1nat);
    } else {
        assert(attrs.take(k as int) =~= attrs);
    }
}

/// The last `@endian` wins: after attributes that were accepted, a valid
/// `@endian` sets the byte order, whatever the earlier ones set.
pub proof fn lemma_attrs_endian_last_wins(attrs: Seq<Attribute>, attr: Attribute, e: Endian)
    requires
        attrs_endian(attrs) is Ok,
        is_endian_attr(attr),
        endian_arg(attr) == EndianArg::Valid(e),
    ensures
        attrs_endian(attrs.push(attr)) == Ok::<Option<Endian>, EndianArg>(Some(e)),
{
    assert(attrs.push(attr).drop_last() =~= attrs);
}

/// Attributes other than `@endian` change nothing of the byte order, nor of
/// whether the list is accepted.
pub proof fn lemma_attrs_endian_ignores_others(attrs: Seq<Attribute>, attr: Attribute)
    requires
        !is_endian_attr(attr),
    ensures
        attrs_endian(attrs.push(attr)) == attrs_endian(attrs),
{
    assert(attrs.push(attr).drop_last() =~= attrs);
}

/// An invalid `@endian` rejects the whole list, whatever follows it, with
/// its own reason, when nothing before it was rejected.
pub proof fn lemma_attrs_endian_invalid_rejects(
    attrs: Seq<Attribute>,
    attr: Attribute,
    rest: Seq<Attribute>,
)
    requires
        attrs_endian(attrs) is Ok,
        is_endian_attr(attr),
        !(endian_arg(attr) is Valid),
    ensures
        attrs_endian(attrs.push(attr) + rest) == Err::<Option<Endian>, EndianArg>(endian_arg(attr)),
{
    let all = attrs.push(attr) + rest;
    let k = attrs.len() + 1;
    assert(all.take(k as int) =~= attrs.push(attr));
    assert(attrs.push(attr).drop_last() =~= attrs);
    lemma_attrs_endian_error_persists(all, k as nat);
}

} // verus!
