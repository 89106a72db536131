//! One struct: its fields folded in order, its length, the length check of
//! its `parse`, and why it can fail.
use vstd::prelude::*;

use crate::codegen::attr::str_eq;
use crate::codegen::field::{self, place_field, FieldState};
use crate::codegen::type_::struct_ref::byte_ceil_of;
use crate::codegen::GenLen;
use crate::context::ParseError;
use crate::len::Len;
use vstd::string::StringExecFns;

verus! {

/// The kind of a generated field.
#[derive(Debug, Clone, Copy, PartialEq, Eq, Structural)]
pub enum DoneFieldType {
    Primitive,
    BitField,
    Other,
}

/// A field already placed in its struct.
#[derive(Debug)]
pub struct DoneField {
    /// The field's name.
    pub name: String,
    /// The kind of field it is.
    pub field_type: DoneFieldType,
    /// The field's length.
    pub len: GenLen,
    /// Where the field ends: what its end getter reports.
    pub end: GenLen,
    /// The name of its end getter.
    pub offset_getter_fn_name: String,
}

/// A struct while its fields are generated.
#[derive(Debug)]
pub struct StructState {
    /// The struct's name.
    pub name: String,
    /// The cursor: where the next field starts.
    pub offset: GenLen,
    /// The fields placed so far, in order.
    pub done_fields: Vec<DoneField>,
    /// The end getter of the last field, once one is known.
    pub last_offset_getter_fn_name: Option<String>,
}

/// Why a struct cannot be generated.
#[derive(Debug)]
pub enum Error {
    /// The field `name` cannot be generated.
    Field { name: String, error: field::Error },
    /// The field needs byte alignment, but the fields before it end mid-byte.
    Unaligned { field: String },
}

impl StructState {
    /// A struct named `name` with no field yet: the cursor at zero.
    pub fn new(name: &str) -> (r: Self)
        ensures
            r.name@ == name@,
            r.offset == GenLen::Fixed(Len { byte: 0, bit: 0 }),
            r.done_fields@.len() == 0,
            r.last_offset_getter_fn_name is None,
    {
        StructState {
            name: <String as StringExecFns>::from_str(name),
            offset: GenLen::Fixed(Len { byte: 0, bit: 0 }),
            done_fields: Vec::new(),
            last_offset_getter_fn_name: None,
        }
    }

    /// Adds a generated field at the cursor: the cursor advances by the
    /// field's length, the field is recorded with where it ends, its end
    /// getter becomes the struct's last one, and where it ends is returned.
    pub fn add_field(&mut self, field: FieldState) -> (end: GenLen)
        requires
            old(self).offset.can_add(field.len),
        ensures
            end == field.len.spec_add(old(self).offset),
            final(self).offset == old(self).offset.spec_add(field.len),
            final(self).name == old(self).name,
            final(self).last_offset_getter_fn_name == Some(field.offset_getter_fn_name),
            final(self).done_fields@ == old(self).done_fields@.push(
                DoneField {
                    name: field.field_name,
                    field_type: field.field_type,
                    len: field.len,
                    end,
                    offset_getter_fn_name: field.offset_getter_fn_name,
                },
            ),
    {
        let (end, next) = place_field(self.offset, field.len);
        self.offset = next;
        self.last_offset_getter_fn_name = Some(field.offset_getter_fn_name.clone());
        self.done_fields.push(
            DoneField {
                name: field.field_name,
                field_type: field.field_type,
                len: field.len,
                end,
                offset_getter_fn_name: field.offset_getter_fn_name,
            },
        );
        end
    }

    /// Adds the field `name` whose type was generated with length `len` and
    /// kind `field_type`: the field takes that length and kind, is placed at
    /// the cursor, and where it ends is returned.
    pub fn add_generated_field(&mut self, name: &str, len: GenLen, field_type: DoneFieldType) -> (end:
        GenLen)
        requires
            old(self).offset.can_add(len),
        ensures
            end == len.spec_add(old(self).offset),
            final(self).offset == old(self).offset.spec_add(len),
            final(self).name == old(self).name,
            final(self).last_offset_getter_fn_name matches Some(g) && g@ == name@ + "_end_offset"@,
            final(self).done_fields@.len() == old(self).done_fields@.len() + 1,
            forall|i: int|
                0 <= i < old(self).done_fields@.len() ==> final(self).done_fields@[i] == old(
                    self,
                ).done_fields@[i],
            ({
                let d = final(self).done_fields@.last();
                &&& d.name@ == name@
                &&& d.field_type == field_type
                &&& d.len == len
                &&& d.end == end
                &&& d.offset_getter_fn_name@ == name@ + "_end_offset"@
            }),
    {
        let mut field = FieldState::new(name);
        field.len = len;
        field.field_type = field_type;
        self.add_field(field)
    }

    /// Records the finished struct in `registry` under its name, with its
    /// length: where its cursor ended.
    pub fn finish(&self, registry: &mut Registry)
        requires
            old(registry).wf(),
        ensures
            final(registry).wf(),
            final(registry).entries() == old(registry).entries().push((self.name@, self.offset)),
            registry_lookup(final(registry).entries(), self.name@) == Some(self.offset),
    {
        registry.insert(self.name.as_str(), self.offset);
    }
}

/// The length recorded last under `name`, if any.
pub open spec fn registry_lookup(entries: Seq<(Seq<char>, GenLen)>, name: Seq<char>) -> Option<
    GenLen,
>
    decreases entries.len(),
{
    if entries.len() == 0 {
        None
    } else if entries.last().0 == name {
        Some(entries.last().1)
    } else {
        registry_lookup(entries.drop_last(), name)
    }
}

/// Recording a struct under another name hides no earlier one: the lookup
/// of `name` is the same before and after `(other, len)` is recorded.
pub proof fn lemma_registry_other_name_keeps_lookup(
    entries: Seq<(Seq<char>, GenLen)>,
    other: Seq<char>,
    len: GenLen,
    name: Seq<char>,
)
    requires
        other != name,
    ensures
        registry_lookup(entries.push((other, len)), name) == registry_lookup(entries, name),
{
    assert(entries.push((other, len)).drop_last() =~= entries);
}

/// A recorded struct is found with the length of its last entry: where
/// entry `i` is recorded under `name` and no later entry is, the lookup of
/// `name` gives entry `i`'s length.
pub proof fn lemma_registry_finds_last_entry(
    entries: Seq<(Seq<char>, GenLen)>,
    name: Seq<char>,
    i: int,
)
    requires
        0 <= i < entries.len(),
        entries[i].0 == name,
        forall|j: int| i < j < entries.len() ==> (#[trigger] entries[j]).0 != name,
    ensures
        registry_lookup(entries, name) == Some(entries[i].1),
    decreases entries.len(),
{
    if i < entries.len() - 1 {
        let rest = entries.drop_last();
        assert(entries.last() == entries[entries.len() - 1]);
        assert forall|j: int| i < j < rest.len() implies (#[trigger] rest[j]).0 != name by {
            assert(rest[j] == entries[j]);
        }
        lemma_registry_finds_last_entry(rest, name, i);
    }
}

/// A name is found exactly when some entry was recorded under it.
pub proof fn lemma_registry_lookup_none_iff_absent(
    entries: Seq<(Seq<char>, GenLen)>,
    name: Seq<char>,
)
    ensures
        registry_lookup(entries, name) is None <==> forall|j: int|
            0 <= j < entries.len() ==> (#[trigger] entries[j]).0 != name,
    decreases entries.len(),
{
    if entries.len() > 0 {
        let rest = entries.drop_last();
        lemma_registry_lookup_none_iff_absent(rest, name);
        assert(entries.last() == entries[entries.len() - 1]);
        assert forall|j: int| 0 <= j < rest.len() implies rest[j] == entries[j] by {}
        if entries.last().0 != name {
            if registry_lookup(entries, name) is None {
                assert forall|j: int| 0 <= j < entries.len() implies (#[trigger] entries[j]).0
                    != name by {
                    if j < rest.len() {
                        assert(rest[j] == entries[j]);
                    }
                }
            } else {
                let k = choose|k: int| 0 <= k < rest.len() && (#[trigger] rest[k]).0 == name;
                assert(entries[k] == rest[k]);
            }
        }
    }
}

/// The structs generated so far, with their lengths; a later entry under
/// the same name replaces an earlier one.
#[derive(Debug)]
pub struct Registry {
    names: Vec<String>,
    lens: Vec<GenLen>,
}

impl Registry {
    /// Whether each recorded name has its length.
    pub closed spec fn wf(&self) -> bool {
        self.names@.len() == self.lens@.len()
    }

    /// The recorded names and lengths, in order.
    pub closed spec fn entries(&self) -> Seq<(Seq<char>, GenLen)> {
        Seq::new(self.names@.len(), |i: int| (self.names@[i]@, self.lens@[i]))
    }

    /// An empty registry.
    pub fn new() -> (r: Self)
        ensures
            r.wf(),
            r.entries() == Seq::<(Seq<char>, GenLen)>::empty(),
    {
        let r = Registry { names: Vec::new(), lens: Vec::new() };
        assert(r.entries() =~= Seq::<(Seq<char>, GenLen)>::empty());
        r
    }

    /// Records the struct `name` with length `len`.
    pub fn insert(&mut self, name: &str, len: GenLen)
        requires
            old(self).wf(),
        ensures
            final(self).wf(),
            final(self).entries() == old(self).entries().push((name@, len)),
    {
        self.names.push(<String as StringExecFns>::from_str(name));
        self.lens.push(len);
        assert(self.entries() =~= old(self).entries().push((name@, len)));
    }

    /// The length recorded last for the struct `name`, if any.
    pub fn get(&self, name: &str) -> (r: Option<GenLen>)
        requires
            self.wf(),
        ensures
            r == registry_lookup(self.entries(), name@),
    {
        let mut i = self.names.len();
        assert(self.entries().take(i as int) =~= self.entries());
        while i > 0
            invariant
                i <= self.entries().len(),
                self.wf(),
                registry_lookup(self.entries(), name@) == registry_lookup(
                    self.entries().take(i as int),
                    name@,
                ),
            decreases i,
        {
            let ghost prefix = self.entries().take(i as int);
            assert(prefix.drop_last() =~= self.entries().take(i - 1));
            assert(prefix.last() == self.entries()[i - 1]);
            if str_eq(self.names[i - 1].as_str(), name) {
                return Some(self.lens[i - 1]);
            }
            i -= 1;
        }
        assert(self.entries().take(0) =~= Seq::<(Seq<char>, GenLen)>::empty());
        None
    }
}

/// The length a field reports: its own when generated, none otherwise.
pub open spec fn field_len_of(res: Result<GenLen, field::Error>) -> GenLen {
    match res {
        Ok(l) => l,
        Err(_) => GenLen::Fixed(Len { byte: 0, bit: 0 }),
    }
}

/// The struct's cursor after its first `n` fields.
pub open spec fn fields_len(fields: Seq<(String, Result<GenLen, field::Error>)>, n: nat) -> GenLen
    decreases n,
{
    if n == 0 {
        GenLen::Fixed(Len { byte: 0, bit: 0 })
    } else {
        fields_len(fields, (n - 1) as nat).spec_add(field_len_of(fields[n - 1].1))
    }
}

/// Whether the fields before index `i` all were generated.
pub open spec fn all_ok_before(fields: Seq<(String, Result<GenLen, field::Error>)>, i: int) -> bool {
    forall|j: int| 0 <= j < i ==> (#[trigger] fields[j]).1 is Ok
}

/// Whether folding the fields' lengths, up to the first failed field, never
/// overflows.
#[verifier::opaque]
pub open spec fn fields_fit(fields: Seq<(String, Result<GenLen, field::Error>)>) -> bool {
    forall|i: int|
        0 <= i < fields.len() && all_ok_before(fields, i + 1) ==> fields_len(
            fields,
            i as nat,
        ).can_add(#[trigger] field_len_of(fields[i].1))
}

/// The number of bits the first `n` fields hold, counting a field whose
/// length is only known at parse time as none.
pub open spec fn fixed_bits_sum(fields: Seq<(String, Result<GenLen, field::Error>)>, n: nat) -> int
    decreases n,
{
    if n == 0 {
        0
    } else {
        fixed_bits_sum(fields, (n - 1) as nat) + match field_len_of(fields[n - 1].1) {
            GenLen::Fixed(l) => l.total_bits(),
            GenLen::Dynamic => 0,
        }
    }
}

/// Whether one of the first `n` fields has a length only known at parse time.
pub open spec fn has_dynamic_field(fields: Seq<(String, Result<GenLen, field::Error>)>, n: nat) -> bool {
    exists|j: int| 0 <= j < n && (#[trigger] fields[j]).1 == Ok::<GenLen, field::Error>(GenLen::Dynamic)
}

/// A struct's length is the sum of its fields' lengths, where a length only
/// known at parse time absorbs the rest: while the first `n` fields were all
/// generated, their sum is fixed exactly when every one of them is, and then
/// holds as many bits as they do together, normalized when each fixed field
/// length is.
pub proof fn lemma_fields_len_sum(fields: Seq<(String, Result<GenLen, field::Error>)>, n: nat)
    requires
        fields_fit(fields),
        n <= fields.len(),
        all_ok_before(fields, n as int),
    ensures
        fields_len(fields, n) is Dynamic <==> has_dynamic_field(fields, n),
        fields_len(fields, n) matches GenLen::Fixed(l) ==> l.total_bits() == fixed_bits_sum(fields, n),
        (forall|j: int|
            0 <= j < n ==> ((#[trigger] field_len_of(fields[j].1)) matches GenLen::Fixed(f)
                ==> f.is_normalized())) ==> (fields_len(fields, n) matches GenLen::Fixed(l)
            ==> l.is_normalized()),
    decreases n,
{
    if n > 0 {
        let k = (n - 1) as nat;
        assert(all_ok_before(fields, k as int));
        lemma_fields_len_sum(fields, k);
        let prev = fields_len(fields, k);
        let f = field_len_of(fields[k as int].1);
        assert(fields[k as int].1 is Ok);
        assert(fields[k as int].1 == Ok::<GenLen, field::Error>(f));
        if has_dynamic_field(fields, k) {
            let j = choose|j: int|
                0 <= j < k && (#[trigger] fields[j]).1 == Ok::<GenLen, field::Error>(GenLen::Dynamic);
            assert(0 <= j < n && fields[j].1 == Ok::<GenLen, field::Error>(GenLen::Dynamic));
        }
        if f is Dynamic {
            assert(fields[k as int].1 == Ok::<GenLen, field::Error>(GenLen::Dynamic));
        }
        if has_dynamic_field(fields, n) && !has_dynamic_field(fields, k) {
            let j = choose|j: int|
                0 <= j < n && (#[trigger] fields[j]).1 == Ok::<GenLen, field::Error>(GenLen::Dynamic);
            assert(j == k);
        }
        match (prev, f) {
            (GenLen::Fixed(a), GenLen::Fixed(b)) => {
                assert(all_ok_before(fields, n as int));
                assert(prev.can_add(f)) by {
                    reveal(fields_fit);
                }
                crate::len::lemma_add_preserves_total_bits(a, b);
                if a.is_normalized() && b.is_normalized() {
                    crate::len::lemma_add_keeps_normalized(a, b);
                }
            },
            _ => {},
        }
    }
}

/// Folds the generated fields of a struct, in order, into its length.
///
/// `fields` holds each field's name and what generating it gave. The first
/// field that failed fails the struct, reported by its name; otherwise the
/// struct's length is the sum of its fields' lengths.
pub fn struct_len(fields: Vec<(String, Result<GenLen, field::Error>)>) -> (r: Result<
    GenLen,
    Error,
>)
    requires
        fields_fit(fields@),
    ensures
        all_ok_before(fields@, fields@.len() as int) ==> r == Ok::<GenLen, Error>(
            fields_len(fields@, fields@.len() as nat),
        ),
        forall|i: int|
            0 <= i < fields@.len() && #[trigger] fields@[i].1 is Err && all_ok_before(fields@, i)
                ==> (r matches Err(Error::Field { name, error }) && name == fields@[i].0
                && fields@[i].1 == Err::<GenLen, field::Error>(error)),
        all_ok_before(fields@, fields@.len() as int) ==> (r == Ok::<GenLen, Error>(GenLen::Dynamic)
            <==> has_dynamic_field(fields@, fields@.len() as nat)),
        all_ok_before(fields@, fields@.len() as int) ==> (r matches Ok(GenLen::Fixed(l))
            ==> l.total_bits() == fixed_bits_sum(fields@, fields@.len() as nat)),
{
    let ghost all = fields@;
    let mut rest = fields;
    let mut sum = GenLen::Fixed(Len { byte: 0, bit: 0 });
    let mut i: usize = 0;
    while i < rest.len()
        invariant
            rest@ == all,
            all == fields@,
            i <= rest@.len(),
            all_ok_before(all, i as int),
            sum == fields_len(all, i as nat),
            fields_fit(all),
        decreases rest@.len() - i,
    {
        let step: Option<GenLen> = match &rest[i].1 {
            Ok(l) => Some(*l),
            Err(_) => None,
        };
        assert(step matches Some(l) ==> all[i as int].1 == Ok::<GenLen, field::Error>(l));
        assert(step is None ==> all[i as int].1 is Err);
        match step {
            Some(l) => {
                assert(all_ok_before(all, i + 1));
                assert(field_len_of(all[i as int].1) == l);
                assert(sum.can_add(l)) by {
                    reveal(fields_fit);
                }
                sum = sum.add(l);
                i += 1;
            },
            None => {
                let (name, res) = rest.remove(i);
                assert(name == all[i as int].0 && res == all[i as int].1);
                match res {
                    Err(error) => {
                        assert(!all_ok_before(all, all.len() as int)) by {
                            assert(all[i as int].1 is Err);
                        }
                        assert forall|k: int|
                            0 <= k < all.len() && #[trigger] all[k].1 is Err && all_ok_before(
                                all,
                                k,
                            ) implies k == i by {
                            if k < i {
                            } else if k > i {
                                assert(all[i as int].1 is Ok);
                            }
                        }
                        return Err(Error::Field { name, error });
                    },
                    Ok(_) => {
                        proof {
                            assert(false);
                        }
                        return Ok(sum);
                    },
                }
            },
        }
    }
    assert forall|k: int|
        0 <= k < all.len() && #[trigger] all[k].1 is Err && all_ok_before(all, k) implies false by {
        assert(all[k].1 is Ok);
    }
    proof {
        lemma_fields_len_sum(all, all.len() as nat);
    }
    Ok(sum)
}

/// The end of a struct whose fields end at `ends`: its last field's end, or
/// zero without fields.
pub open spec fn struct_end(ends: Seq<Len>) -> Len {
    if ends.len() == 0 {
        Len { byte: 0, bit: 0 }
    } else {
        ends.last()
    }
}

/// Whether the fields ending at `ends[..n]` all fit in `data_len` bytes.
pub open spec fn ends_fit(ends: Seq<Len>, n: int, data_len: int) -> bool {
    forall|j: int| 0 <= j < n ==> byte_ceil_of(#[trigger] ends[j]) <= data_len
}

/// The length check a generated `parse` makes before it splits its input,
/// given where each field ends, in order (what the fields' end getters
/// report).
///
/// The struct must end on a byte boundary. Then the fields are checked in
/// order: the first one whose bytes run past the input is reported, with the
/// number of bytes it needs. Otherwise the struct's bytes are where the rest
/// of the input starts.
pub fn parse_len_check(ends: &[Len], data_len: usize) -> (r: Result<usize, ParseError>)
    requires
        forall|j: int| 0 <= j < ends@.len() ==> (#[trigger] ends@[j]).bit > 0 ==> ends@[j].byte
            < usize::MAX,
    ensures
        struct_end(ends@).bit != 0 ==> r == Err::<usize, ParseError>(
            ParseError::UnalignedLength(struct_end(ends@)),
        ),
        struct_end(ends@).bit == 0 ==> forall|i: int|
            0 <= i < ends@.len() && ends_fit(ends@, i, data_len as int) && byte_ceil_of(
                #[trigger] ends@[i],
            ) > data_len ==> r == Err::<usize, ParseError>(
                ParseError::NotEnoughData { expected: byte_ceil_of(ends@[i]) as usize, got: data_len },
            ),
        struct_end(ends@).bit == 0 && ends_fit(ends@, ends@.len() as int, data_len as int) ==> r
            == Ok::<usize, ParseError>(struct_end(ends@).byte),
{
    let total = if ends.len() == 0 {
        Len { byte: 0, bit: 0 }
    } else {
        ends[ends.len() - 1]
    };
    if total.bit != 0 {
        return Err(ParseError::UnalignedLength(total));
    }
    let mut i: usize = 0;
    while i < ends.len()
        invariant
            i <= ends@.len(),
            total == struct_end(ends@),
            total.bit == 0,
            ends_fit(ends@, i as int, data_len as int),
            forall|j: int| 0 <= j < ends@.len() ==> (#[trigger] ends@[j]).bit > 0 ==> ends@[j].byte
                < usize::MAX,
        decreases ends@.len() - i,
    {
        let needed = ends[i].byte_ceil();
        if needed > data_len {
            proof {
                assert forall|k: int|
                    0 <= k < ends@.len() && ends_fit(ends@, k, data_len as int) && byte_ceil_of(
                        #[trigger] ends@[k],
                    ) > data_len implies k == i by {
                    if k > i {
                        assert(byte_ceil_of(ends@[i as int]) <= data_len);
                    }
                }
            }
            return Err(ParseError::NotEnoughData { expected: needed, got: data_len });
        }
        i += 1;
    }
    proof {
        assert forall|k: int|
            0 <= k < ends@.len() && ends_fit(ends@, k, data_len as int) && byte_ceil_of(
                #[trigger] ends@[k],
            ) > data_len implies false by {
            assert(byte_ceil_of(ends@[k]) <= data_len);
        }
    }
    Ok(total.byte)
}

} // verus!
