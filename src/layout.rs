//! The layout engine: size, alignment and flat representation of every encodable type.
use vstd::prelude::*;

use crate::flat::{join, join_spec, FlatType, Sealed};

verus! {

/// Describes an encodable type.
///
/// A record's fields and each variant's fields are laid out in declaration order with natural
/// alignment padding. `Option<T>` is `Variant([[], [T]])` and `Result<T, E>` is
/// `Variant([[T], [E]])`.
#[derive(Debug, PartialEq, Eq)]
pub enum TypeDescriptor {
    Unit,
    Bool,
    U8,
    S8,
    U16,
    S16,
    U32,
    S32,
    U64,
    S64,
    U128,
    S128,
    Float32,
    Float64,
    Text,
    List(Box<TypeDescriptor>),
    Record(Vec<TypeDescriptor>),
    Variant(Vec<Vec<TypeDescriptor>>),
}

pub open spec fn max_nat(a: nat, b: nat) -> nat {
    if a >= b {
        a
    } else {
        b
    }
}

/// Bytes needed after `offset` to reach a multiple of `alignment`.
pub open spec fn padding_spec(offset: nat, alignment: nat) -> nat {
    if alignment == 0 {
        0
    } else {
        ((alignment - offset % alignment) % alignment as int) as nat
    }
}

pub open spec fn align_up(offset: nat, alignment: nat) -> nat {
    offset + padding_spec(offset, alignment)
}

/// Width in bytes of the discriminant of an enum with `count` variants.
pub open spec fn discriminant_width_spec(count: nat) -> nat {
    if count <= 256 {
        1
    } else if count <= 65536 {
        2
    } else {
        4
    }
}

/// Byte length of a value of type `t` in linear memory.
pub open spec fn size_of(t: TypeDescriptor) -> nat
    decreases t,
{
    match t {
        TypeDescriptor::Unit => 0,
        TypeDescriptor::Bool | TypeDescriptor::U8 | TypeDescriptor::S8 => 1,
        TypeDescriptor::U16 | TypeDescriptor::S16 => 2,
        TypeDescriptor::U32 | TypeDescriptor::S32 | TypeDescriptor::Float32 => 4,
        TypeDescriptor::U64 | TypeDescriptor::S64 | TypeDescriptor::Float64 => 8,
        TypeDescriptor::U128 | TypeDescriptor::S128 => 16,
        TypeDescriptor::Text | TypeDescriptor::List(_) => 8,
        TypeDescriptor::Record(fields) => fields_end(fields@, 0),
        TypeDescriptor::Variant(variants) => variants_end(
            variants@,
            discriminant_width_spec(variants@.len()),
        ),
    }
}

/// Alignment of a value of type `t` in linear memory.
pub open spec fn alignment_of(t: TypeDescriptor) -> nat
    decreases t,
{
    match t {
        TypeDescriptor::Unit => 1,
        TypeDescriptor::Bool | TypeDescriptor::U8 | TypeDescriptor::S8 => 1,
        TypeDescriptor::U16 | TypeDescriptor::S16 => 2,
        TypeDescriptor::U32 | TypeDescriptor::S32 | TypeDescriptor::Float32 => 4,
        TypeDescriptor::U64 | TypeDescriptor::S64 | TypeDescriptor::Float64 => 8,
        TypeDescriptor::U128 | TypeDescriptor::S128 => 8,
        TypeDescriptor::Text | TypeDescriptor::List(_) => 4,
        TypeDescriptor::Record(fields) => fields_alignment(fields@),
        TypeDescriptor::Variant(variants) => max_nat(
            discriminant_width_spec(variants@.len()),
            variants_alignment(variants@),
        ),
    }
}

/// Offset just past the last of `fields`, laid out from offset `start`.
pub open spec fn fields_end(fields: Seq<TypeDescriptor>, start: nat) -> nat
    decreases fields,
{
    if fields.len() == 0 {
        start
    } else {
        align_up(fields_end(fields.drop_last(), start), alignment_of(fields.last()))
            + size_of(fields.last())
    }
}

/// Largest alignment among `fields`, and at least 1.
pub open spec fn fields_alignment(fields: Seq<TypeDescriptor>) -> nat
    decreases fields,
{
    if fields.len() == 0 {
        1
    } else {
        max_nat(fields_alignment(fields.drop_last()), alignment_of(fields.last()))
    }
}

/// Offset of a case's payload after a discriminant of `width` bytes: the next offset aligned for
/// the case's fields taken as a record.
pub open spec fn payload_offset(width: nat, case: Seq<TypeDescriptor>) -> nat {
    align_up(width, fields_alignment(case))
}

/// Largest end offset among the variants, each payload laid out as a record at its
/// `payload_offset` after a discriminant of `start` bytes.
pub open spec fn variants_end(variants: Seq<Vec<TypeDescriptor>>, start: nat) -> nat
    decreases variants,
{
    if variants.len() == 0 {
        start
    } else {
        max_nat(
            variants_end(variants.drop_last(), start),
            fields_end(variants.last()@, payload_offset(start, variants.last()@)),
        )
    }
}

pub open spec fn variants_alignment(variants: Seq<Vec<TypeDescriptor>>) -> nat
    decreases variants,
{
    if variants.len() == 0 {
        1
    } else {
        max_nat(variants_alignment(variants.drop_last()), fields_alignment(variants.last()@))
    }
}

/// Position-wise join of two flat layouts; the longer one's tail is kept.
pub open spec fn merge_flat(a: Seq<FlatType>, b: Seq<FlatType>) -> Seq<FlatType> {
    Seq::new(
        if a.len() >= b.len() {
            a.len()
        } else {
            b.len()
        },
        |i: int|
            if i < a.len() && i < b.len() {
                join_spec(a[i], b[i])
            } else if i < a.len() {
                a[i]
            } else {
                b[i]
            },
    )
}

/// The flat representation of a value of type `t`.
pub open spec fn flat_of(t: TypeDescriptor) -> Seq<FlatType>
    decreases t,
{
    match t {
        TypeDescriptor::Unit => seq![],
        TypeDescriptor::Bool | TypeDescriptor::U8 | TypeDescriptor::S8 | TypeDescriptor::U16
        | TypeDescriptor::S16 | TypeDescriptor::U32 | TypeDescriptor::S32 => seq![FlatType::I32],
        TypeDescriptor::U64 | TypeDescriptor::S64 => seq![FlatType::I64],
        TypeDescriptor::Float32 => seq![FlatType::F32],
        TypeDescriptor::Float64 => seq![FlatType::F64],
        TypeDescriptor::U128 | TypeDescriptor::S128 => seq![FlatType::I64, FlatType::I64],
        TypeDescriptor::Text | TypeDescriptor::List(_) => seq![FlatType::I32, FlatType::I32],
        TypeDescriptor::Record(fields) => fields_flat(fields@),
        TypeDescriptor::Variant(variants) => seq![FlatType::I32] + variants_flat(variants@),
    }
}

/// Concatenation of the fields' flat representations.
pub open spec fn fields_flat(fields: Seq<TypeDescriptor>) -> Seq<FlatType>
    decreases fields,
{
    if fields.len() == 0 {
        seq![]
    } else {
        fields_flat(fields.drop_last()) + flat_of(fields.last())
    }
}

/// The overlay of all variants' flat representations.
pub open spec fn variants_flat(variants: Seq<Vec<TypeDescriptor>>) -> Seq<FlatType>
    decreases variants,
{
    if variants.len() == 0 {
        seq![]
    } else {
        merge_flat(variants_flat(variants.drop_last()), fields_flat(variants.last()@))
    }
}


/// Whether every size that appears in `t` fits in 32 bits.
pub open spec fn well_formed(t: TypeDescriptor) -> bool
    decreases t,
{
    size_of(t) <= u32::MAX && match t {
        TypeDescriptor::List(element) => well_formed(*element),
        TypeDescriptor::Record(fields) => all_well_formed(fields@),
        TypeDescriptor::Variant(variants) => variants@.len() <= u32::MAX
            && all_variants_well_formed(variants@),
        _ => true,
    }
}

pub open spec fn all_well_formed(fields: Seq<TypeDescriptor>) -> bool
    decreases fields,
{
    fields.len() == 0 || (all_well_formed(fields.drop_last()) && well_formed(fields.last()))
}

pub open spec fn all_variants_well_formed(variants: Seq<Vec<TypeDescriptor>>) -> bool
    decreases variants,
{
    variants.len() == 0 || (all_variants_well_formed(variants.drop_last()) && all_well_formed(
        variants.last()@,
    ))
}

pub proof fn lemma_all_well_formed(fields: Seq<TypeDescriptor>)
    ensures
        all_well_formed(fields) <==> forall|i: int|
            0 <= i < fields.len() ==> #[trigger] well_formed(fields[i]),
    decreases fields.len(),
{
    if fields.len() > 0 {
        lemma_all_well_formed(fields.drop_last());
        if all_well_formed(fields) {
            assert forall|i: int| 0 <= i < fields.len() implies #[trigger] well_formed(
                fields[i],
            ) by {
                if i < fields.len() - 1 {
                    assert(fields.drop_last()[i] == fields[i]);
                }
            }
        }
        if forall|i: int| 0 <= i < fields.len() ==> #[trigger] well_formed(fields[i]) {
            assert forall|i: int| 0 <= i < fields.drop_last().len() implies #[trigger] well_formed(
                fields.drop_last()[i],
            ) by {
                assert(fields.drop_last()[i] == fields[i]);
            }
            assert(well_formed(fields[fields.len() - 1]));
        }
    }
}

pub proof fn lemma_all_variants_well_formed(variants: Seq<Vec<TypeDescriptor>>)
    ensures
        all_variants_well_formed(variants) <==> forall|i: int|
            0 <= i < variants.len() ==> #[trigger] all_well_formed(variants[i]@),
    decreases variants.len(),
{
    if variants.len() > 0 {
        lemma_all_variants_well_formed(variants.drop_last());
        if all_variants_well_formed(variants) {
            assert forall|i: int| 0 <= i < variants.len() implies #[trigger] all_well_formed(
                variants[i]@,
            ) by {
                if i < variants.len() - 1 {
                    assert(variants.drop_last()[i] == variants[i]);
                }
            }
        }
        if forall|i: int| 0 <= i < variants.len() ==> #[trigger] all_well_formed(variants[i]@) {
            assert forall|i: int|
                0 <= i < variants.drop_last().len() implies #[trigger] all_well_formed(
                variants.drop_last()[i]@,
            ) by {
                assert(variants.drop_last()[i] == variants[i]);
            }
            assert(all_well_formed(variants[variants.len() - 1]@));
        }
    }
}

pub open spec fn is_power_of_two_up_to_eight(a: nat) -> bool {
    a == 1 || a == 2 || a == 4 || a == 8
}

/// A prefix of a field list ends no later than the whole list.
pub proof fn lemma_fields_end_prefix(fields: Seq<TypeDescriptor>, start: nat, i: int)
    requires
        0 <= i <= fields.len(),
    ensures
        start <= fields_end(fields.take(i), start) <= fields_end(fields, start),
    decreases fields.len(),
{
    if i == fields.len() {
        assert(fields.take(i) =~= fields);
        lemma_fields_end_grows(fields, start);
    } else {
        lemma_fields_end_prefix(fields.drop_last(), start, i);
        assert(fields.drop_last().take(i) =~= fields.take(i));
    }
}

/// Laying out fields never moves the end backwards.
pub proof fn lemma_fields_end_grows(fields: Seq<TypeDescriptor>, start: nat)
    ensures
        start <= fields_end(fields, start),
    decreases fields.len(),
{
    if fields.len() > 0 {
        lemma_fields_end_grows(fields.drop_last(), start);
    }
}

/// The end after `i + 1` fields, from the end after `i`.
pub proof fn lemma_fields_end_step(fields: Seq<TypeDescriptor>, start: nat, i: int)
    requires
        0 <= i < fields.len(),
    ensures
        fields_end(fields.take(i + 1), start) == align_up(
            fields_end(fields.take(i), start),
            alignment_of(fields[i]),
        ) + size_of(fields[i]),
        fields_flat(fields.take(i + 1)) == fields_flat(fields.take(i)) + flat_of(fields[i]),
        fields_alignment(fields.take(i + 1)) == max_nat(
            fields_alignment(fields.take(i)),
            alignment_of(fields[i]),
        ),
{
    assert(fields.take(i + 1).drop_last() =~= fields.take(i));
}

/// A prefix of a field list has no more flat slots than the whole list.
pub proof fn lemma_fields_flat_prefix(fields: Seq<TypeDescriptor>, i: int)
    requires
        0 <= i <= fields.len(),
    ensures
        fields_flat(fields.take(i)).len() <= fields_flat(fields).len(),
    decreases fields.len(),
{
    if i == fields.len() {
        assert(fields.take(i) =~= fields);
    } else {
        lemma_fields_flat_prefix(fields.drop_last(), i);
        assert(fields.drop_last().take(i) =~= fields.take(i));
    }
}

/// Every alignment is 1, 2, 4 or 8.
pub proof fn lemma_alignment_power_of_two(t: TypeDescriptor)
    ensures
        is_power_of_two_up_to_eight(alignment_of(t)),
    decreases t,
{
    match t {
        TypeDescriptor::Record(fields) => lemma_fields_alignment_power_of_two(fields@),
        TypeDescriptor::Variant(variants) => lemma_variants_alignment_power_of_two(variants@),
        _ => {},
    }
}

pub proof fn lemma_fields_alignment_power_of_two(fields: Seq<TypeDescriptor>)
    ensures
        is_power_of_two_up_to_eight(fields_alignment(fields)),
    decreases fields,
{
    if fields.len() > 0 {
        lemma_fields_alignment_power_of_two(fields.drop_last());
        lemma_alignment_power_of_two(fields.last());
    }
}

pub proof fn lemma_variants_alignment_power_of_two(variants: Seq<Vec<TypeDescriptor>>)
    ensures
        is_power_of_two_up_to_eight(variants_alignment(variants)),
    decreases variants,
{
    if variants.len() > 0 {
        lemma_variants_alignment_power_of_two(variants.drop_last());
        lemma_fields_alignment_power_of_two(variants.last()@);
    }
}

/// The discriminant width for an enum with `count` variants: 1, 2 or 4 bytes.
pub fn discriminant_width(count: usize) -> (r: u32)
    ensures
        r == discriminant_width_spec(count as nat),
{
    if count <= 256 {
        1
    } else if count <= 65536 {
        2
    } else {
        4
    }
}

/// Padding that moves `offset` to the next multiple of `alignment`.
pub fn padding(offset: u32, alignment: u32) -> (r: u32)
    requires
        is_power_of_two_up_to_eight(alignment as nat),
    ensures
        r == padding_spec(offset as nat, alignment as nat),
        r < alignment,
{
    (alignment - offset % alignment) % alignment
}

/// Merging the flat layouts of two variant cases into one overlay.
pub trait Merge: Sealed {
    spec fn slot_types(&self) -> Seq<FlatType>;

    /// Joins the two layouts position by position; the longer one's tail is kept.
    fn merge(&self, other: &Self) -> (r: Vec<FlatType>)
        ensures
            r@ == merge_flat(self.slot_types(), other.slot_types()),
    ;
}

impl Merge for Vec<FlatType> {
    open spec fn slot_types(&self) -> Seq<FlatType> {
        self@
    }

    fn merge(&self, other: &Self) -> (r: Vec<FlatType>) {
        let a = self;
        let b = other;
        let n = if a.len() >= b.len() {
            a.len()
        } else {
            b.len()
        };
        let mut r: Vec<FlatType> = Vec::new();
        let mut i: usize = 0;
        while i < n
            invariant
                i <= n,
                n == if a@.len() >= b@.len() {
                    a@.len()
                } else {
                    b@.len()
                },
                r@ =~= merge_flat(a@, b@).take(i as int),
            decreases n - i,
        {
            let slot = if i < a.len() && i < b.len() {
                join(a[i], b[i])
            } else if i < a.len() {
                a[i]
            } else {
                b[i]
            };
            r.push(slot);
            i = i + 1;
        }
        assert(r@ =~= merge_flat(a@, b@));
        r
    }
}


/// Bounds on the end offsets of a prefix of variants and of each variant.
pub proof fn lemma_variants_end_bounds(variants: Seq<Vec<TypeDescriptor>>, start: nat, i: int)
    requires
        0 <= i <= variants.len(),
    ensures
        start <= variants_end(variants.take(i), start) <= variants_end(variants, start),
        i < variants.len() ==> start <= payload_offset(start, variants[i]@) <= fields_end(
            variants[i]@,
            payload_offset(start, variants[i]@),
        ) <= variants_end(variants, start),
    decreases variants.len(),
{
    if i < variants.len() {
        lemma_fields_end_grows(variants[i]@, payload_offset(start, variants[i]@));
    }
    if i == variants.len() {
        assert(variants.take(i) =~= variants);
        lemma_variants_end_grows(variants, start);
    } else {
        lemma_variants_end_bounds(variants.drop_last(), start, i);
        assert(variants.drop_last().take(i) =~= variants.take(i));
        if i < variants.len() - 1 {
            assert(variants.drop_last()[i] == variants[i]);
        }
    }
}

pub proof fn lemma_variants_end_grows(variants: Seq<Vec<TypeDescriptor>>, start: nat)
    ensures
        start <= variants_end(variants, start),
    decreases variants.len(),
{
    if variants.len() > 0 {
        lemma_variants_end_grows(variants.drop_last(), start);
    }
}

/// The end, the alignment and the overlay after `i + 1` variants, from those after `i`.
pub proof fn lemma_variants_step(variants: Seq<Vec<TypeDescriptor>>, start: nat, i: int)
    requires
        0 <= i < variants.len(),
    ensures
        variants_end(variants.take(i + 1), start) == max_nat(
            variants_end(variants.take(i), start),
            fields_end(variants[i]@, payload_offset(start, variants[i]@)),
        ),
        variants_alignment(variants.take(i + 1)) == max_nat(
            variants_alignment(variants.take(i)),
            fields_alignment(variants[i]@),
        ),
        variants_flat(variants.take(i + 1)) == merge_flat(
            variants_flat(variants.take(i)),
            fields_flat(variants[i]@),
        ),
{
    assert(variants.take(i + 1).drop_last() =~= variants.take(i));
}

/// A multiple of a larger power of two up to 8 is a multiple of a smaller one.
proof fn lemma_multiple_of_smaller_power(p: nat, big: nat, small: nat)
    requires
        is_power_of_two_up_to_eight(big),
        is_power_of_two_up_to_eight(small),
        small <= big,
        p % big == 0,
    ensures
        p % small == 0,
{
    if big == 8 && small == 4 {
        assert(p % 4 == 0) by (nonlinear_arith) requires p % 8 == 0;
    } else if big == 8 && small == 2 {
        assert(p % 2 == 0) by (nonlinear_arith) requires p % 8 == 0;
    } else if big == 4 && small == 2 {
        assert(p % 2 == 0) by (nonlinear_arith) requires p % 4 == 0;
    }
}

/// Laying fields out from an offset aligned for all of them shifts the whole layout.
pub proof fn lemma_fields_end_shift(fields: Seq<TypeDescriptor>, p: nat)
    requires
        p % fields_alignment(fields) == 0,
    ensures
        fields_end(fields, p) == p + fields_end(fields, 0),
    decreases fields.len(),
{
    lemma_fields_alignment_power_of_two(fields);
    if fields.len() > 0 {
        let dl = fields.drop_last();
        let last = fields.last();
        lemma_fields_alignment_power_of_two(dl);
        lemma_alignment_power_of_two(last);
        lemma_multiple_of_smaller_power(p, fields_alignment(fields), fields_alignment(dl));
        lemma_multiple_of_smaller_power(p, fields_alignment(fields), alignment_of(last));
        lemma_fields_end_shift(dl, p);
        let e = fields_end(dl, 0);
        let a = alignment_of(last);
        vstd::arithmetic::div_mod::lemma_add_mod_noop(p as int, e as int, a as int);
        vstd::arithmetic::div_mod::lemma_mod_twice(e as int, a as int);
    }
}

/// An enum is at least as large as its discriminant followed by each case's payload, placed as a
/// record at its aligned `payload_offset`.
pub proof fn lemma_variant_payload_layout(t: TypeDescriptor, i: int)
    requires
        t is Variant,
        0 <= i < t->Variant_0@.len(),
    ensures
        ({
            let cases = t->Variant_0@;
            let w = discriminant_width_spec(cases.len());
            let payload = payload_offset(w, cases[i]@);
            &&& payload % fields_alignment(cases[i]@) == 0
            &&& w <= payload
            &&& fields_end(cases[i]@, payload) == payload + fields_end(cases[i]@, 0)
            &&& payload + fields_end(cases[i]@, 0) <= size_of(t)
            &&& w + fields_end(cases[i]@, 0) <= size_of(t)
        }),
{
    let cases = t->Variant_0@;
    let w = discriminant_width_spec(cases.len());
    let a = fields_alignment(cases[i]@);
    lemma_fields_alignment_power_of_two(cases[i]@);
    let payload = payload_offset(w, cases[i]@);
    assert(payload % a == 0) by (nonlinear_arith)
        requires
            payload as int == w + ((a - w % a) % (a as int)),
            a > 0,
    ;
    lemma_fields_end_shift(cases[i]@, payload);
    lemma_variants_end_bounds(cases, w, i);
}

impl TypeDescriptor {
    /// Byte length of a value of this type in linear memory.
    pub fn size(&self) -> (r: u32)
        requires
            well_formed(*self),
        ensures
            r == size_of(*self),
        decreases self,
    {
        match self {
            TypeDescriptor::Unit => 0,
            TypeDescriptor::Bool | TypeDescriptor::U8 | TypeDescriptor::S8 => 1,
            TypeDescriptor::U16 | TypeDescriptor::S16 => 2,
            TypeDescriptor::U32 | TypeDescriptor::S32 | TypeDescriptor::Float32 => 4,
            TypeDescriptor::U64 | TypeDescriptor::S64 | TypeDescriptor::Float64 => 8,
            TypeDescriptor::U128 | TypeDescriptor::S128 => 16,
            TypeDescriptor::Text | TypeDescriptor::List(_) => 8,
            TypeDescriptor::Record(fields) => fields_end_of(fields, 0),
            TypeDescriptor::Variant(variants) => {
                let width = discriminant_width(variants.len());
                variants_end_of(variants, width)
            },
        }
    }

    /// Alignment of a value of this type in linear memory.
    pub fn alignment(&self) -> (r: u32)
        ensures
            r == alignment_of(*self),
            is_power_of_two_up_to_eight(r as nat),
        decreases self,
    {
        proof {
            lemma_alignment_power_of_two(*self);
        }
        match self {
            TypeDescriptor::Unit => 1,
            TypeDescriptor::Bool | TypeDescriptor::U8 | TypeDescriptor::S8 => 1,
            TypeDescriptor::U16 | TypeDescriptor::S16 => 2,
            TypeDescriptor::U32 | TypeDescriptor::S32 | TypeDescriptor::Float32 => 4,
            TypeDescriptor::U64 | TypeDescriptor::S64 | TypeDescriptor::Float64 => 8,
            TypeDescriptor::U128 | TypeDescriptor::S128 => 8,
            TypeDescriptor::Text | TypeDescriptor::List(_) => 4,
            TypeDescriptor::Record(fields) => fields_alignment_of(fields),
            TypeDescriptor::Variant(variants) => {
                let width = discriminant_width(variants.len());
                let body = variants_alignment_of(variants);
                if width >= body {
                    width
                } else {
                    body
                }
            },
        }
    }

    /// The flat representation: the register-class slots a value of this type occupies.
    pub fn flat_layout(&self) -> (r: Vec<FlatType>)
        ensures
            r@ == flat_of(*self),
        decreases self,
    {
        match self {
            TypeDescriptor::Unit => Vec::new(),
            TypeDescriptor::Bool | TypeDescriptor::U8 | TypeDescriptor::S8 | TypeDescriptor::U16
            | TypeDescriptor::S16 | TypeDescriptor::U32 | TypeDescriptor::S32 => vec![FlatType::I32],
            TypeDescriptor::U64 | TypeDescriptor::S64 => vec![FlatType::I64],
            TypeDescriptor::Float32 => vec![FlatType::F32],
            TypeDescriptor::Float64 => vec![FlatType::F64],
            TypeDescriptor::U128 | TypeDescriptor::S128 => vec![FlatType::I64, FlatType::I64],
            TypeDescriptor::Text | TypeDescriptor::List(_) => vec![FlatType::I32, FlatType::I32],
            TypeDescriptor::Record(fields) => fields_flat_of(fields),
            TypeDescriptor::Variant(variants) => {
                let mut r = vec![FlatType::I32];
                let mut body = variants_flat_of(variants);
                r.append(&mut body);
                r
            },
        }
    }

    /// Number of flat slots a value of this type occupies.
    pub fn count(&self) -> (r: usize)
        ensures
            r == flat_of(*self).len(),
    {
        self.flat_layout().len()
    }
}

/// End offset of `fields` laid out from `start`.
pub fn fields_end_of(fields: &Vec<TypeDescriptor>, start: u32) -> (r: u32)
    requires
        all_well_formed(fields@),
        fields_end(fields@, start as nat) <= u32::MAX,
    ensures
        r == fields_end(fields@, start as nat),
    decreases fields@,
{
    proof {
        lemma_all_well_formed(fields@);
    }
    let mut end = start;
    let mut i: usize = 0;
    while i < fields.len()
        invariant
            i <= fields@.len(),
            end == fields_end(fields@.take(i as int), start as nat),
            forall|k: int| 0 <= k < fields@.len() ==> #[trigger] well_formed(fields@[k]),
            fields_end(fields@, start as nat) <= u32::MAX,
        decreases fields@.len() - i,
    {
        proof {
            lemma_fields_end_step(fields@, start as nat, i as int);
            lemma_fields_end_prefix(fields@, start as nat, i as int + 1);
        }
        let alignment = fields[i].alignment();
        let size = fields[i].size();
        end = end + padding(end, alignment) + size;
        i = i + 1;
    }
    assert(fields@.take(fields@.len() as int) =~= fields@);
    end
}

/// Largest alignment among `fields`, and at least 1.
pub fn fields_alignment_of(fields: &Vec<TypeDescriptor>) -> (r: u32)
    ensures
        r == fields_alignment(fields@),
    decreases fields@,
{
    let mut r: u32 = 1;
    let mut i: usize = 0;
    while i < fields.len()
        invariant
            i <= fields@.len(),
            r == fields_alignment(fields@.take(i as int)),
        decreases fields@.len() - i,
    {
        proof {
            lemma_fields_end_step(fields@, 0, i as int);
        }
        let a = fields[i].alignment();
        if a > r {
            r = a;
        }
        i = i + 1;
    }
    assert(fields@.take(fields@.len() as int) =~= fields@);
    r
}

/// Concatenation of the fields' flat representations.
pub fn fields_flat_of(fields: &Vec<TypeDescriptor>) -> (r: Vec<FlatType>)
    ensures
        r@ == fields_flat(fields@),
    decreases fields@,
{
    let mut r: Vec<FlatType> = Vec::new();
    let mut i: usize = 0;
    while i < fields.len()
        invariant
            i <= fields@.len(),
            r@ == fields_flat(fields@.take(i as int)),
        decreases fields@.len() - i,
    {
        proof {
            lemma_fields_end_step(fields@, 0, i as int);
        }
        let mut part = fields[i].flat_layout();
        r.append(&mut part);
        i = i + 1;
    }
    assert(fields@.take(fields@.len() as int) =~= fields@);
    r
}

/// The offset of `case`'s payload after a discriminant of `width` bytes.
pub fn payload_offset_of(width: u32, case: &Vec<TypeDescriptor>) -> (r: u32)
    requires
        payload_offset(width as nat, case@) <= u32::MAX,
    ensures
        r == payload_offset(width as nat, case@),
{
    let alignment = fields_alignment_of(case);
    proof {
        lemma_fields_alignment_power_of_two(case@);
    }
    width + padding(width, alignment)
}

/// Largest end offset among `variants` laid out after `start` bytes of discriminant.
pub fn variants_end_of(variants: &Vec<Vec<TypeDescriptor>>, start: u32) -> (r: u32)
    requires
        all_variants_well_formed(variants@),
        variants_end(variants@, start as nat) <= u32::MAX,
    ensures
        r == variants_end(variants@, start as nat),
    decreases variants@,
{
    proof {
        lemma_all_variants_well_formed(variants@);
    }
    let mut end = start;
    let mut i: usize = 0;
    while i < variants.len()
        invariant
            i <= variants@.len(),
            end == variants_end(variants@.take(i as int), start as nat),
            forall|a: int| 0 <= a < variants@.len() ==> #[trigger] all_well_formed(variants@[a]@),
            variants_end(variants@, start as nat) <= u32::MAX,
        decreases variants@.len() - i,
    {
        proof {
            lemma_variants_step(variants@, start as nat, i as int);
            lemma_variants_end_bounds(variants@, start as nat, i as int);
        }
        let offset = payload_offset_of(start, &variants[i]);
        let candidate = fields_end_of(&variants[i], offset);
        if candidate > end {
            end = candidate;
        }
        i = i + 1;
    }
    assert(variants@.take(variants@.len() as int) =~= variants@);
    end
}

/// Largest alignment among the variants' fields, and at least 1.
pub fn variants_alignment_of(variants: &Vec<Vec<TypeDescriptor>>) -> (r: u32)
    ensures
        r == variants_alignment(variants@),
    decreases variants@,
{
    let mut r: u32 = 1;
    let mut i: usize = 0;
    while i < variants.len()
        invariant
            i <= variants@.len(),
            r == variants_alignment(variants@.take(i as int)),
        decreases variants@.len() - i,
    {
        proof {
            lemma_variants_step(variants@, 0, i as int);
        }
        let a = fields_alignment_of(&variants[i]);
        if a > r {
            r = a;
        }
        i = i + 1;
    }
    assert(variants@.take(variants@.len() as int) =~= variants@);
    r
}

/// The overlay of all variants' flat representations.
pub fn variants_flat_of(variants: &Vec<Vec<TypeDescriptor>>) -> (r: Vec<FlatType>)
    ensures
        r@ == variants_flat(variants@),
    decreases variants@,
{
    let mut r: Vec<FlatType> = Vec::new();
    let mut i: usize = 0;
    while i < variants.len()
        invariant
            i <= variants@.len(),
            r@ == variants_flat(variants@.take(i as int)),
        decreases variants@.len() - i,
    {
        proof {
            lemma_variants_step(variants@, 0, i as int);
        }
        let part = fields_flat_of(&variants[i]);
        r = r.merge(&part);
        i = i + 1;
    }
    assert(variants@.take(variants@.len() as int) =~= variants@);
    r
}

/// A Rust type with a fixed encodable layout.
pub trait WitType {
    spec fn descriptor() -> TypeDescriptor;

    /// The descriptor of this type.
    fn wit_type() -> (r: TypeDescriptor)
        ensures
            r == Self::descriptor(),
            well_formed(r),
    ;
}

impl WitType for bool {
    open spec fn descriptor() -> TypeDescriptor {
        TypeDescriptor::Bool
    }

    fn wit_type() -> (r: TypeDescriptor) {
        TypeDescriptor::Bool
    }
}

impl WitType for u8 {
    open spec fn descriptor() -> TypeDescriptor {
        TypeDescriptor::U8
    }

    fn wit_type() -> (r: TypeDescriptor) {
        TypeDescriptor::U8
    }
}

impl WitType for i8 {
    open spec fn descriptor() -> TypeDescriptor {
        TypeDescriptor::S8
    }

    fn wit_type() -> (r: TypeDescriptor) {
        TypeDescriptor::S8
    }
}

impl WitType for u16 {
    open spec fn descriptor() -> TypeDescriptor {
        TypeDescriptor::U16
    }

    fn wit_type() -> (r: TypeDescriptor) {
        TypeDescriptor::U16
    }
}

impl WitType for i16 {
    open spec fn descriptor() -> TypeDescriptor {
        TypeDescriptor::S16
    }

    fn wit_type() -> (r: TypeDescriptor) {
        TypeDescriptor::S16
    }
}

impl WitType for u32 {
    open spec fn descriptor() -> TypeDescriptor {
        TypeDescriptor::U32
    }

    fn wit_type() -> (r: TypeDescriptor) {
        TypeDescriptor::U32
    }
}

impl WitType for i32 {
    open spec fn descriptor() -> TypeDescriptor {
        TypeDescriptor::S32
    }

    fn wit_type() -> (r: TypeDescriptor) {
        TypeDescriptor::S32
    }
}

impl WitType for u64 {
    open spec fn descriptor() -> TypeDescriptor {
        TypeDescriptor::U64
    }

    fn wit_type() -> (r: TypeDescriptor) {
        TypeDescriptor::U64
    }
}

impl WitType for i64 {
    open spec fn descriptor() -> TypeDescriptor {
        TypeDescriptor::S64
    }

    fn wit_type() -> (r: TypeDescriptor) {
        TypeDescriptor::S64
    }
}

impl WitType for u128 {
    open spec fn descriptor() -> TypeDescriptor {
        TypeDescriptor::U128
    }

    fn wit_type() -> (r: TypeDescriptor) {
        TypeDescriptor::U128
    }
}

impl WitType for i128 {
    open spec fn descriptor() -> TypeDescriptor {
        TypeDescriptor::S128
    }

    fn wit_type() -> (r: TypeDescriptor) {
        TypeDescriptor::S128
    }
}

impl WitType for String {
    open spec fn descriptor() -> TypeDescriptor {
        TypeDescriptor::Text
    }

    fn wit_type() -> (r: TypeDescriptor) {
        TypeDescriptor::Text
    }
}

impl WitType for () {
    open spec fn descriptor() -> TypeDescriptor {
        TypeDescriptor::Unit
    }

    fn wit_type() -> (r: TypeDescriptor) {
        TypeDescriptor::Unit
    }
}

impl<T: WitType> WitType for Vec<T> {
    open spec fn descriptor() -> TypeDescriptor {
        TypeDescriptor::List(Box::new(T::descriptor()))
    }

    fn wit_type() -> (r: TypeDescriptor) {
        TypeDescriptor::List(Box::new(T::wit_type()))
    }
}

} // verus!
