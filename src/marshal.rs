//! Storing values into linear memory and loading them back.
use vstd::prelude::*;

use crate::layout::{
    payload_offset, payload_offset_of,
    align_up, alignment_of, discriminant_width_spec, fields_end,
    lemma_variants_end_bounds, padding_spec, size_of, TypeDescriptor,
};
use crate::error::RuntimeError;
use crate::layout::{
    all_well_formed, discriminant_width, fields_end_of,
    lemma_all_variants_well_formed, lemma_all_well_formed, lemma_fields_end_prefix, lemma_fields_end_step, padding, well_formed,
};
use crate::memory::{
    lemma_preserves_trans, lemma_write_above_heap, preserves_below_heap, stride_spec, GuestPointer,
    LinearMemory, MAX_ALLOCATION,
};
use crate::value::{
    all_have_type, all_inline, fields_have_types, has_type, is_inline,
    lemma_all_cases_inline, lemma_all_have_type, lemma_all_inline, lemma_fields_have_types,
    lemma_models_index, lemma_models_len, lemma_models_push, model, models, ValueModel, WitValue,
};
use vstd::utf8::{decode_utf8, encode_utf8, encode_utf8_decode_utf8, encode_utf8_valid_utf8, valid_utf8};

verus! {

pub open spec fn pow256(n: nat) -> nat
    decreases n,
{
    if n == 0 {
        1
    } else {
        256 * pow256((n - 1) as nat)
    }
}

/// The `n` low bytes of `x`, least significant first.
pub open spec fn le_bytes(x: nat, n: nat) -> Seq<u8>
    decreases n,
{
    if n == 0 {
        seq![]
    } else {
        seq![(x % 256) as u8] + le_bytes(x / 256, (n - 1) as nat)
    }
}

/// The number whose little-endian bytes are `b`.
pub open spec fn from_le(b: Seq<u8>) -> nat
    decreases b.len(),
{
    if b.len() == 0 {
        0
    } else {
        b[0] as nat + 256 * from_le(b.drop_first())
    }
}

pub open spec fn zeros(n: nat) -> Seq<u8> {
    Seq::new(n, |i: int| 0u8)
}

pub proof fn lemma_le_round_trip(x: nat, n: nat)
    requires
        x < pow256(n),
    ensures
        le_bytes(x, n).len() == n,
        from_le(le_bytes(x, n)) == x,
    decreases n,
{
    if n > 0 {
        let p = pow256((n - 1) as nat);
        assert(x / 256 < p) by (nonlinear_arith)
            requires
                x < 256 * p,
        ;
        lemma_le_round_trip(x / 256, (n - 1) as nat);
        let b = le_bytes(x, n);
        assert(b.drop_first() =~= le_bytes(x / 256, (n - 1) as nat));
        assert(x == x % 256 + 256 * (x / 256)) by (nonlinear_arith);
    }
}

pub proof fn lemma_from_le_bound(b: Seq<u8>)
    ensures
        from_le(b) < pow256(b.len()),
    decreases b.len(),
{
    if b.len() > 0 {
        lemma_from_le_bound(b.drop_first());
        let r = from_le(b.drop_first());
        let p = pow256((b.len() - 1) as nat);
        assert(b[0] as nat + 256 * r < 256 * p) by (nonlinear_arith)
            requires
                r < p,
                b[0] < 256,
        ;
    }
}

pub proof fn lemma_pow256_values()
    ensures
        pow256(1) == 0x100,
        pow256(2) == 0x1_0000,
        pow256(4) == 0x1_0000_0000,
        pow256(8) == 0x1_0000_0000_0000_0000,
        pow256(16) == 0x1_0000_0000_0000_0000_0000_0000_0000_0000,
{
    reveal_with_fuel(pow256, 17);
}

/// The unsigned bit pattern a scalar is stored as.
pub open spec fn scalar_bits(m: ValueModel) -> nat {
    match m {
        ValueModel::Bool(b) => if b {
            1
        } else {
            0
        },
        ValueModel::U8(x) => x as nat,
        ValueModel::S8(x) => (x as u8) as nat,
        ValueModel::U16(x) => x as nat,
        ValueModel::S16(x) => (x as u16) as nat,
        ValueModel::U32(x) => x as nat,
        ValueModel::S32(x) => (x as u32) as nat,
        ValueModel::U64(x) => x as nat,
        ValueModel::S64(x) => (x as u64) as nat,
        ValueModel::U128(x) => x as nat,
        ValueModel::S128(x) => (x as u128) as nat,
        ValueModel::Float32(x) => x as nat,
        ValueModel::Float64(x) => x as nat,
        _ => 0,
    }
}

/// The scalar of type `t` stored as the bit pattern `v`.
pub open spec fn scalar_from_bits(t: TypeDescriptor, v: nat) -> ValueModel {
    match t {
        TypeDescriptor::Bool => ValueModel::Bool(v != 0),
        TypeDescriptor::U8 => ValueModel::U8(v as u8),
        TypeDescriptor::S8 => ValueModel::S8(v as u8 as i8),
        TypeDescriptor::U16 => ValueModel::U16(v as u16),
        TypeDescriptor::S16 => ValueModel::S16(v as u16 as i16),
        TypeDescriptor::U32 => ValueModel::U32(v as u32),
        TypeDescriptor::S32 => ValueModel::S32(v as u32 as i32),
        TypeDescriptor::U64 => ValueModel::U64(v as u64),
        TypeDescriptor::S64 => ValueModel::S64(v as u64 as i64),
        TypeDescriptor::U128 => ValueModel::U128(v as u128),
        TypeDescriptor::S128 => ValueModel::S128(v as u128 as i128),
        TypeDescriptor::Float32 => ValueModel::Float32(v as u32),
        TypeDescriptor::Float64 => ValueModel::Float64(v as u64),
        _ => ValueModel::Unit,
    }
}

pub open spec fn is_scalar(t: TypeDescriptor) -> bool {
    !(t is Unit || t is Text || t is List || t is Record || t is Variant)
}

/// The bytes of the inline value `m` of type `t`; padding bytes are zero.
pub open spec fn encode_spec(t: TypeDescriptor, m: ValueModel) -> Seq<u8>
    decreases m,
{
    match (m, t) {
        (ValueModel::Record(fields), TypeDescriptor::Record(types)) => fields_encode(
            types@,
            fields,
            0,
        ),
        (ValueModel::Variant(d, fields), TypeDescriptor::Variant(cases)) => {
            let w = discriminant_width_spec(cases@.len());
            let case = cases@[d as int]@;
            let p = payload_offset(w, case);
            let body = le_bytes(d as nat, w) + zeros((p - w) as nat) + fields_encode(case, fields, p);
            body + zeros((size_of(t) - body.len()) as nat)
        },
        (ValueModel::Unit, _) => seq![],
        _ => le_bytes(scalar_bits(m), size_of(t)),
    }
}

/// The bytes of `fields` laid out from offset `start` up to their end offset.
pub open spec fn fields_encode(types: Seq<TypeDescriptor>, fields: Seq<ValueModel>, start: nat) -> Seq<
    u8,
>
    decreases fields,
{
    if fields.len() == 0 || types.len() == 0 {
        seq![]
    } else {
        let end = fields_end(types.drop_last(), start);
        fields_encode(types.drop_last(), fields.drop_last(), start) + zeros(
            padding_spec(end, alignment_of(types.last())),
        ) + encode_spec(types.last(), fields.last())
    }
}

/// The inline value of type `t` whose bytes begin `b`, or `None` where a discriminant names no
/// case.
pub open spec fn decode_spec(t: TypeDescriptor, b: Seq<u8>) -> Option<ValueModel>
    decreases t,
{
    match t {
        TypeDescriptor::Unit => Some(ValueModel::Unit),
        TypeDescriptor::Record(types) => match fields_decode(types@, b, 0) {
            Some(fields) => Some(ValueModel::Record(fields)),
            None => None,
        },
        TypeDescriptor::Variant(cases) => {
            let w = discriminant_width_spec(cases@.len());
            let d = from_le(b.subrange(0, w as int));
            if d >= cases@.len() {
                None
            } else {
                let case = cases@[d as int]@;
                match fields_decode(case, b, payload_offset(w, case)) {
                    Some(fields) => Some(ValueModel::Variant(d as u32, fields)),
                    None => None,
                }
            }
        },
        TypeDescriptor::Text | TypeDescriptor::List(_) => None,
        _ => Some(scalar_from_bits(t, from_le(b.subrange(0, size_of(t) as int)))),
    }
}

/// The fields whose bytes lie in `b` at the offsets of a layout from `start`.
pub open spec fn fields_decode(types: Seq<TypeDescriptor>, b: Seq<u8>, start: nat) -> Option<
    Seq<ValueModel>,
>
    decreases types,
{
    if types.len() == 0 {
        Some(seq![])
    } else {
        let offset = align_up(fields_end(types.drop_last(), start), alignment_of(types.last()));
        match fields_decode(types.drop_last(), b, start) {
            Some(fields) => match decode_spec(types.last(), b.subrange(offset as int, b.len() as int)) {
                Some(last) => Some(fields.push(last)),
                None => None,
            },
            None => None,
        }
    }
}

/// The string whose UTF-8 bytes lie at `address` in `mem`, if they lie inside it and are valid.
pub open spec fn text_at(address: nat, length: nat, mem: Seq<u8>) -> Option<ValueModel> {
    if address + length > mem.len() {
        None
    } else if valid_utf8(mem.subrange(address as int, (address + length) as int)) {
        Some(ValueModel::Text(decode_utf8(mem.subrange(address as int, (address + length) as int))))
    } else {
        None
    }
}

/// The value of type `t` whose inline bytes begin `chunk`, with string bytes and list elements
/// read from `mem`; `None` where a discriminant names no case, out-of-line data lies outside
/// memory, or string bytes are not UTF-8.
pub open spec fn value_at(t: TypeDescriptor, chunk: Seq<u8>, mem: Seq<u8>) -> Option<ValueModel>
    decreases t, 0nat,
{
    match t {
        TypeDescriptor::Unit => Some(ValueModel::Unit),
        TypeDescriptor::Record(types) => match fields_at(types@, chunk, 0, mem) {
            Some(fields) => Some(ValueModel::Record(fields)),
            None => None,
        },
        TypeDescriptor::Variant(cases) => {
            let w = discriminant_width_spec(cases@.len());
            let d = from_le(chunk.subrange(0, w as int));
            if d >= cases@.len() {
                None
            } else {
                let case = cases@[d as int]@;
                match fields_at(case, chunk, payload_offset(w, case), mem) {
                    Some(fields) => Some(ValueModel::Variant(d as u32, fields)),
                    None => None,
                }
            }
        },
        TypeDescriptor::Text => text_at(
            from_le(chunk.subrange(0, 4)),
            from_le(chunk.subrange(4, 8)),
            mem,
        ),
        TypeDescriptor::List(element) => match elements_at(
            *element,
            mem,
            from_le(chunk.subrange(0, 4)),
            from_le(chunk.subrange(4, 8)),
        ) {
            Some(items) => Some(ValueModel::List(items)),
            None => None,
        },
        _ => Some(scalar_from_bits(t, from_le(chunk.subrange(0, size_of(t) as int)))),
    }
}

/// The fields whose inline bytes lie in `chunk` at the offsets of a layout from `start`.
pub open spec fn fields_at(types: Seq<TypeDescriptor>, chunk: Seq<u8>, start: nat, mem: Seq<u8>) -> Option<
    Seq<ValueModel>,
>
    decreases types, 0nat,
{
    if types.len() == 0 {
        Some(seq![])
    } else {
        let offset = align_up(fields_end(types.drop_last(), start), alignment_of(types.last()));
        match fields_at(types.drop_last(), chunk, start, mem) {
            Some(fields) => match value_at(
                types.last(),
                chunk.subrange(offset as int, chunk.len() as int),
                mem,
            ) {
                Some(last) => Some(fields.push(last)),
                None => None,
            },
            None => None,
        }
    }
}

/// The first `count` elements of a list of `element` values stored from `address` on.
pub open spec fn elements_at(element: TypeDescriptor, mem: Seq<u8>, address: nat, count: nat) -> Option<
    Seq<ValueModel>,
>
    decreases element, count,
{
    if count == 0 {
        Some(seq![])
    } else {
        match elements_at(element, mem, address, (count - 1) as nat) {
            Some(items) => {
                let location = address + (count - 1) * stride_spec(element);
                if location + size_of(element) > u32::MAX || location + size_of(element) > mem.len() {
                    None
                } else {
                    match value_at(
                        element,
                        mem.subrange(location as int, (location + size_of(element)) as int),
                        mem,
                    ) {
                        Some(item) => Some(items.push(item)),
                        None => None,
                    }
                }
            },
            None => None,
        }
    }
}

/// Extending an extension of `a` still extends `a`.
pub proof fn lemma_extends_trans<A>(a: Seq<A>, b: Seq<A>, c: Seq<A>)
    requires
        a.len() <= b.len() <= c.len(),
        b.subrange(0, a.len() as int) == a,
        c.subrange(0, b.len() as int) == b,
    ensures
        c.subrange(0, a.len() as int) == a,
{
    assert forall|j: int| 0 <= j < a.len() implies c.subrange(0, a.len() as int)[j] == a[j] by {
        assert(c.subrange(0, b.len() as int)[j] == b[j]);
        assert(b.subrange(0, a.len() as int)[j] == a[j]);
    }
    assert(c.subrange(0, a.len() as int) =~= a);
}

/// Whether the UTF-8 bytes of `text` fit in one allocation and in the free space of `memory`.
pub open spec fn text_fits(memory: LinearMemory, text: Seq<char>) -> bool {
    encode_utf8(text).len() <= MAX_ALLOCATION && memory.spec_heap_end() + encode_utf8(text).len()
        <= memory.spec_bytes().len()
}

/// Whether `count` inline elements of type `element` fit in one allocation and in the free space
/// of `memory`.
pub open spec fn list_fits(memory: LinearMemory, element: TypeDescriptor, count: nat) -> bool {
    &&& is_inline(element)
    &&& count <= u32::MAX
    &&& count * stride_spec(element) <= MAX_ALLOCATION
    &&& align_up(memory.spec_heap_end(), alignment_of(element)) + count * stride_spec(element)
        <= memory.spec_bytes().len()
}

/// The element type of a list type.
pub open spec fn list_element(t: TypeDescriptor) -> TypeDescriptor {
    match t {
        TypeDescriptor::List(element) => *element,
        _ => TypeDescriptor::Unit,
    }
}

/// The allocator's heap end after the out-of-line data of `m`, a value of type `t`, has been
/// placed from heap end `h` on; `None` where a string or a list is too large for one allocation.
pub open spec fn encoded_heap_end(t: TypeDescriptor, m: ValueModel, h: nat) -> Option<nat>
    decreases m,
{
    match (m, t) {
        (ValueModel::Text(text), TypeDescriptor::Text) => if encode_utf8(text).len()
            <= MAX_ALLOCATION {
            Some(h + encode_utf8(text).len())
        } else {
            None
        },
        (ValueModel::List(items), TypeDescriptor::List(element)) => if items.len() <= u32::MAX
            && items.len() * stride_spec(*element) <= MAX_ALLOCATION {
            elements_heap_end(
                *element,
                items,
                align_up(h, alignment_of(*element)) + items.len() * stride_spec(*element),
            )
        } else {
            None
        },
        (ValueModel::Record(fields), TypeDescriptor::Record(types)) => fields_heap_end(
            types@,
            fields,
            h,
        ),
        (ValueModel::Variant(d, fields), TypeDescriptor::Variant(cases)) => fields_heap_end(
            cases@[d as int]@,
            fields,
            h,
        ),
        _ => Some(h),
    }
}

/// The heap end after the out-of-line data of `fields`, in order, from heap end `h` on.
pub open spec fn fields_heap_end(types: Seq<TypeDescriptor>, fields: Seq<ValueModel>, h: nat) -> Option<
    nat,
>
    decreases fields,
{
    if fields.len() == 0 || types.len() == 0 {
        Some(h)
    } else {
        match fields_heap_end(types.drop_last(), fields.drop_last(), h) {
            Some(middle) => encoded_heap_end(types.last(), fields.last(), middle),
            None => None,
        }
    }
}

/// The heap end after the out-of-line data of list `items`, in order, from heap end `h` on.
pub open spec fn elements_heap_end(element: TypeDescriptor, items: Seq<ValueModel>, h: nat) -> Option<
    nat,
>
    decreases items,
{
    if items.len() == 0 {
        Some(h)
    } else {
        match elements_heap_end(element, items.drop_last(), h) {
            Some(middle) => encoded_heap_end(element, items.last(), middle),
            None => None,
        }
    }
}

/// Placing out-of-line data never moves the heap end backwards.
pub proof fn lemma_encoded_heap_end_grows(t: TypeDescriptor, m: ValueModel, h: nat)
    ensures
        encoded_heap_end(t, m, h) matches Some(e) ==> h <= e,
    decreases m, 1nat,
{
    match (m, t) {
        (ValueModel::List(items), TypeDescriptor::List(element)) => {
            let start = align_up(h, alignment_of(*element)) + items.len() * stride_spec(*element);
            lemma_elements_heap_end_prefix(*element, items, start, items.len() as int);
            assert(items.take(items.len() as int) =~= items);
        },
        (ValueModel::Record(fields), TypeDescriptor::Record(types)) => {
            if types@.len() == fields.len() {
                lemma_fields_heap_end_prefix(types@, fields, h, fields.len() as int);
                assert(fields.take(fields.len() as int) =~= fields);
                assert(types@.take(fields.len() as int) =~= types@);
            } else {
                lemma_fields_heap_end_grows_any(types@, fields, h);
            }
        },
        (ValueModel::Variant(d, fields), TypeDescriptor::Variant(cases)) => {
            lemma_fields_heap_end_grows_any(cases@[d as int]@, fields, h);
        },
        _ => {},
    }
}

/// A prefix of the fields ends its out-of-line data no later than all of them.
pub proof fn lemma_fields_heap_end_prefix(
    types: Seq<TypeDescriptor>,
    fields: Seq<ValueModel>,
    h: nat,
    i: int,
)
    requires
        0 <= i <= fields.len(),
        types.len() == fields.len(),
    ensures
        fields_heap_end(types, fields, h) matches Some(e) ==> (fields_heap_end(
            types.take(i),
            fields.take(i),
            h,
        ) matches Some(p) && h <= p && p <= e),
    decreases fields, 0nat,
{
    if fields.len() == 0 {
        assert(fields.take(i) =~= seq![]);
    } else if fields_heap_end(types, fields, h) is Some {
        let dl = fields.drop_last();
        let tl = types.drop_last();
        if i == fields.len() {
            assert(fields.take(i) =~= fields);
            assert(types.take(i) =~= types);
            lemma_fields_heap_end_prefix(tl, dl, h, dl.len() as int);
            assert(tl.take(dl.len() as int) =~= tl);
            assert(dl.take(dl.len() as int) =~= dl);
            lemma_encoded_heap_end_grows(types.last(), fields.last(), fields_heap_end(tl, dl, h)->Some_0);
        } else {
            lemma_fields_heap_end_prefix(tl, dl, h, i);
            lemma_fields_heap_end_prefix(tl, dl, h, dl.len() as int);
            assert(tl.take(dl.len() as int) =~= tl);
            assert(dl.take(dl.len() as int) =~= dl);
            lemma_encoded_heap_end_grows(types.last(), fields.last(), fields_heap_end(tl, dl, h)->Some_0);
            assert(tl.take(i) =~= types.take(i));
            assert(dl.take(i) =~= fields.take(i));
        }
    }
}

/// A prefix of a list ends its out-of-line data no later than the whole list.
pub proof fn lemma_elements_heap_end_prefix(
    element: TypeDescriptor,
    items: Seq<ValueModel>,
    h: nat,
    i: int,
)
    requires
        0 <= i <= items.len(),
    ensures
        elements_heap_end(element, items, h) matches Some(e) ==> (elements_heap_end(
            element,
            items.take(i),
            h,
        ) matches Some(p) && h <= p && p <= e),
    decreases items, 0nat,
{
    if items.len() == 0 {
        assert(items.take(i) =~= seq![]);
    } else if elements_heap_end(element, items, h) is Some {
        let dl = items.drop_last();
        lemma_elements_heap_end_prefix(element, dl, h, dl.len() as int);
        assert(dl.take(dl.len() as int) =~= dl);
        lemma_encoded_heap_end_grows(element, items.last(), elements_heap_end(element, dl, h)->Some_0);
        if i == items.len() {
            assert(items.take(i) =~= items);
        } else {
            lemma_elements_heap_end_prefix(element, dl, h, i);
            assert(dl.take(i) =~= items.take(i));
        }
    }
}

/// Field lists of any lengths end their out-of-line data no earlier than they start.
pub proof fn lemma_fields_heap_end_grows_any(types: Seq<TypeDescriptor>, fields: Seq<ValueModel>, h: nat)
    ensures
        fields_heap_end(types, fields, h) matches Some(e) ==> h <= e,
    decreases fields, 0nat,
{
    if fields.len() > 0 && types.len() > 0 {
        lemma_fields_heap_end_grows_any(types.drop_last(), fields.drop_last(), h);
        if fields_heap_end(types.drop_last(), fields.drop_last(), h) is Some {
            lemma_encoded_heap_end_grows(
                types.last(),
                fields.last(),
                fields_heap_end(types.drop_last(), fields.drop_last(), h)->Some_0,
            );
        }
    }
}

/// Whether the out-of-line data of `m`, a value of type `t`, fits in the free space of `memory`.
pub open spec fn out_of_line_fits(t: TypeDescriptor, m: ValueModel, memory: LinearMemory) -> bool {
    encoded_heap_end(t, m, memory.spec_heap_end()) is Some && encoded_heap_end(
        t,
        m,
        memory.spec_heap_end(),
    )->Some_0 <= memory.spec_bytes().len()
}

/// Whether the out-of-line data of the elements `items` fits from `start` on in `memory`.
pub open spec fn elements_fit(
    element: TypeDescriptor,
    items: Seq<ValueModel>,
    start: nat,
    memory: LinearMemory,
) -> bool {
    elements_heap_end(element, items, start) is Some && elements_heap_end(element, items, start)->Some_0
        <= memory.spec_bytes().len()
}

/// `a` and `b` have the same length and the same bytes in `[lo, hi)`.
pub open spec fn agree_on(a: Seq<u8>, b: Seq<u8>, lo: nat, hi: nat) -> bool {
    a.len() == b.len() && forall|i: int| lo <= i < hi ==> #[trigger] a[i] == b[i]
}

/// Reading a value looks at no more inline bytes than its size.
pub proof fn lemma_value_at_prefix(t: TypeDescriptor, c1: Seq<u8>, c2: Seq<u8>, mem: Seq<u8>)
    requires
        c1.len() >= size_of(t),
        c2.len() >= size_of(t),
        c1.subrange(0, size_of(t) as int) == c2.subrange(0, size_of(t) as int),
    ensures
        value_at(t, c1, mem) == value_at(t, c2, mem),
    decreases t, 0nat,
{
    let n = size_of(t) as int;
    match t {
        TypeDescriptor::Record(types) => {
            lemma_fields_at_prefix(types@, c1, c2, 0, mem);
        },
        TypeDescriptor::Variant(cases) => {
            let w = discriminant_width_spec(cases@.len());
            crate::layout::lemma_variants_end_grows(cases@, w);
            assert(c1.subrange(0, w as int) =~= c1.subrange(0, n).subrange(0, w as int));
            assert(c2.subrange(0, w as int) =~= c2.subrange(0, n).subrange(0, w as int));
            let d = from_le(c1.subrange(0, w as int));
            if d < cases@.len() {
                lemma_variants_end_bounds(cases@, w, d as int);
                let case = cases@[d as int]@;
                let p = payload_offset(w, case);
                let e = fields_end(case, p) as int;
                assert(c1.subrange(0, e) =~= c1.subrange(0, n).subrange(0, e));
                assert(c2.subrange(0, e) =~= c2.subrange(0, n).subrange(0, e));
                lemma_fields_at_prefix(case, c1, c2, p, mem);
            }
        },
        TypeDescriptor::Text | TypeDescriptor::List(_) => {
            assert(c1.subrange(0, 4) =~= c1.subrange(0, n).subrange(0, 4));
            assert(c2.subrange(0, 4) =~= c2.subrange(0, n).subrange(0, 4));
            assert(c1.subrange(4, 8) =~= c1.subrange(0, n).subrange(4, 8));
            assert(c2.subrange(4, 8) =~= c2.subrange(0, n).subrange(4, 8));
        },
        _ => {},
    }
}

pub proof fn lemma_fields_at_prefix(
    types: Seq<TypeDescriptor>,
    c1: Seq<u8>,
    c2: Seq<u8>,
    start: nat,
    mem: Seq<u8>,
)
    requires
        c1.len() >= fields_end(types, start),
        c2.len() >= fields_end(types, start),
        c1.subrange(0, fields_end(types, start) as int) == c2.subrange(
            0,
            fields_end(types, start) as int,
        ),
    ensures
        fields_at(types, c1, start, mem) == fields_at(types, c2, start, mem),
    decreases types, 0nat,
{
    if types.len() > 0 {
        let dl = types.drop_last();
        let last = types.last();
        let n = fields_end(types, start) as int;
        let e = fields_end(dl, start) as int;
        let offset = align_up(fields_end(dl, start), alignment_of(last)) as int;
        assert(c1.subrange(0, e) =~= c1.subrange(0, n).subrange(0, e));
        assert(c2.subrange(0, e) =~= c2.subrange(0, n).subrange(0, e));
        lemma_fields_at_prefix(dl, c1, c2, start, mem);
        let r1 = c1.subrange(offset, c1.len() as int);
        let r2 = c2.subrange(offset, c2.len() as int);
        assert(r1.subrange(0, size_of(last) as int) =~= c1.subrange(0, n).subrange(offset, n));
        assert(r2.subrange(0, size_of(last) as int) =~= c2.subrange(0, n).subrange(offset, n));
        lemma_value_at_prefix(last, r1, r2, mem);
    }
}

/// For inline types, reading through memory is decoding the inline bytes.
pub proof fn lemma_value_at_inline(t: TypeDescriptor, chunk: Seq<u8>, mem: Seq<u8>)
    requires
        is_inline(t),
    ensures
        value_at(t, chunk, mem) == decode_spec(t, chunk),
    decreases t, 0nat,
{
    match t {
        TypeDescriptor::Record(types) => lemma_fields_at_inline(types@, chunk, 0, mem),
        TypeDescriptor::Variant(cases) => {
            let w = discriminant_width_spec(cases@.len());
            let d = from_le(chunk.subrange(0, w as int));
            if d < cases@.len() {
                lemma_all_cases_inline(cases@, d as int);
                lemma_fields_at_inline(
                    cases@[d as int]@,
                    chunk,
                    payload_offset(w, cases@[d as int]@),
                    mem,
                );
            }
        },
        _ => {},
    }
}

pub proof fn lemma_fields_at_inline(types: Seq<TypeDescriptor>, chunk: Seq<u8>, start: nat, mem: Seq<u8>)
    requires
        all_inline(types),
    ensures
        fields_at(types, chunk, start, mem) == fields_decode(types, chunk, start),
    decreases types, 0nat,
{
    if types.len() > 0 {
        let offset = align_up(fields_end(types.drop_last(), start), alignment_of(types.last()));
        lemma_fields_at_inline(types.drop_last(), chunk, start, mem);
        lemma_value_at_inline(types.last(), chunk.subrange(offset as int, chunk.len() as int), mem);
    }
}

/// If a prefix of the fields cannot be read, neither can all of them.
pub proof fn lemma_fields_at_prefix_none(
    types: Seq<TypeDescriptor>,
    chunk: Seq<u8>,
    start: nat,
    mem: Seq<u8>,
    i: int,
)
    requires
        0 <= i <= types.len(),
        fields_at(types.take(i), chunk, start, mem) is None,
    ensures
        fields_at(types, chunk, start, mem) is None,
    decreases types.len(),
{
    if i == types.len() {
        assert(types.take(i) =~= types);
    } else {
        assert(types.drop_last().take(i) =~= types.take(i));
        lemma_fields_at_prefix_none(types.drop_last(), chunk, start, mem, i);
    }
}

/// If the first elements of a list cannot be read, neither can more of them.
pub proof fn lemma_elements_at_prefix_none(
    element: TypeDescriptor,
    mem: Seq<u8>,
    address: nat,
    k: nat,
    count: nat,
)
    requires
        k <= count,
        elements_at(element, mem, address, k) is None,
    ensures
        elements_at(element, mem, address, count) is None,
    decreases count,
{
    if k < count {
        lemma_elements_at_prefix_none(element, mem, address, k, (count - 1) as nat);
    }
}

proof fn lemma_scalar_bits_bound(t: TypeDescriptor, m: ValueModel)
    requires
        has_type(m, t),
        is_scalar(t),
    ensures
        scalar_bits(m) < pow256(size_of(t)),
        scalar_from_bits(t, scalar_bits(m)) == m,
{
    lemma_pow256_values();
    match m {
        ValueModel::S8(x) => {
            assert((x as u8) as i8 == x) by (bit_vector);
        },
        ValueModel::S16(x) => {
            assert((x as u16) as i16 == x) by (bit_vector);
        },
        ValueModel::S32(x) => {
            assert((x as u32) as i32 == x) by (bit_vector);
        },
        ValueModel::S64(x) => {
            assert((x as u64) as i64 == x) by (bit_vector);
        },
        ValueModel::S128(x) => {
            assert((x as u128) as i128 == x) by (bit_vector);
        },
        _ => {},
    }
}

/// An encoded inline value occupies exactly its type's size.
pub proof fn lemma_encode_len(t: TypeDescriptor, m: ValueModel)
    requires
        has_type(m, t),
        is_inline(t),
    ensures
        encode_spec(t, m).len() == size_of(t),
    decreases m,
{
    match (m, t) {
        (ValueModel::Record(fields), TypeDescriptor::Record(types)) => {
            lemma_fields_encode_len(types@, fields, 0);
        },
        (ValueModel::Variant(d, fields), TypeDescriptor::Variant(cases)) => {
            let w = discriminant_width_spec(cases@.len());
            lemma_all_cases_inline(cases@, d as int);
            lemma_variants_end_bounds(cases@, w, d as int);
            lemma_fields_encode_len(cases@[d as int]@, fields, payload_offset(w, cases@[d as int]@));
            lemma_pow256_values();
            lemma_le_round_trip(d as nat, w);
        },
        (ValueModel::Unit, _) => {},
        _ => {
            lemma_scalar_bits_bound(t, m);
            lemma_le_round_trip(scalar_bits(m), size_of(t));
        },
    }
}

pub proof fn lemma_fields_encode_len(types: Seq<TypeDescriptor>, fields: Seq<ValueModel>, start: nat)
    requires
        fields_have_types(fields, types),
        all_inline(types),
    ensures
        fields_encode(types, fields, start).len() + start == fields_end(types, start),
    decreases fields,
{
    if fields.len() > 0 {
        lemma_fields_encode_len(types.drop_last(), fields.drop_last(), start);
        lemma_encode_len(types.last(), fields.last());
    }
}


/// Decoding the bytes of an encoded inline value gives the value back.
pub proof fn lemma_decode_encode(t: TypeDescriptor, m: ValueModel, x: Seq<u8>)
    requires
        has_type(m, t),
        is_inline(t),
        x.len() >= size_of(t),
        x.subrange(0, size_of(t) as int) == encode_spec(t, m),
    ensures
        decode_spec(t, x) == Some(m),
    decreases m,
{
    lemma_encode_len(t, m);
    match (m, t) {
        (ValueModel::Record(fields), TypeDescriptor::Record(types)) => {
            lemma_fields_encode_len(types@, fields, 0);
            assert(x.subrange(0, fields_end(types@, 0) as int) == fields_encode(types@, fields, 0));
            lemma_fields_decode_encode(types@, fields, x, 0);
        },
        (ValueModel::Variant(d, fields), TypeDescriptor::Variant(cases)) => {
            let w = discriminant_width_spec(cases@.len());
            let case = cases@[d as int]@;
            let p = payload_offset(w, case);
            lemma_all_cases_inline(cases@, d as int);
            lemma_variants_end_bounds(cases@, w, d as int);
            lemma_fields_encode_len(case, fields, p);
            lemma_pow256_values();
            lemma_le_round_trip(d as nat, w);
            let head = le_bytes(d as nat, w);
            let f = fields_encode(case, fields, p);
            let enc = encode_spec(t, m);
            assert(x.subrange(0, w as int) =~= enc.subrange(0, w as int));
            assert(enc.subrange(0, w as int) =~= head);
            assert(x.subrange(p as int, fields_end(case, p) as int) =~= enc.subrange(
                p as int,
                fields_end(case, p) as int,
            ));
            assert(enc.subrange(p as int, fields_end(case, p) as int) =~= f);
            lemma_fields_decode_encode(case, fields, x, p);
        },
        (ValueModel::Unit, _) => {},
        _ => {
            lemma_scalar_bits_bound(t, m);
            lemma_le_round_trip(scalar_bits(m), size_of(t));
        },
    }
}

pub proof fn lemma_fields_decode_encode(
    types: Seq<TypeDescriptor>,
    fields: Seq<ValueModel>,
    x: Seq<u8>,
    start: nat,
)
    requires
        fields_have_types(fields, types),
        all_inline(types),
        x.len() >= fields_end(types, start),
        x.subrange(start as int, fields_end(types, start) as int) == fields_encode(
            types,
            fields,
            start,
        ),
    ensures
        fields_decode(types, x, start) == Some(fields),
    decreases fields,
{
    if fields.len() == 0 {
        assert(fields =~= seq![]);
    } else {
        let dl = types.drop_last();
        let end = fields_end(dl, start);
        let last = types.last();
        let offset = align_up(end, alignment_of(last));
        let a = fields_encode(dl, fields.drop_last(), start);
        let z = zeros(padding_spec(end, alignment_of(last)));
        let b = encode_spec(last, fields.last());
        lemma_fields_encode_len(dl, fields.drop_last(), start);
        lemma_encode_len(last, fields.last());
        let whole = x.subrange(start as int, fields_end(types, start) as int);
        assert(whole == a + z + b);
        assert(x.subrange(start as int, end as int) =~= whole.subrange(0, a.len() as int));
        assert(whole.subrange(0, a.len() as int) =~= a);
        lemma_fields_decode_encode(dl, fields.drop_last(), x, start);
        let rest = x.subrange(offset as int, x.len() as int);
        assert(rest.subrange(0, size_of(last) as int) =~= b) by {
            assert forall|j: int| 0 <= j < size_of(last) implies rest[j] == b[j] by {
                assert(rest[j] == x[offset + j]);
                assert(x[offset + j] == whole[offset + j - start]);
                assert(whole[offset + j - start] == (a + z + b)[(a.len() + z.len() + j) as int]);
            }
        }
        lemma_decode_encode(last, fields.last(), rest);
        assert(fields.drop_last().push(fields.last()) =~= fields);
    }
}


pub proof fn lemma_pow256_monotone(a: nat, b: nat)
    requires
        a <= b,
    ensures
        pow256(a) <= pow256(b),
    decreases b,
{
    if a < b {
        lemma_pow256_monotone(a, (b - 1) as nat);
    }
}

/// Appends the `n` low bytes of `x`, least significant first.
fn push_le(out: &mut Vec<u8>, x: u128, n: u32)
    ensures
        final(out)@ == old(out)@ + le_bytes(x as nat, n as nat),
{
    let ghost start = out@;
    let mut v = x;
    let mut i: u32 = 0;
    while i < n
        invariant
            i <= n,
            out@ + le_bytes(v as nat, (n - i) as nat) == start + le_bytes(x as nat, n as nat),
        decreases n - i,
    {
        let ghost before = out@;
        assert(le_bytes(v as nat, (n - i) as nat) == seq![(v as nat % 256) as u8] + le_bytes(
            v as nat / 256,
            (n - i - 1) as nat,
        ));
        out.push((v % 256) as u8);
        v = v / 256;
        i = i + 1;
        assert(out@ + le_bytes(v as nat, (n - i) as nat) =~= before + le_bytes(
            (v as nat) * 256 + 0,
            0,
        ) + (seq![out@.last()] + le_bytes(v as nat, (n - i) as nat)));
    }
    assert(le_bytes(v as nat, 0) =~= seq![]);
    assert(out@ =~= start + le_bytes(x as nat, n as nat));
}

/// Appends `n` zero bytes.
fn push_zeros(out: &mut Vec<u8>, n: u32)
    ensures
        final(out)@ == old(out)@ + zeros(n as nat),
{
    let ghost start = out@;
    let mut i: u32 = 0;
    while i < n
        invariant
            i <= n,
            out@ =~= start + zeros(i as nat),
        decreases n - i,
    {
        out.push(0u8);
        i = i + 1;
    }
}

/// Reads the little-endian number in `b[start..start + n]`.
fn read_le(b: &Vec<u8>, start: usize, n: usize) -> (r: u128)
    requires
        n <= 16,
        start + n <= b@.len(),
    ensures
        r == from_le(b@.subrange(start as int, start + n)),
{
    let mut v: u128 = 0;
    let len = b.len();
    let mut i: usize = n;
    while i > 0
        invariant
            i <= n <= 16,
            len == b@.len(),
            start + n <= b@.len(),
            v == from_le(b@.subrange(start + i, start + n)),
        decreases i,
    {
        let ghost k = start + i - 1;
        let ghost part = b@.subrange(k, start + n);
        assert(part.drop_first() =~= b@.subrange(start + i, start + n));
        proof {
            lemma_from_le_bound(part);
            lemma_pow256_monotone(part.len(), 16);
            lemma_pow256_values();
        }
        assert(part[0] == b@[k]);
        assert(from_le(part) == part[0] as nat + 256 * from_le(part.drop_first()));
        assert(v * 256 + b@[k] < 0x1_0000_0000_0000_0000_0000_0000_0000_0000);
        assert(v * 256 < 0x1_0000_0000_0000_0000_0000_0000_0000_0000);
        let shifted: u128 = v * 256;
        let byte = b[start + i - 1];
        assert(byte == b@[k]);
        v = shifted + byte as u128;
        i = i - 1;
    }
    assert(b@.subrange(start as int, start + n) =~= b@.subrange(start + 0, start + n));
    v
}

/// Relies on `String::from_utf8`: it succeeds exactly on valid UTF-8, and the string it returns
/// holds the given bytes.
#[verifier::external_body]
fn string_from_utf8(bytes: Vec<u8>) -> (r: Option<String>)
    ensures
        r is Some <==> valid_utf8(bytes@),
        r matches Some(s) ==> encode_utf8(s@) == bytes@,
{
    String::from_utf8(bytes).ok()
}

/// The unsigned bit pattern of a scalar.
fn scalar_bits_of(v: &WitValue) -> (r: u128)
    ensures
        r as nat == scalar_bits(model(*v)),
{
    match v {
        WitValue::Bool(b) => if *b {
            1
        } else {
            0
        },
        WitValue::U8(x) => *x as u128,
        WitValue::S8(x) => (*x as u8) as u128,
        WitValue::U16(x) => *x as u128,
        WitValue::S16(x) => (*x as u16) as u128,
        WitValue::U32(x) => *x as u128,
        WitValue::S32(x) => (*x as u32) as u128,
        WitValue::U64(x) => *x as u128,
        WitValue::S64(x) => (*x as u64) as u128,
        WitValue::U128(x) => *x,
        WitValue::S128(x) => *x as u128,
        WitValue::Float32(x) => *x as u128,
        WitValue::Float64(x) => *x as u128,
        _ => 0,
    }
}

/// Appends the inline bytes of `v` to `out`, placing out-of-line data in fresh allocations.
///
/// The appended bytes read back as `v` in any memory that agrees with the final one on the space
/// allocated meanwhile.
#[verifier::rlimit(100)]
fn encode_into(t: &TypeDescriptor, v: &WitValue, memory: &mut LinearMemory, out: &mut Vec<u8>) -> (r:
    Result<(), RuntimeError>)
    requires
        has_type(model(*v), *t),
        well_formed(*t),
        old(memory).wf(),
    ensures
        final(memory).wf(),
        preserves_below_heap(*old(memory), *final(memory)),
        final(out)@.len() >= old(out)@.len(),
        final(out)@.subrange(0, old(out)@.len() as int) == old(out)@,
        r is Ok ==> final(out)@.len() == old(out)@.len() + size_of(*t),
        is_inline(*t) ==> r is Ok && final(out)@ == old(out)@ + encode_spec(*t, model(*v))
            && *final(memory) == *old(memory),
        r is Ok ==> forall|mem: Seq<u8>|
            agree_on(
                mem,
                final(memory).spec_bytes(),
                old(memory).spec_heap_end(),
                final(memory).spec_heap_end(),
            ) ==> #[trigger] value_at(
                *t,
                final(out)@.subrange(old(out)@.len() as int, final(out)@.len() as int),
                mem,
            ) == Some(model(*v)),
        *v is Text && text_fits(*old(memory), v->Text_0@) ==> r is Ok && final(out)@ == old(out)@
            + le_bytes(old(memory).spec_heap_end(), 4) + le_bytes(
            encode_utf8(v->Text_0@).len(),
            4,
        ) && final(memory).spec_heap_end() == old(memory).spec_heap_end() + encode_utf8(
            v->Text_0@,
        ).len() && final(memory).spec_bytes().subrange(
            old(memory).spec_heap_end() as int,
            (old(memory).spec_heap_end() + encode_utf8(v->Text_0@).len()) as int,
        ) == encode_utf8(v->Text_0@),
        *v is List && list_fits(*old(memory), list_element(*t), v->List_0@.len()) ==> r is Ok
            && final(out)@ == old(out)@ + le_bytes(
            align_up(old(memory).spec_heap_end(), alignment_of(list_element(*t))),
            4,
        ) + le_bytes(v->List_0@.len(), 4) && final(memory).spec_heap_end() == align_up(
            old(memory).spec_heap_end(),
            alignment_of(list_element(*t)),
        ) + v->List_0@.len() * stride_spec(list_element(*t)),
        *v is List && r is Ok ==> ({
            let address = from_le(final(out)@.subrange(old(out)@.len() as int, (old(out)@.len() + 4) as int));
            &&& old(memory).spec_heap_end() <= address
            &&& address + v->List_0@.len() * stride_spec(list_element(*t))
                <= final(memory).spec_heap_end()
        }),
        *v is List && v->List_0@.len() * stride_spec(list_element(*t)) > MAX_ALLOCATION ==> r is Err,
        out_of_line_fits(*t, model(*v), *old(memory)) ==> r is Ok && final(memory).spec_heap_end()
            == encoded_heap_end(*t, model(*v), old(memory).spec_heap_end())->Some_0,
    decreases v,
{
    let ghost m = model(*v);
    let ghost out0 = out@;
    match (v, t) {
        (WitValue::Record(fields), TypeDescriptor::Record(types)) => {
            proof {
                lemma_models_len(fields@);
            }
            let r = encode_fields_into(types, fields, 0, memory, out);
            proof {
                if r is Ok {
                    let chunk = out@.subrange(out0.len() as int, out@.len() as int);
                    assert(out0.len() - 0 == out0.len());
                    assert forall|mem: Seq<u8>|
                        agree_on(
                            mem,
                            memory.spec_bytes(),
                            old(memory).spec_heap_end(),
                            memory.spec_heap_end(),
                        ) implies #[trigger] value_at(*t, chunk, mem) == Some(m) by {
                        assert(fields_at(types@, chunk, 0, mem) == Some(models(fields@)));
                    }
                }
            }
            r
        },
        (WitValue::Variant(d, fields), TypeDescriptor::Variant(cases)) => {
            let width = discriminant_width(cases.len());
            let size = t.size();
            proof {
                lemma_all_variants_well_formed(cases@);
                lemma_variants_end_bounds(cases@, width as nat, *d as int);
                lemma_pow256_values();
                lemma_le_round_trip(*d as nat, width as nat);
                if is_inline(*t) {
                    lemma_all_cases_inline(cases@, *d as int);
                }
            }
            push_le(out, *d as u128, width);
            let ghost out_le = out@;
            let case = &cases[*d as usize];
            let offset = payload_offset_of(width, case);
            push_zeros(out, offset - width);
            let ghost out1 = out@;
            assert(out1 =~= out0 + le_bytes(*d as nat, width as nat) + zeros((offset - width) as nat));
            assert(out1.subrange(0, out0.len() as int) =~= out0);
            proof {
                lemma_models_len(fields@);
            }
            let encoded = encode_fields_into(case, fields, offset, memory, out);
            proof {
                lemma_extends_trans(out0, out1, out@);
            }
            match encoded {
                Ok(()) => {},
                Err(e) => {
                    return Err(e);
                },
            }
            let ghost out2 = out@;
            let end = fields_end_of(case, offset);
            push_zeros(out, size - end);
            proof {
                assert(out@.subrange(0, out2.len() as int) =~= out2);
                lemma_extends_trans(out0, out2, out@);
                if is_inline(*t) {
                    lemma_fields_encode_len(case@, models(fields@), offset as nat);
                    assert(out@ =~= out0 + encode_spec(*t, m));
                }
                let chunk = out@.subrange(out0.len() as int, out@.len() as int);
                let chunk2 = out2.subrange(out0.len() as int, out2.len() as int);
                let fe = fields_end(case@, offset as nat) as int;
                assert forall|j: int| 0 <= j < width implies chunk[j] == le_bytes(*d as nat, width as nat)[j] by {
                    assert(out2.subrange(0, out1.len() as int)[out0.len() + j] == out1[out0.len() + j]);
                    assert(out@ == out2 + zeros((size - end) as nat));
                }
                assert(chunk.subrange(0, width as int) =~= le_bytes(*d as nat, width as nat));
                assert(chunk.subrange(0, fe) =~= chunk2.subrange(0, fe));
                assert forall|mem: Seq<u8>|
                    agree_on(
                        mem,
                        memory.spec_bytes(),
                        old(memory).spec_heap_end(),
                        memory.spec_heap_end(),
                    ) implies #[trigger] value_at(*t, chunk, mem) == Some(m) by {
                    lemma_fields_at_prefix(case@, chunk, chunk2, offset as nat, mem);
                }
            }
            Ok(())
        },
        (WitValue::Text(text), TypeDescriptor::Text) => {
            let (address, length) = match store_text(text, memory) {
                Ok(stored) => stored,
                Err(e) => {
                    return Err(e);
                },
            };
            proof {
                lemma_pow256_values();
                lemma_le_round_trip(address as nat, 4);
                lemma_le_round_trip(length as nat, 4);
                encode_utf8_valid_utf8(text@);
                encode_utf8_decode_utf8(text@);
            }
            push_le(out, address as u128, 4);
            push_le(out, length as u128, 4);
            proof {
                assert(out@.subrange(0, out0.len() as int) =~= out0);
                let chunk = out@.subrange(out0.len() as int, out@.len() as int);
                assert(out@ =~= out0 + le_bytes(address as nat, 4) + le_bytes(length as nat, 4));
                assert(chunk.subrange(0, 4) =~= le_bytes(address as nat, 4));
                assert(chunk.subrange(4, 8) =~= le_bytes(length as nat, 4));
                assert forall|mem: Seq<u8>|
                    agree_on(
                        mem,
                        memory.spec_bytes(),
                        old(memory).spec_heap_end(),
                        memory.spec_heap_end(),
                    ) implies #[trigger] value_at(*t, chunk, mem) == Some(m) by {
                    assert(mem.subrange(address as int, address + length) =~= memory.spec_bytes().subrange(
                        address as int,
                        address + length,
                    ));
                }
            }
            Ok(())
        },
        (WitValue::List(items), TypeDescriptor::List(element)) => {
            proof {
                lemma_models_len(items@);
            }
            let (address, count) = match store_list(element, items, memory) {
                Ok(stored) => stored,
                Err(e) => {
                    return Err(e);
                },
            };
            proof {
                lemma_pow256_values();
                lemma_le_round_trip(address as nat, 4);
                lemma_le_round_trip(count as nat, 4);
            }
            push_le(out, address as u128, 4);
            push_le(out, count as u128, 4);
            proof {
                assert(out@.subrange(0, out0.len() as int) =~= out0);
                let chunk = out@.subrange(out0.len() as int, out@.len() as int);
                assert(out@ =~= out0 + le_bytes(address as nat, 4) + le_bytes(count as nat, 4));
                assert(out@.subrange(out0.len() as int, (out0.len() + 4) as int) =~= le_bytes(address as nat, 4));
                assert(chunk.subrange(0, 4) =~= le_bytes(address as nat, 4));
                assert(chunk.subrange(4, 8) =~= le_bytes(count as nat, 4));
                assert forall|mem: Seq<u8>|
                    agree_on(
                        mem,
                        memory.spec_bytes(),
                        old(memory).spec_heap_end(),
                        memory.spec_heap_end(),
                    ) implies #[trigger] value_at(*t, chunk, mem) == Some(m) by {
                    assert(elements_at(**element, mem, address as nat, count as nat) == Some(
                        models(items@),
                    ));
                }
            }
            Ok(())
        },
        (WitValue::Unit, _) => {
            proof {
                assert(out@.subrange(0, out0.len() as int) =~= out0);
                let chunk = out@.subrange(out0.len() as int, out@.len() as int);
                assert forall|mem: Seq<u8>|
                    agree_on(
                        mem,
                        memory.spec_bytes(),
                        old(memory).spec_heap_end(),
                        memory.spec_heap_end(),
                    ) implies #[trigger] value_at(*t, chunk, mem) == Some(m) by {}
            }
            Ok(())
        },
        _ => {
            let bits = scalar_bits_of(v);
            let size = t.size();
            proof {
                lemma_scalar_bits_bound(*t, m);
                lemma_le_round_trip(scalar_bits(m), size_of(*t));
            }
            push_le(out, bits, size);
            proof {
                assert(out@.subrange(0, out0.len() as int) =~= out0);
                let chunk = out@.subrange(out0.len() as int, out@.len() as int);
                assert(chunk =~= encode_spec(*t, m));
                assert(chunk.subrange(0, size_of(*t) as int) =~= chunk);
                lemma_decode_encode(*t, m, chunk);
                assert forall|mem: Seq<u8>|
                    agree_on(
                        mem,
                        memory.spec_bytes(),
                        old(memory).spec_heap_end(),
                        memory.spec_heap_end(),
                    ) implies #[trigger] value_at(*t, chunk, mem) == Some(m) by {
                    lemma_value_at_inline(*t, chunk, mem);
                }
            }
            Ok(())
        },
    }
}

/// Copies the UTF-8 bytes of `text` into a fresh allocation; returns its address and length.
pub(crate) fn store_text(text: &String, memory: &mut LinearMemory) -> (r: Result<
    (u32, u32),
    RuntimeError,
>)
    requires
        old(memory).wf(),
    ensures
        final(memory).wf(),
        preserves_below_heap(*old(memory), *final(memory)),
        r matches Ok((address, length)) ==> old(memory).spec_heap_end() <= address && address
            + length <= final(memory).spec_heap_end() && length == encode_utf8(text@).len()
            && final(memory).spec_bytes().subrange(address as int, address + length)
            == encode_utf8(text@),
        text_fits(*old(memory), text@) ==> r is Ok && r->Ok_0.0 == old(memory).spec_heap_end()
            && r->Ok_0.1 == encode_utf8(text@).len() && final(memory).spec_heap_end()
            == old(memory).spec_heap_end() + encode_utf8(text@).len(),
{
    let bytes: &[u8] = text.as_str().as_bytes();
    let length = bytes.len();
    if length > u32::MAX as usize {
        return Err(RuntimeError::InvalidNumber);
    }
    assert(padding_spec(memory.spec_heap_end(), 1) == 0);
    let mut allocation = match memory.allocate(length as u32, 1) {
        Ok(a) => a,
        Err(e) => {
            return Err(e);
        },
    };
    let address = match allocation.address() {
        Ok(p) => p,
        Err(e) => {
            return Err(e);
        },
    };
    let ghost allocated = *memory;
    assert(preserves_below_heap(*old(memory), allocated));
    match memory.write(address, bytes) {
        Ok(()) => {},
        Err(e) => {
            let _ = memory.deallocate(&mut allocation);
            return Err(e);
        },
    }
    proof {
        lemma_write_above_heap(*old(memory), allocated, *memory, address.0 as int, bytes@);
        assert(memory.spec_bytes().subrange(address.0 as int, address.0 + length) =~= bytes@);
    }
    Ok((address.0, length as u32))
}

/// Reads `length` bytes at `address` as a UTF-8 string.
pub(crate) fn load_text(memory: &LinearMemory, address: u32, length: u32) -> (r: Result<
    String,
    RuntimeError,
>)
    requires
        memory.wf(),
    ensures
        match text_at(address as nat, length as nat, memory.spec_bytes()) {
            Some(m) => r is Ok && m == ValueModel::Text(r->Ok_0@),
            None => r is Err,
        },
{
    let bytes = match memory.read(GuestPointer(address), length) {
        Ok(bytes) => bytes,
        Err(e) => {
            return Err(e);
        },
    };
    match string_from_utf8(bytes) {
        Some(text) => {
            proof {
                encode_utf8_decode_utf8(text@);
            }
            Ok(text)
        },
        None => Err(RuntimeError::InvalidString),
    }
}

/// Stores the elements of a list in a fresh allocation; returns its address and the number of
/// elements.
pub(crate) fn store_list(
    element: &TypeDescriptor,
    items: &Vec<WitValue>,
    memory: &mut LinearMemory,
) -> (r: Result<(u32, u32), RuntimeError>)
    requires
        all_have_type(models(items@), *element),
        well_formed(*element),
        old(memory).wf(),
    ensures
        final(memory).wf(),
        preserves_below_heap(*old(memory), *final(memory)),
        r matches Ok((address, count)) ==> count == items@.len() && forall|mem: Seq<u8>|
            agree_on(
                mem,
                final(memory).spec_bytes(),
                old(memory).spec_heap_end(),
                final(memory).spec_heap_end(),
            ) ==> #[trigger] elements_at(*element, mem, address as nat, count as nat) == Some(
                models(items@),
            ),
        list_fits(*old(memory), *element, items@.len()) ==> r is Ok && r->Ok_0.0 == align_up(
            old(memory).spec_heap_end(),
            alignment_of(*element),
        ) && r->Ok_0.1 == items@.len() && final(memory).spec_heap_end() == align_up(
            old(memory).spec_heap_end(),
            alignment_of(*element),
        ) + items@.len() * stride_spec(*element),
        r matches Ok((address, count)) ==> old(memory).spec_heap_end() <= address && address
            + count * stride_spec(*element) <= final(memory).spec_heap_end(),
        items@.len() * stride_spec(*element) > MAX_ALLOCATION ==> r is Err,
        items@.len() <= u32::MAX && items@.len() * stride_spec(*element) <= MAX_ALLOCATION
            && elements_fit(
            *element,
            models(items@),
            align_up(old(memory).spec_heap_end(), alignment_of(*element)) + items@.len()
                * stride_spec(*element),
            *old(memory),
        ) ==> r is Ok && r->Ok_0.0 == align_up(old(memory).spec_heap_end(), alignment_of(*element))
            && r->Ok_0.1 == items@.len() && final(memory).spec_heap_end() == elements_heap_end(
            *element,
            models(items@),
            align_up(old(memory).spec_heap_end(), alignment_of(*element)) + items@.len()
                * stride_spec(*element),
        )->Some_0,
    decreases items@,
{
    let count = items.len();
    if count > u32::MAX as usize {
        return Err(RuntimeError::InvalidNumber);
    }
    let size = element.size();
    let alignment = element.alignment();
    let stride: u64 = size as u64 + padding(size, alignment) as u64;
    assert(stride == stride_spec(*element));
    if count > 0 && stride > u32::MAX as u64 {
        assert(count * stride >= stride) by (nonlinear_arith)
            requires
                count > 0,
        ;
        return Err(RuntimeError::AllocationTooLarge);
    }
    assert(stride * count as u64 <= u32::MAX as u64 * u32::MAX as u64) by (nonlinear_arith)
        requires
            count == 0 || stride <= u32::MAX,
            count <= u32::MAX,
    ;
    let total = stride * count as u64;
    assert(total == count * stride_spec(*element)) by (nonlinear_arith)
        requires
            total == stride * count,
            stride == stride_spec(*element),
    ;
    if total > u32::MAX as u64 {
        return Err(RuntimeError::AllocationTooLarge);
    }
    proof {
        let start = align_up(memory.spec_heap_end(), alignment_of(*element)) + count * stride_spec(
            *element,
        );
        lemma_elements_heap_end_prefix(*element, models(items@), start as nat, 0);
        assert(models(items@).take(0) =~= seq![]);
    }
    let mut allocation = match memory.allocate(total as u32, alignment) {
        Ok(a) => a,
        Err(e) => {
            return Err(e);
        },
    };
    let base = match allocation.address() {
        Ok(p) => p,
        Err(e) => {
            return Err(e);
        },
    };
    let ghost initial = *old(memory);
    let ghost allocated_end = memory.spec_heap_end();
    let ghost ms = models(items@);
    let ghost s = stride_spec(*element);
    proof {
        lemma_models_len(items@);
        assert(preserves_below_heap(initial, *memory));
        assert(ms.take(0) =~= seq![]);
        assert(stride == s);
        assert(count * s == stride * count) by (nonlinear_arith)
            requires
                stride == s,
        ;
    }
    let mut next: u64 = base.0 as u64;
    let mut k: usize = 0;
    while k < count
        invariant
            k <= count == items@.len(),
            initial == *old(memory),
            ms == models(items@),
            ms.len() == count,
            memory.wf(),
            preserves_below_heap(initial, *memory),
            initial.spec_heap_end() <= base.0,
            s == stride_spec(*element),
            s == stride,
            size == size_of(*element),
            size <= s,
            count * s == total,
            base.0 + total == allocated_end,
            allocated_end <= memory.spec_heap_end(),
            next as int == base.0 + k * s,
            memory.spec_bytes().len() == initial.spec_bytes().len(),
            list_fits(initial, *element, count as nat) ==> base.0 == align_up(
                initial.spec_heap_end(),
                alignment_of(*element),
            ) && allocated_end <= initial.spec_bytes().len() && memory.spec_heap_end()
                == allocated_end,
            count <= u32::MAX && count * s <= MAX_ALLOCATION && elements_fit(
                *element,
                ms,
                (align_up(initial.spec_heap_end(), alignment_of(*element)) + count * s) as nat,
                initial,
            ) ==> base.0 == align_up(initial.spec_heap_end(), alignment_of(*element))
                && allocated_end <= initial.spec_bytes().len() && elements_heap_end(
                *element,
                ms.take(k as int),
                allocated_end,
            ) == Some(memory.spec_heap_end()),
            all_have_type(ms, *element),
            well_formed(*element),
            forall|mem: Seq<u8>|
                agree_on(mem, memory.spec_bytes(), initial.spec_heap_end(), (base.0 + k * s) as nat)
                    && agree_on(mem, memory.spec_bytes(), allocated_end, memory.spec_heap_end())
                    ==> #[trigger] elements_at(*element, mem, base.0 as nat, k as nat) == Some(
                    ms.take(k as int),
                ),
        decreases count - k,
    {
        proof {
            lemma_all_have_type(ms, *element, k as int);
            lemma_elements_heap_end_prefix(*element, ms, allocated_end, k as int + 1);
            lemma_elements_heap_end_prefix(*element, ms, allocated_end, count as int);
            assert(ms.take(count as int) =~= ms);
            assert(ms.take(k + 1).drop_last() =~= ms.take(k as int));
            assert(ms.take(k + 1).last() == ms[k as int]);
            lemma_models_index(items@, k as int);
            assert((k + 1) * s == k * s + s) by (nonlinear_arith);
            assert((k + 1) * s <= count * s) by (nonlinear_arith)
                requires
                    k < count,
            ;
        }
        let ghost before = *memory;
        let mut chunk: Vec<u8> = Vec::new();
        let encoded = encode_into(element, &items[k], memory, &mut chunk);
        proof {
            lemma_preserves_trans(initial, before, *memory);
        }
        match encoded {
            Ok(()) => {},
            Err(e) => {
                let _ = memory.deallocate(&mut allocation);
                return Err(e);
            },
        }
        if next > u32::MAX as u64 {
            let _ = memory.deallocate(&mut allocation);
            return Err(RuntimeError::InvalidNumber);
        }
        let ghost encoded_memory = *memory;
        match memory.write(GuestPointer(next as u32), &chunk) {
            Ok(()) => {},
            Err(e) => {
                let _ = memory.deallocate(&mut allocation);
                return Err(e);
            },
        }
        proof {
            lemma_write_above_heap(initial, encoded_memory, *memory, next as int, chunk@);
            assert(chunk@.subrange(0, chunk@.len() as int) =~= chunk@);
            let after = memory.spec_bytes();
            assert forall|mem: Seq<u8>|
                agree_on(mem, after, initial.spec_heap_end(), (base.0 + (k + 1) * s) as nat)
                    && agree_on(mem, after, allocated_end, memory.spec_heap_end()) implies #[trigger] elements_at(
                *element,
                mem,
                base.0 as nat,
                (k + 1) as nat,
            ) == Some(ms.take(k + 1)) by {
                assert forall|i: int| initial.spec_heap_end() <= i < base.0 + k * s implies #[trigger] mem[i]
                    == before.spec_bytes()[i] by {
                    assert(mem[i] == after[i]);
                    assert(after[i] == encoded_memory.spec_bytes()[i]);
                }
                assert forall|i: int| allocated_end <= i < before.spec_heap_end() implies #[trigger] mem[i]
                    == before.spec_bytes()[i] by {
                    assert(mem[i] == after[i]);
                    assert(after[i] == encoded_memory.spec_bytes()[i]);
                }
                assert(agree_on(mem, before.spec_bytes(), initial.spec_heap_end(), (base.0 + k * s) as nat));
                assert(agree_on(mem, before.spec_bytes(), allocated_end, before.spec_heap_end()));
                assert(elements_at(*element, mem, base.0 as nat, k as nat) == Some(ms.take(k as int)));
                assert(mem.subrange(next as int, next + size) =~= chunk@) by {
                    assert forall|j: int| 0 <= j < size implies mem.subrange(next as int, next + size)[j]
                        == chunk@[j] by {
                        assert(mem[next + j] == after[next + j]);
                    }
                }
                assert forall|i: int| before.spec_heap_end() <= i < encoded_memory.spec_heap_end() implies #[trigger] mem[i]
                    == encoded_memory.spec_bytes()[i] by {
                    assert(mem[i] == after[i]);
                }
                assert(agree_on(
                    mem,
                    encoded_memory.spec_bytes(),
                    before.spec_heap_end(),
                    encoded_memory.spec_heap_end(),
                ));
                assert(value_at(*element, chunk@.subrange(0, chunk@.len() as int), mem) == Some(ms[k as int]));
                assert(ms.take(k as int).push(ms[k as int]) =~= ms.take(k + 1));
            }
        }
        next = next + stride;
        k = k + 1;
    }
    proof {
        assert(ms.take(count as int) =~= ms);
    }
    Ok((base.0, count as u32))
}

/// Appends the bytes of `fields` laid out from offset `start` up to their end offset.
fn encode_fields_into(
    types: &Vec<TypeDescriptor>,
    fields: &Vec<WitValue>,
    start: u32,
    memory: &mut LinearMemory,
    out: &mut Vec<u8>,
) -> (r: Result<(), RuntimeError>)
    requires
        fields_have_types(models(fields@), types@),
        all_well_formed(types@),
        fields_end(types@, start as nat) <= u32::MAX,
        old(memory).wf(),
        old(out)@.len() >= start,
    ensures
        final(memory).wf(),
        preserves_below_heap(*old(memory), *final(memory)),
        final(out)@.len() >= old(out)@.len(),
        final(out)@.subrange(0, old(out)@.len() as int) == old(out)@,
        r is Ok ==> final(out)@.len() + start == old(out)@.len() + fields_end(types@, start as nat),
        r is Ok ==> forall|mem: Seq<u8>|
            agree_on(
                mem,
                final(memory).spec_bytes(),
                old(memory).spec_heap_end(),
                final(memory).spec_heap_end(),
            ) ==> #[trigger] fields_at(
                types@,
                final(out)@.subrange(old(out)@.len() - start, final(out)@.len() as int),
                start as nat,
                mem,
            ) == Some(models(fields@)),
        all_inline(types@) ==> r is Ok && final(out)@ == old(out)@ + fields_encode(
            types@,
            models(fields@),
            start as nat,
        ) && *final(memory) == *old(memory),
        types@.len() == fields@.len() && fields_heap_end(
            types@,
            models(fields@),
            old(memory).spec_heap_end(),
        ) is Some && fields_heap_end(types@, models(fields@), old(memory).spec_heap_end())->Some_0
            <= old(memory).spec_bytes().len() ==> r is Ok && final(memory).spec_heap_end()
            == fields_heap_end(types@, models(fields@), old(memory).spec_heap_end())->Some_0,
    decreases fields@,
{
    let ghost out0 = out@;
    let ghost memory0 = *memory;
    let ghost ms = models(fields@);
    proof {
        lemma_models_len(fields@);
        lemma_all_well_formed(types@);
        assert(ms.take(0) =~= seq![]);
        assert(types@.take(0) =~= seq![]);
    }
    let mut end = start;
    let mut i: usize = 0;
    while i < fields.len()
        invariant
            i <= fields@.len(),
            ms == models(fields@),
            ms.len() == fields@.len() == types@.len(),
            fields_have_types(ms, types@),
            forall|k: int| 0 <= k < types@.len() ==> #[trigger] well_formed(types@[k]),
            fields_end(types@, start as nat) <= u32::MAX,
            end == fields_end(types@.take(i as int), start as nat),
            out@.len() + start == out0.len() + end,
            memory.wf(),
            memory0 == *old(memory),
            preserves_below_heap(memory0, *memory),
            all_inline(types@) ==> out@ == out0 + fields_encode(
                types@.take(i as int),
                ms.take(i as int),
                start as nat,
            ) && *memory == memory0,
            out0.len() >= start,
            out0 == old(out)@,
            out@.len() >= out0.len(),
            out@.subrange(0, out0.len() as int) == out0,
            forall|mem: Seq<u8>|
                agree_on(mem, memory.spec_bytes(), memory0.spec_heap_end(), memory.spec_heap_end())
                    ==> #[trigger] fields_at(
                    types@.take(i as int),
                    out@.subrange(out0.len() - start, out@.len() as int),
                    start as nat,
                    mem,
                ) == Some(ms.take(i as int)),
            fields_heap_end(types@, ms, memory0.spec_heap_end()) is Some && fields_heap_end(
                types@,
                ms,
                memory0.spec_heap_end(),
            )->Some_0 <= memory0.spec_bytes().len() ==> fields_heap_end(
                types@.take(i as int),
                ms.take(i as int),
                memory0.spec_heap_end(),
            ) == Some(memory.spec_heap_end()),
        decreases fields@.len() - i,
    {
        proof {
            lemma_models_index(fields@, i as int);
            lemma_fields_have_types(ms, types@, i as int);
            lemma_fields_heap_end_prefix(types@, ms, memory0.spec_heap_end(), i as int + 1);
            lemma_fields_heap_end_prefix(types@, ms, memory0.spec_heap_end(), ms.len() as int);
            assert(ms.take(ms.len() as int) =~= ms);
            assert(types@.take(ms.len() as int) =~= types@);
            assert(ms.take(i + 1).drop_last() =~= ms.take(i as int));
            assert(ms.take(i + 1).last() == ms[i as int]);
            assert(types@.take(i + 1).last() == types@[i as int]);
            lemma_fields_end_step(types@, start as nat, i as int);
            lemma_fields_end_prefix(types@, start as nat, i as int + 1);
            lemma_fields_end_prefix(types@, start as nat, i as int);
            assert(types@.take(i + 1).drop_last() =~= types@.take(i as int));
            assert(ms.take(i + 1).drop_last() =~= ms.take(i as int));
            if all_inline(types@) {
                lemma_all_inline(types@, i as int);
            }
        }
        let ghost before = *memory;
        let ghost out_before = out@;
        let alignment = types[i].alignment();
        let pad = padding(end, alignment);
        push_zeros(out, pad);
        let ghost out_padded = out@;
        let encoded = encode_into(&types[i], &fields[i], memory, out);
        proof {
            lemma_preserves_trans(memory0, before, *memory);
            assert(out_padded.subrange(0, out_before.len() as int) =~= out_before);
            lemma_extends_trans(out_before, out_padded, out@);
            lemma_extends_trans(out0, out_before, out@);
        }
        match encoded {
            Ok(()) => {},
            Err(e) => {
                return Err(e);
            },
        }
        proof {
            let base = out0.len() - start;
            let c_new = out@.subrange(base, out@.len() as int);
            let c_old = out_before.subrange(base, out_before.len() as int);
            let field_chunk = out@.subrange(out_padded.len() as int, out@.len() as int);
            let offset = (end + pad) as int;
            assert(out_padded =~= out_before + zeros(pad as nat));
            assert forall|j: int| 0 <= j < out_before.len() implies out@[j] == out_before[j] by {
                assert(out@.subrange(0, out_padded.len() as int)[j] == out_padded[j]);
            }
            assert(c_new.subrange(0, end as int) =~= c_old.subrange(0, end as int));
            assert(c_new.subrange(offset, c_new.len() as int) =~= field_chunk);
            assert(ms.take(i as int).push(ms[i as int]) =~= ms.take(i + 1));
            assert forall|mem: Seq<u8>|
                agree_on(mem, memory.spec_bytes(), memory0.spec_heap_end(), memory.spec_heap_end())
                    implies #[trigger] fields_at(types@.take(i + 1), c_new, start as nat, mem) == Some(
                    ms.take(i + 1),
                ) by {
                assert forall|k: int| memory0.spec_heap_end() <= k < before.spec_heap_end() implies #[trigger] mem[k]
                    == before.spec_bytes()[k] by {
                    assert(mem[k] == memory.spec_bytes()[k]);
                }
                assert(agree_on(mem, before.spec_bytes(), memory0.spec_heap_end(), before.spec_heap_end()));
                lemma_fields_at_prefix(types@.take(i as int), c_new, c_old, start as nat, mem);
                assert(agree_on(mem, memory.spec_bytes(), before.spec_heap_end(), memory.spec_heap_end()));
                assert(value_at(types@[i as int], field_chunk, mem) == Some(ms[i as int]));
            }
        }
        end = end + pad + types[i].size();
        proof {
            if all_inline(types@) {
                assert(out@ =~= out0 + fields_encode(
                    types@.take(i + 1),
                    ms.take(i + 1),
                    start as nat,
                ));
            }
        }
        i = i + 1;
    }
    assert(types@.take(fields@.len() as int) =~= types@);
    assert(ms.take(fields@.len() as int) =~= ms);
    Ok(())
}


/// If a prefix of the fields fails to decode, so do all of them.
pub proof fn lemma_fields_decode_prefix_none(types: Seq<TypeDescriptor>, b: Seq<u8>, start: nat, i: int)
    requires
        0 <= i <= types.len(),
        fields_decode(types.take(i), b, start) is None,
    ensures
        fields_decode(types, b, start) is None,
    decreases types.len(),
{
    if i == types.len() {
        assert(types.take(i) =~= types);
    } else {
        assert(types.drop_last().take(i) =~= types.take(i));
        lemma_fields_decode_prefix_none(types.drop_last(), b, start, i);
    }
}

/// Reads the scalar of type `t` stored at `chunk[start..]`.
fn decode_scalar(t: &TypeDescriptor, chunk: &Vec<u8>, start: usize) -> (r: WitValue)
    requires
        is_scalar(*t),
        start + size_of(*t) <= chunk@.len(),
    ensures
        Some(model(r)) == decode_spec(*t, chunk@.subrange(start as int, chunk@.len() as int)),
{
    let size = t.size();
    let bits = read_le(chunk, start, size as usize);
    assert(chunk@.subrange(start as int, chunk@.len() as int).subrange(0, size as int)
        =~= chunk@.subrange(start as int, start + size));
    match t {
        TypeDescriptor::Bool => WitValue::Bool(bits != 0),
        TypeDescriptor::U8 => WitValue::U8(#[verifier::truncate] (bits as u8)),
        TypeDescriptor::S8 => WitValue::S8(#[verifier::truncate] ((#[verifier::truncate] (bits as u8)) as i8)),
        TypeDescriptor::U16 => WitValue::U16(#[verifier::truncate] (bits as u16)),
        TypeDescriptor::S16 => WitValue::S16(#[verifier::truncate] ((#[verifier::truncate] (bits as u16)) as i16)),
        TypeDescriptor::U32 => WitValue::U32(#[verifier::truncate] (bits as u32)),
        TypeDescriptor::S32 => WitValue::S32(#[verifier::truncate] ((#[verifier::truncate] (bits as u32)) as i32)),
        TypeDescriptor::U64 => WitValue::U64(#[verifier::truncate] (bits as u64)),
        TypeDescriptor::S64 => WitValue::S64(#[verifier::truncate] ((#[verifier::truncate] (bits as u64)) as i64)),
        TypeDescriptor::U128 => WitValue::U128(bits),
        TypeDescriptor::S128 => WitValue::S128(#[verifier::truncate] (bits as i128)),
        TypeDescriptor::Float32 => WitValue::Float32(#[verifier::truncate] (bits as u32)),
        _ => WitValue::Float64(#[verifier::truncate] (bits as u64)),
    }
}

/// Reads the value of type `t` whose inline bytes are `chunk[start..]`, following pointers to
/// out-of-line data in `memory`.
fn decode_at(t: &TypeDescriptor, memory: &LinearMemory, chunk: &Vec<u8>, start: usize) -> (r: Result<
    WitValue,
    RuntimeError,
>)
    requires
        well_formed(*t),
        memory.wf(),
        start + size_of(*t) <= chunk@.len(),
    ensures
        match value_at(
            *t,
            chunk@.subrange(start as int, chunk@.len() as int),
            memory.spec_bytes(),
        ) {
            Some(m) => r is Ok && model(r->Ok_0) == m,
            None => r is Err,
        },
        is_inline(*t) && value_at(
            *t,
            chunk@.subrange(start as int, chunk@.len() as int),
            memory.spec_bytes(),
        ) is None ==> r == Err::<WitValue, RuntimeError>(RuntimeError::InvalidLayout),
        names_no_case(*t, chunk@.subrange(start as int, chunk@.len() as int)) ==> r == Err::<
            WitValue,
            RuntimeError,
        >(RuntimeError::InvalidLayout),
    decreases t, 1int,
{
    let ghost b = chunk@.subrange(start as int, chunk@.len() as int);
    let len = chunk.len();
    match t {
        TypeDescriptor::Unit => Ok(WitValue::Unit),
        TypeDescriptor::Record(types) => {
            match decode_fields_at(types, memory, chunk, start, 0) {
                Ok(fields) => Ok(WitValue::Record(fields)),
                Err(e) => Err(e),
            }
        },
        TypeDescriptor::Variant(cases) => {
            let width = discriminant_width(cases.len());
            proof {
                lemma_all_variants_well_formed(cases@);
                crate::layout::lemma_variants_end_grows(cases@, width as nat);
            }
            assert(b.subrange(0, width as int) =~= chunk@.subrange(start as int, start + width));
            let d = read_le(chunk, start, width as usize);
            if d >= cases.len() as u128 {
                return Err(RuntimeError::InvalidLayout);
            }
            proof {
                lemma_variants_end_bounds(cases@, width as nat, d as int);
                if is_inline(*t) {
                    lemma_all_cases_inline(cases@, d as int);
                }
            }
            let case = &cases[d as usize];
            let offset = payload_offset_of(width, case);
            match decode_fields_at(case, memory, chunk, start, offset) {
                Ok(fields) => Ok(WitValue::Variant(#[verifier::truncate] (d as u32), fields)),
                Err(e) => Err(e),
            }
        },
        TypeDescriptor::Text => {
            let address = read_le(chunk, start, 4);
            let length = read_le(chunk, start + 4, 4);
            proof {
                lemma_pointer_and_length(chunk@, start as int);
            }
            match load_text(memory, address as u32, length as u32) {
                Ok(text) => Ok(WitValue::Text(text)),
                Err(e) => Err(e),
            }
        },
        TypeDescriptor::List(element) => {
            let address = read_le(chunk, start, 4);
            let count = read_le(chunk, start + 4, 4);
            proof {
                lemma_pointer_and_length(chunk@, start as int);
            }
            match decode_list(element, memory, address as u32, count as u32) {
                Ok(items) => Ok(WitValue::List(items)),
                Err(e) => Err(e),
            }
        },
        _ => Ok(decode_scalar(t, chunk, start)),
    }
}

/// The address and length at `chunk[start..start + 8]` are 32-bit numbers.
proof fn lemma_pointer_and_length(chunk: Seq<u8>, start: int)
    requires
        0 <= start,
        start + 8 <= chunk.len(),
    ensures
        from_le(chunk.subrange(start, start + 4)) <= u32::MAX,
        from_le(chunk.subrange(start + 4, start + 8)) <= u32::MAX,
        chunk.subrange(start, chunk.len() as int).subrange(0, 4) == chunk.subrange(start, start + 4),
        chunk.subrange(start, chunk.len() as int).subrange(4, 8) == chunk.subrange(
            start + 4,
            start + 8,
        ),
{
    lemma_from_le_bound(chunk.subrange(start, start + 4));
    lemma_from_le_bound(chunk.subrange(start + 4, start + 8));
    lemma_pow256_values();
    assert(chunk.subrange(start, chunk.len() as int).subrange(0, 4) =~= chunk.subrange(
        start,
        start + 4,
    ));
    assert(chunk.subrange(start, chunk.len() as int).subrange(4, 8) =~= chunk.subrange(
        start + 4,
        start + 8,
    ));
}

/// Reads `count` elements of type `element` stored from `address` on.
pub(crate) fn decode_list(element: &TypeDescriptor, memory: &LinearMemory, address: u32, count: u32) -> (r:
    Result<Vec<WitValue>, RuntimeError>)
    requires
        well_formed(*element),
        memory.wf(),
    ensures
        match elements_at(*element, memory.spec_bytes(), address as nat, count as nat) {
            Some(items) => r is Ok && models(r->Ok_0@) == items,
            None => r is Err,
        },
    decreases element, 2int,
{
    let ghost mem = memory.spec_bytes();
    let size = element.size();
    let alignment = element.alignment();
    let stride: u64 = size as u64 + padding(size, alignment) as u64;
    let mut items: Vec<WitValue> = Vec::new();
    let mut next: u64 = address as u64;
    let mut k: u32 = 0;
    while k < count
        invariant
            k <= count,
            well_formed(*element),
            memory.wf(),
            mem == memory.spec_bytes(),
            size == size_of(*element),
            stride == stride_spec(*element),
            stride <= u32::MAX as u64 + 8,
            next <= u32::MAX as u64 + u32::MAX as u64 + 8,
            next as int == address + k * stride_spec(*element),
            elements_at(*element, mem, address as nat, k as nat) == Some(models(items@)),
        decreases count - k,
    {
        if next + size as u64 > u32::MAX as u64 {
            proof {
                lemma_elements_at_prefix_none(*element, mem, address as nat, (k + 1) as nat, count as nat);
            }
            return Err(RuntimeError::OutOfBounds);
        }
        let bytes = match memory.read(GuestPointer(next as u32), size) {
            Ok(bytes) => bytes,
            Err(e) => {
                proof {
                    lemma_elements_at_prefix_none(*element, mem, address as nat, (k + 1) as nat, count as nat);
                }
                return Err(e);
            },
        };
        assert(bytes@.subrange(0, bytes@.len() as int) =~= bytes@);
        match decode_at(element, memory, &bytes, 0) {
            Ok(item) => {
                proof {
                    lemma_models_push(items@, item);
                }
                items.push(item);
            },
            Err(e) => {
                proof {
                    lemma_elements_at_prefix_none(*element, mem, address as nat, (k + 1) as nat, count as nat);
                }
                return Err(e);
            },
        }
        proof {
            let s = stride_spec(*element);
            assert((k + 1) * s == k * s + s) by (nonlinear_arith);
        }
        next = next + stride;
        k = k + 1;
    }
    Ok(items)
}

/// Reads `types` laid out from offset `origin`, whose bytes begin at `chunk[start]`.
fn decode_fields_at(
    types: &Vec<TypeDescriptor>,
    memory: &LinearMemory,
    chunk: &Vec<u8>,
    start: usize,
    origin: u32,
) -> (r: Result<Vec<WitValue>, RuntimeError>)
    requires
        all_well_formed(types@),
        memory.wf(),
        fields_end(types@, origin as nat) <= u32::MAX,
        start + fields_end(types@, origin as nat) <= chunk@.len(),
    ensures
        match fields_at(
            types@,
            chunk@.subrange(start as int, chunk@.len() as int),
            origin as nat,
            memory.spec_bytes(),
        ) {
            Some(fs) => r is Ok && models(r->Ok_0@) == fs,
            None => r is Err,
        },
        all_inline(types@) && fields_at(
            types@,
            chunk@.subrange(start as int, chunk@.len() as int),
            origin as nat,
            memory.spec_bytes(),
        ) is None ==> r == Err::<Vec<WitValue>, RuntimeError>(RuntimeError::InvalidLayout),
    decreases types@, 0int,
{
    let ghost b = chunk@.subrange(start as int, chunk@.len() as int);
    let ghost mem = memory.spec_bytes();
    proof {
        lemma_all_well_formed(types@);
    }
    let len = chunk.len();
    let mut fields: Vec<WitValue> = Vec::new();
    let mut end = origin;
    let mut i: usize = 0;
    while i < types.len()
        invariant
            i <= types@.len(),
            len == chunk@.len(),
            b == chunk@.subrange(start as int, chunk@.len() as int),
            mem == memory.spec_bytes(),
            memory.wf(),
            forall|k: int| 0 <= k < types@.len() ==> #[trigger] well_formed(types@[k]),
            fields_end(types@, origin as nat) <= u32::MAX,
            start + fields_end(types@, origin as nat) <= chunk@.len(),
            end == fields_end(types@.take(i as int), origin as nat),
            fields_at(types@.take(i as int), b, origin as nat, mem) == Some(models(fields@)),
        decreases types@.len() - i,
    {
        proof {
            lemma_fields_end_step(types@, origin as nat, i as int);
            lemma_fields_end_prefix(types@, origin as nat, i as int + 1);
            lemma_fields_end_prefix(types@, origin as nat, i as int);
            assert(types@.take(i + 1).drop_last() =~= types@.take(i as int));
            if all_inline(types@) {
                lemma_all_inline(types@, i as int);
            }
        }
        let alignment = types[i].alignment();
        let offset = end + padding(end, alignment);
        proof {
            assert(chunk@.subrange(start + offset, chunk@.len() as int) =~= b.subrange(
                offset as int,
                b.len() as int,
            ));
        }
        match decode_at(&types[i], memory, chunk, start + offset as usize) {
            Ok(value) => {
                proof {
                    lemma_models_push(fields@, value);
                }
                fields.push(value);
            },
            Err(e) => {
                proof {
                    lemma_fields_at_prefix_none(types@, b, origin as nat, mem, i as int + 1);
                }
                return Err(e);
            },
        }
        end = offset + types[i].size();
        i = i + 1;
    }
    assert(types@.take(types@.len() as int) =~= types@);
    Ok(fields)
}

/// Stores `v`, a value of type `t`, at `location`.
///
/// Out-of-line data (string bytes, list elements) goes to fresh allocations; an inline value
/// writes exactly its encoding over `size_of(t)` bytes at `location`. When the destination lies
/// below the allocator's heap end, the stored bytes read back as `v`.
pub fn store(t: &TypeDescriptor, v: &WitValue, memory: &mut LinearMemory, location: GuestPointer) -> (r:
    Result<(), RuntimeError>)
    requires
        has_type(model(*v), *t),
        well_formed(*t),
        old(memory).wf(),
    ensures
        final(memory).wf(),
        final(memory).spec_bytes().len() == old(memory).spec_bytes().len(),
        forall|i: int|
            0 <= i < old(memory).spec_heap_end() && !(location.0 <= i < location.0 + size_of(*t))
                ==> #[trigger] final(memory).spec_bytes()[i] == old(memory).spec_bytes()[i],
        is_inline(*t) && location.0 + size_of(*t) <= old(memory).spec_bytes().len() ==> r is Ok
            && final(memory).spec_bytes() == old(memory).spec_bytes().update_subrange_with(
            location.0 as int,
            encode_spec(*t, model(*v)),
        ) && final(memory).spec_heap_end() == old(memory).spec_heap_end(),
        is_inline(*t) && location.0 + size_of(*t) > old(memory).spec_bytes().len() ==> r == Err::<
            (),
            RuntimeError,
        >(RuntimeError::OutOfBounds) && final(memory).spec_bytes() == old(memory).spec_bytes()
            && final(memory).spec_heap_end() == old(memory).spec_heap_end(),
        r is Ok && location.0 + size_of(*t) <= old(memory).spec_heap_end() ==> value_at(
            *t,
            final(memory).spec_bytes().subrange(location.0 as int, location.0 + size_of(*t)),
            final(memory).spec_bytes(),
        ) == Some(model(*v)),
        *v is Text && text_fits(*old(memory), v->Text_0@) && location.0 + 8
            <= old(memory).spec_heap_end() ==> ({
            let address = old(memory).spec_heap_end();
            let length = encode_utf8(v->Text_0@).len();
            &&& r is Ok
            &&& final(memory).spec_bytes().subrange(location.0 as int, location.0 + 8)
                == le_bytes(address, 4) + le_bytes(length, 4)
            &&& final(memory).spec_bytes().subrange(address as int, (address + length) as int)
                == encode_utf8(v->Text_0@)
            &&& final(memory).spec_heap_end() == address + length
        }),
        *v is List && list_fits(*old(memory), list_element(*t), v->List_0@.len()) && location.0 + 8
            <= old(memory).spec_heap_end() ==> r is Ok && final(memory).spec_bytes().subrange(
            location.0 as int,
            location.0 + 8,
        ) == le_bytes(
            align_up(old(memory).spec_heap_end(), alignment_of(list_element(*t))),
            4,
        ) + le_bytes(v->List_0@.len(), 4),
        *v is List && list_fits(*old(memory), list_element(*t), v->List_0@.len()) && location.0 + 8
            <= old(memory).spec_heap_end() ==> final(memory).spec_heap_end() == align_up(
            old(memory).spec_heap_end(),
            alignment_of(list_element(*t)),
        ) + v->List_0@.len() * stride_spec(list_element(*t)),
        *v is List && r is Ok && location.0 + 8 <= old(memory).spec_heap_end() ==> ({
            let address = from_le(final(memory).spec_bytes().subrange(location.0 as int, location.0 + 4));
            &&& old(memory).spec_heap_end() <= address
            &&& address + v->List_0@.len() * stride_spec(list_element(*t))
                <= final(memory).spec_heap_end()
        }),
        *v is List && v->List_0@.len() * stride_spec(list_element(*t)) > MAX_ALLOCATION ==> r is Err,
        r is Err ==> final(memory).spec_heap_end() == old(memory).spec_heap_end() && forall|i: int|
            0 <= i < old(memory).spec_heap_end() ==> #[trigger] final(memory).spec_bytes()[i]
                == old(memory).spec_bytes()[i],
        r is Ok ==> old(memory).spec_heap_end() <= final(memory).spec_heap_end(),
        r is Ok && location.0 + size_of(*t) <= old(memory).spec_heap_end() ==> forall|
            mem: Seq<u8>,
        |
            agree_on(
                mem,
                final(memory).spec_bytes(),
                old(memory).spec_heap_end(),
                final(memory).spec_heap_end(),
            ) && mem.subrange(location.0 as int, location.0 + size_of(*t))
                == final(memory).spec_bytes().subrange(location.0 as int, location.0 + size_of(*t))
                ==> #[trigger] value_at(
                *t,
                mem.subrange(location.0 as int, location.0 + size_of(*t)),
                mem,
            ) == Some(model(*v)),
        out_of_line_fits(*t, model(*v), *old(memory)) && location.0 + size_of(*t)
            <= old(memory).spec_heap_end() ==> r is Ok && final(memory).spec_heap_end()
            == encoded_heap_end(*t, model(*v), old(memory).spec_heap_end())->Some_0,
{
    let mut chunk: Vec<u8> = Vec::new();
    let ghost before = *memory;
    let mark = memory.heap_end();
    match encode_into(t, v, memory, &mut chunk) {
        Ok(()) => {},
        Err(e) => {
            memory.release_to(mark);
            return Err(e);
        },
    }
    proof {
        if is_inline(*t) {
            lemma_encode_len(*t, model(*v));
        }
    }
    let ghost encoded = *memory;
    let r = memory.write(location, &chunk);
    if r.is_err() {
        memory.release_to(mark);
        return r;
    }
    proof {
        if location.0 + size_of(*t) <= before.spec_heap_end() {
            let after = memory.spec_bytes();
            let n = location.0 + size_of(*t);
            assert(chunk@.subrange(0, chunk@.len() as int) =~= chunk@);
            assert(after.subrange(location.0 as int, n) =~= chunk@);
            assert forall|mem: Seq<u8>|
                agree_on(mem, after, before.spec_heap_end(), memory.spec_heap_end())
                    && mem.subrange(location.0 as int, n) == after.subrange(location.0 as int, n)
                    implies #[trigger] value_at(*t, mem.subrange(location.0 as int, n), mem) == Some(
                model(*v),
            ) by {
                assert forall|k: int| before.spec_heap_end() <= k < encoded.spec_heap_end() implies #[trigger] mem[k]
                    == encoded.spec_bytes()[k] by {
                    assert(mem[k] == after[k]);
                }
                assert(agree_on(mem, encoded.spec_bytes(), before.spec_heap_end(), encoded.spec_heap_end()));
                assert(value_at(*t, chunk@, mem) == Some(model(*v)));
            }
        }
        if r is Ok && location.0 + size_of(*t) <= before.spec_heap_end() {
            let after = memory.spec_bytes();
            assert(chunk@.subrange(0, chunk@.len() as int) =~= chunk@);
            assert forall|k: int| before.spec_heap_end() <= k < encoded.spec_heap_end() implies #[trigger] after[k]
                == encoded.spec_bytes()[k] by {}
            assert(agree_on(after, encoded.spec_bytes(), before.spec_heap_end(), encoded.spec_heap_end()));
            assert(after.subrange(location.0 as int, location.0 + size_of(*t)) =~= chunk@);
        }
        if *v is List && location.0 + 8 <= before.spec_heap_end() {
            let after = memory.spec_bytes();
            assert(after.subrange(location.0 as int, location.0 + 8) =~= chunk@);
            assert(after.subrange(location.0 as int, location.0 + 4) =~= chunk@.subrange(0, 4));
        }
        if *v is Text && text_fits(before, v->Text_0@) && location.0 + 8 <= before.spec_heap_end() {
            let address = before.spec_heap_end();
            let length = encode_utf8(v->Text_0@).len();
            let after = memory.spec_bytes();
            assert(chunk@ =~= le_bytes(address, 4) + le_bytes(length, 4));
            assert(after.subrange(location.0 as int, location.0 + 8) =~= chunk@);
            assert(after.subrange(address as int, (address + length) as int) =~= encoded.spec_bytes().subrange(
                address as int,
                (address + length) as int,
            ));
        }
        assert forall|i: int|
            0 <= i < before.spec_heap_end() && !(location.0 <= i < location.0 + size_of(
                *t,
            )) implies #[trigger] memory.spec_bytes()[i] == before.spec_bytes()[i] by {
            assert(memory.spec_bytes()[i] == encoded.spec_bytes()[i]);
        }
    }
    r
}

/// Loads the value of type `t` stored at `location`.
///
/// Fails with `OutOfBounds` where the value would reach past the end of memory, with
/// `InvalidLayout` where a discriminant names no case, and with `InvalidString` where string
/// bytes are not UTF-8.
pub fn load(t: &TypeDescriptor, memory: &LinearMemory, location: GuestPointer) -> (r: Result<
    WitValue,
    RuntimeError,
>)
    requires
        well_formed(*t),
        memory.wf(),
    ensures
        location.0 + size_of(*t) > memory.spec_bytes().len() ==> r == Err::<WitValue, RuntimeError>(
            RuntimeError::OutOfBounds,
        ),
        is_inline(*t) && location.0 + size_of(*t) <= memory.spec_bytes().len() ==> match decode_spec(
            *t,
            memory.spec_bytes().subrange(location.0 as int, location.0 + size_of(*t)),
        ) {
            Some(m) => r is Ok && model(r->Ok_0) == m,
            None => r == Err::<WitValue, RuntimeError>(RuntimeError::InvalidLayout),
        },
        location.0 + size_of(*t) <= memory.spec_bytes().len() ==> match value_at(
            *t,
            memory.spec_bytes().subrange(location.0 as int, location.0 + size_of(*t)),
            memory.spec_bytes(),
        ) {
            Some(m) => r is Ok && model(r->Ok_0) == m,
            None => r is Err,
        },
        location.0 + size_of(*t) <= memory.spec_bytes().len() && names_no_case(
            *t,
            memory.spec_bytes().subrange(location.0 as int, location.0 + size_of(*t)),
        ) ==> r == Err::<WitValue, RuntimeError>(RuntimeError::InvalidLayout),
{
    let size = t.size();
    let chunk = match memory.read(location, size) {
        Ok(chunk) => chunk,
        Err(e) => {
            return Err(e);
        },
    };
    assert(chunk@.subrange(0, chunk@.len() as int) =~= chunk@);
    proof {
        if is_inline(*t) {
            lemma_value_at_inline(*t, chunk@, memory.spec_bytes());
        }
    }
    decode_at(t, memory, &chunk, 0)
}

/// Whether `t` is an enum whose discriminant bytes at the start of `b` name no case.
pub open spec fn names_no_case(t: TypeDescriptor, b: Seq<u8>) -> bool {
    match t {
        TypeDescriptor::Variant(cases) => from_le(
            b.subrange(0, discriminant_width_spec(cases@.len()) as int),
        ) >= cases@.len(),
        _ => false,
    }
}

/// Stored discriminant bytes naming no case make decoding fail instead of yielding a value.
pub proof fn lemma_invalid_discriminant_decode(t: TypeDescriptor, b: Seq<u8>)
    requires
        t is Variant,
        from_le(b.subrange(0, discriminant_width_spec(t->Variant_0@.len()) as int))
            >= t->Variant_0@.len(),
    ensures
        decode_spec(t, b) is None,
{
}

/// Loading from where an inline value was stored gives the value back.
pub proof fn lemma_load_after_store(t: TypeDescriptor, m: ValueModel, bytes: Seq<u8>, location: nat)
    requires
        has_type(m, t),
        is_inline(t),
        location + size_of(t) <= bytes.len(),
    ensures
        decode_spec(
            t,
            bytes.update_subrange_with(location as int, encode_spec(t, m)).subrange(
                location as int,
                (location + size_of(t)) as int,
            ),
        ) == Some(m),
{
    lemma_encode_len(t, m);
    let stored = bytes.update_subrange_with(location as int, encode_spec(t, m)).subrange(
        location as int,
        (location + size_of(t)) as int,
    );
    assert(stored =~= encode_spec(t, m));
    assert(stored.subrange(0, size_of(t) as int) =~= stored);
    lemma_decode_encode(t, m, stored);
}

} // verus!
