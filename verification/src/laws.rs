//! The laws the format obeys, stated and proved over the wire model.
//!
//! Each `lemma_*_roundtrip` says: bytes assembled by the builder from
//! well-formed children verify, and each component can be read back out of
//! them unchanged.  `lemma_default_valid` says the canonical default of a
//! type verifies.  The `*_aligned` lemmas say every component offset the
//! decoder computes is a multiple of the component's alignment.

use crate::ast::{ast_wf, decl_wf, fixed_size_of, struct_offset, TopDecl};
use crate::builder::{
    build_array_spec, build_dynvec_spec, build_fixvec_spec, build_run_spec, build_struct_spec,
    build_table_spec, build_union_spec, fixed_run_bytes, lemma_build_run_index,
    lemma_fixed_run_index, lemma_fixed_run_len, lemma_run_end_mono, lemma_struct_body_index,
    lemma_struct_body_len, run_end, run_offset,
};
use crate::wire::{
    dv_ext_end, dv_item_frame, dv_item_slice, dv_items_valid, dv_off, dv_prev_end, fixed_item_at,
    fixed_pad_at, lemma_fixed_run_bounds, lemma_peek_extend, lemma_peek_of_valid,
    lemma_struct_offset_mono, tb_item_frame, tb_item_slice, tb_items_valid, tb_prev_end,
    valid_encoding, wire_wf,
};
use crate::{
    all_zero, lemma_number_roundtrip, spec_number_bytes, spec_padding, spec_read_number, zeros,
    Alignment,
};
use vstd::prelude::*;

verus! {

/// An offset rounded up by its padding is a multiple of the alignment.
pub proof fn lemma_full_size_aligned(align: nat, size: nat)
    requires
        1 <= align,
    ensures
        ((size + spec_padding(align, size)) as int) % (align as int) == 0,
{
    let a = align as int;
    let s = size as int;
    if s % a != 0 {
        assert((s + (a - s % a)) % a == 0) by (nonlinear_arith)
            requires
                1 <= a,
                s >= 0,
                s % a != 0,
        ;
    }
}

/// A multiple of a multiple of the alignment is still aligned.
pub proof fn lemma_multiple_aligned(a: int, step: int, j: int)
    requires
        1 <= a,
        0 <= j,
        step % a == 0,
    ensures
        (step * j) % a == 0,
{
    let q = step / a;
    vstd::arithmetic::div_mod::lemma_fundamental_div_mod(step, a);
    assert(step * j == (q * j) * a) by (nonlinear_arith)
        requires
            step == a * q,
    ;
    vstd::arithmetic::div_mod::lemma_mod_multiples_basic(q * j, a);
}

/// Every array item's start offset is a multiple of the item alignment.
pub proof fn lemma_array_item_aligned(d: Seq<TopDecl>, i: int, j: int)
    requires
        wire_wf(d, i),
        d[i] is Array,
        0 <= j < d[i]->Array_item_count,
    ensures
        ((d[i]->Array_item_size + d[i]->Array_item_padding) * j) % (
        d[i]->Array_item_alignment.spec_size() as int) == 0,
{
    assert(decl_wf(d, i));
    let a = d[i]->Array_item_alignment.spec_size() as int;
    let s = d[i]->Array_item_size as int;
    let p = d[i]->Array_item_padding as int;
    lemma_full_size_aligned(d[i]->Array_item_alignment.spec_size(), d[i]->Array_item_size as nat);
    lemma_multiple_aligned(a, s + p, j);
}

/// Every fix-vector item's start offset is a multiple of the item
/// alignment.
pub proof fn lemma_fixvec_item_aligned(d: Seq<TopDecl>, i: int, j: int)
    requires
        wire_wf(d, i),
        d[i] is FixVec,
        0 <= j,
    ensures
        (4 + d[i]->FixVec_header_padding + (d[i]->FixVec_item_size + d[i]->FixVec_item_padding)
            * j) % (d[i]->FixVec_item_alignment.spec_size() as int) == 0,
{
    assert(decl_wf(d, i));
    let al = d[i]->FixVec_item_alignment;
    let a = al.spec_size() as int;
    let s = d[i]->FixVec_item_size as int;
    let p = d[i]->FixVec_item_padding as int;
    lemma_full_size_aligned(al.spec_size(), 4);
    lemma_full_size_aligned(al.spec_size(), d[i]->FixVec_item_size as nat);
    lemma_multiple_aligned(a, s + p, j);
    vstd::arithmetic::div_mod::lemma_add_mod_noop(
        4 + d[i]->FixVec_header_padding as int,
        (s + p) * j,
        a,
    );
}

/// Every struct field's start offset is a multiple of the field's
/// alignment.
pub proof fn lemma_struct_field_aligned(d: Seq<TopDecl>, i: int, j: int)
    requires
        wire_wf(d, i),
        d[i] is Struct,
        0 <= j < d[i]->Struct_fields@.len(),
    ensures
        (struct_offset(d[i]->Struct_field_sizes@, d[i]->Struct_field_paddings@, j)
            + d[i]->Struct_field_paddings@[j]) % (
        d[i]->Struct_field_alignments@[j].spec_size() as int) == 0,
{
    assert(decl_wf(d, i));
    let off = struct_offset(d[i]->Struct_field_sizes@, d[i]->Struct_field_paddings@, j);
    lemma_struct_offset_mono(d[i]->Struct_field_sizes@, d[i]->Struct_field_paddings@, 0, j);
    lemma_full_size_aligned(d[i]->Struct_field_alignments@[j].spec_size(), off as nat);
}

/// Every offset the builder records for a non-empty child is a multiple of
/// that child's alignment.
pub proof fn lemma_run_offset_aligned(
    aligns: Seq<Alignment>,
    children: Seq<Seq<u8>>,
    hs: int,
    j: int,
)
    requires
        0 <= j < children.len(),
        j < aligns.len(),
        children[j].len() >= 1,
        hs >= 0,
    ensures
        run_offset(aligns, children, hs, j) % (aligns[j].spec_size() as int) == 0,
{
    lemma_run_end_mono(aligns, children, hs, 0, j);
    lemma_full_size_aligned(aligns[j].spec_size(), run_end(aligns, children, hs, j) as nat);
}

/// Built union bytes verify, and the inner value reads back out unchanged.
pub proof fn lemma_union_roundtrip(
    d: Seq<TopDecl>,
    i: int,
    item_id: int,
    inner: Seq<u8>,
    compatible: bool,
)
    requires
        wire_wf(d, i),
        d[i] is Union,
        0 <= item_id < d[i]->Union_items@.len(),
        item_id <= u32::MAX,
        8 + inner.len() <= u32::MAX,
        valid_encoding(d, d[i]->Union_items@[item_id] as int, inner, compatible),
    ensures
        valid_encoding(d, i, build_union_spec(item_id, inner), compatible),
        build_union_spec(item_id, inner).skip(8) == inner,
{
    assert(decl_wf(d, i));
    let b = build_union_spec(item_id, inner);
    lemma_number_roundtrip((8 + inner.len()) as u32);
    lemma_number_roundtrip(item_id as u32);
    assert(b.subrange(0, 4) =~= spec_number_bytes((8 + inner.len()) as u32));
    assert(b.subrange(4, 8) =~= spec_number_bytes(item_id as u32));
    assert(spec_number_bytes((8 + inner.len()) as u32).subrange(0, 4) =~= spec_number_bytes(
        (8 + inner.len()) as u32,
    ));
    assert(spec_number_bytes(item_id as u32).subrange(0, 4) =~= spec_number_bytes(
        item_id as u32,
    ));
    assert(b.skip(8) =~= inner);
}

/// Built array bytes verify, and every item reads back out unchanged.
pub proof fn lemma_array_roundtrip(
    d: Seq<TopDecl>,
    i: int,
    children: Seq<Seq<u8>>,
    compatible: bool,
)
    requires
        wire_wf(d, i),
        d[i] is Array,
        children.len() == d[i]->Array_item_count,
        forall|j: int|
            0 <= j < children.len() ==> (#[trigger] children[j]).len() == d[i]->Array_item_size,
        forall|j: int|
            0 <= j < children.len() ==> valid_encoding(
                d,
                d[i]->Array_typ as int,
                #[trigger] children[j],
                compatible,
            ),
    ensures
        valid_encoding(
            d,
            i,
            build_array_spec(children, d[i]->Array_item_padding as int),
            compatible,
        ),
        forall|j: int|
            0 <= j < children.len() ==> #[trigger] fixed_item_at(
                build_array_spec(children, d[i]->Array_item_padding as int),
                0,
                d[i]->Array_item_size as int,
                d[i]->Array_item_padding as int,
                j,
            ) == children[j],
{
    assert(decl_wf(d, i));
    let s = d[i]->Array_item_size as int;
    let p = d[i]->Array_item_padding as int;
    let k = d[i]->Array_item_count as int;
    let b = build_array_spec(children, p);
    lemma_fixed_run_len(children, s, p, k);
    assert forall|j: int| 0 <= j < k implies #[trigger] fixed_item_at(b, 0, s, p, j)
        == children[j] by {
        lemma_fixed_run_index(children, s, p, k, j);
        assert(fixed_item_at(b, 0, s, p, j) =~= b.subrange((s + p) * j, (s + p) * j + s));
    }
    assert forall|j: int| 1 <= j < k implies all_zero(#[trigger] fixed_pad_at(b, 0, s, p, j)) by {
        lemma_fixed_run_index(children, s, p, k, j);
        assert(fixed_pad_at(b, 0, s, p, j) =~= b.subrange((s + p) * j - p, (s + p) * j));
    }
}

/// Built fix-vector bytes verify, and every item reads back out unchanged.
pub proof fn lemma_fixvec_roundtrip(
    d: Seq<TopDecl>,
    i: int,
    children: Seq<Seq<u8>>,
    compatible: bool,
)
    requires
        wire_wf(d, i),
        d[i] is FixVec,
        children.len() <= u32::MAX,
        4 + d[i]->FixVec_header_padding + (d[i]->FixVec_item_size + d[i]->FixVec_item_padding)
            * children.len() - d[i]->FixVec_item_padding <= u32::MAX,
        forall|j: int|
            0 <= j < children.len() ==> (#[trigger] children[j]).len() == d[i]->FixVec_item_size,
        forall|j: int|
            0 <= j < children.len() ==> valid_encoding(
                d,
                d[i]->FixVec_typ as int,
                #[trigger] children[j],
                compatible,
            ),
    ensures
        valid_encoding(
            d,
            i,
            build_fixvec_spec(
                children,
                d[i]->FixVec_item_padding as int,
                d[i]->FixVec_header_padding as int,
            ),
            compatible,
        ),
        forall|j: int|
            0 <= j < children.len() ==> #[trigger] fixed_item_at(
                build_fixvec_spec(
                    children,
                    d[i]->FixVec_item_padding as int,
                    d[i]->FixVec_header_padding as int,
                ),
                4 + d[i]->FixVec_header_padding as int,
                d[i]->FixVec_item_size as int,
                d[i]->FixVec_item_padding as int,
                j,
            ) == children[j],
{
    assert(decl_wf(d, i));
    let s = d[i]->FixVec_item_size as int;
    let p = d[i]->FixVec_item_padding as int;
    let hp = d[i]->FixVec_header_padding as int;
    let k = children.len() as int;
    let b = build_fixvec_spec(children, p, hp);
    lemma_number_roundtrip(k as u32);
    assert(spec_number_bytes(k as u32).subrange(0, 4) =~= spec_number_bytes(k as u32));
    if k == 0 {
        assert(b.subrange(0, 4) =~= spec_number_bytes(0u32));
        lemma_number_roundtrip(0);
        assert(spec_number_bytes(0u32).subrange(0, 4) =~= spec_number_bytes(0u32));
        assert(spec_read_number(b, 0) == 0);
    } else {
        lemma_fixed_run_len(children, s, p, k);
        assert(b.subrange(0, 4) =~= spec_number_bytes(k as u32));
        assert(spec_read_number(b, 0) as int == k);
        assert(b.subrange(4, 4 + hp) =~= zeros(hp as nat));
        assert forall|j: int| 0 <= j < k implies #[trigger] fixed_item_at(b, 4 + hp, s, p, j)
            == children[j] by {
            lemma_fixed_run_index(children, s, p, k, j);
            lemma_fixed_run_bounds(s, p, k, j);
            assert(fixed_item_at(b, 4 + hp, s, p, j) =~= fixed_run_bytes(children, p, k).subrange(
                (s + p) * j,
                (s + p) * j + s,
            ));
        }
        assert forall|j: int| 1 <= j < k implies all_zero(
            #[trigger] fixed_pad_at(b, 4 + hp, s, p, j),
        ) by {
            lemma_fixed_run_index(children, s, p, k, j);
            lemma_fixed_run_bounds(s, p, k, j);
            assert(fixed_pad_at(b, 4 + hp, s, p, j) =~= fixed_run_bytes(children, p, k).subrange(
                (s + p) * j - p,
                (s + p) * j,
            ));
        }
    }
}

/// Built struct bytes verify, and every field reads back out unchanged.
pub proof fn lemma_struct_roundtrip(
    d: Seq<TopDecl>,
    i: int,
    children: Seq<Seq<u8>>,
    compatible: bool,
)
    requires
        wire_wf(d, i),
        d[i] is Struct,
        children.len() == d[i]->Struct_fields@.len(),
        forall|j: int|
            0 <= j < children.len() ==> (#[trigger] children[j]).len() == d[
                i
            ]->Struct_field_sizes@[j],
        forall|j: int|
            0 <= j < children.len() ==> valid_encoding(
                d,
                #[trigger] d[i]->Struct_fields@[j].typ as int,
                children[j],
                compatible,
            ),
    ensures
        valid_encoding(
            d,
            i,
            build_struct_spec(children, d[i]->Struct_field_paddings@),
            compatible,
        ),
        forall|j: int|
            0 <= j < children.len() ==> build_struct_spec(
                children,
                d[i]->Struct_field_paddings@,
            ).subrange(
                struct_offset(d[i]->Struct_field_sizes@, d[i]->Struct_field_paddings@, j) + d[
                    i
                ]->Struct_field_paddings@[j],
                struct_offset(d[i]->Struct_field_sizes@, d[i]->Struct_field_paddings@, j) + d[
                    i
                ]->Struct_field_paddings@[j] + d[i]->Struct_field_sizes@[j],
            ) == #[trigger] children[j],
{
    assert(decl_wf(d, i));
    let sz = d[i]->Struct_field_sizes@;
    let pd = d[i]->Struct_field_paddings@;
    let n = children.len() as int;
    let b = build_struct_spec(children, pd);
    lemma_struct_body_len(children, sz, pd, n);
    assert forall|j: int| 0 <= j < n implies b.subrange(
        struct_offset(sz, pd, j) + pd[j],
        struct_offset(sz, pd, j) + pd[j] + sz[j],
    ) == #[trigger] children[j] by {
        lemma_struct_body_index(children, sz, pd, n, j);
    }
    assert forall|j: int| 0 <= j < n implies all_zero(
        b.subrange(struct_offset(sz, pd, j), struct_offset(sz, pd, j) + pd[j]),
    ) by {
        lemma_struct_body_index(children, sz, pd, n, j);
    }
}

/// Where each dyn-vector item ends in a built run: exactly at the run
/// cursor, because each item's claimed length is its real length.
proof fn lemma_run_prev_end(
    d: Seq<TopDecl>,
    t: int,
    aligns: Seq<Alignment>,
    children: Seq<Seq<u8>>,
    j: int,
    compatible: bool,
)
    requires
        wire_wf(d, t),
        children.len() >= 1,
        0 <= j <= children.len(),
        run_end(
            aligns,
            children,
            4 * (2 + children.len() as int),
            children.len() as int,
        ) <= u32::MAX,
        forall|l: int| 0 <= l < children.len() ==> (#[trigger] children[l]).len() >= 1,
        forall|l: int|
            0 <= l < children.len() ==> valid_encoding(d, t, #[trigger] children[l], compatible),
    ensures
        dv_prev_end(
            d,
            t,
            build_run_spec(aligns, children),
            children.len() as int,
            j,
        ) == run_end(aligns, children, 4 * (2 + children.len() as int), j),
    decreases j,
{
    let n = children.len() as int;
    let hs = 4 * (2 + n);
    let b = build_run_spec(aligns, children);
    if j == 0 {
        lemma_build_run_index(aligns, children, 0);
    } else {
        lemma_run_prev_end(d, t, aligns, children, j - 1, compatible);
        lemma_build_run_index(aligns, children, j - 1);
        lemma_run_end_mono(aligns, children, hs, j, n);
        lemma_run_end_mono(aligns, children, hs, 0, j - 1);
        let start = dv_off(b, j - 1);
        let next = dv_ext_end(b, n, j - 1);
        assert(run_end(aligns, children, hs, j) == run_offset(aligns, children, hs, j - 1)
            + children[j - 1].len());
        if j - 1 < n - 1 {
            lemma_build_run_index(aligns, children, j);
            lemma_run_end_mono(aligns, children, hs, 0, j);
            lemma_run_end_mono(aligns, children, hs, j + 1, n);
            assert(run_end(aligns, children, hs, j + 1) == run_offset(aligns, children, hs, j)
                + children[j].len());
            assert(next == run_offset(aligns, children, hs, j));
            assert(next <= b.len());
            assert(start + children[j - 1].len() <= next);
        } else {
            assert(next == run_end(aligns, children, hs, n));
            assert(start + children[j - 1].len() <= next);
        }
        let ext = b.subrange(start, next);
        assert(ext.subrange(0, children[j - 1].len() as int) =~= b.subrange(
            start,
            start + children[j - 1].len(),
        ));
        lemma_peek_extend(d, t, children[j - 1], ext, compatible);
    }
}

/// Every item of a built run is in order: frame conditions hold and the
/// item's claimed bytes are exactly the child handed to the builder.
proof fn lemma_run_items(
    d: Seq<TopDecl>,
    t: int,
    aligns: Seq<Alignment>,
    children: Seq<Seq<u8>>,
    j: int,
    compatible: bool,
)
    requires
        wire_wf(d, t),
        children.len() >= 1,
        0 <= j <= children.len(),
        run_end(
            aligns,
            children,
            4 * (2 + children.len() as int),
            children.len() as int,
        ) <= u32::MAX,
        forall|l: int| 0 <= l < children.len() ==> (#[trigger] children[l]).len() >= 1,
        forall|l: int|
            0 <= l < children.len() ==> valid_encoding(d, t, #[trigger] children[l], compatible),
    ensures
        dv_items_valid(
            d,
            t,
            build_run_spec(aligns, children),
            children.len() as int,
            j,
            compatible,
        ),
        forall|l: int|
            j <= l < children.len() ==> #[trigger] dv_item_slice(
                d,
                t,
                build_run_spec(aligns, children),
                children.len() as int,
                l,
            ) == children[l],
    decreases children.len() - j,
{
    let n = children.len() as int;
    let hs = 4 * (2 + n);
    let b = build_run_spec(aligns, children);
    if j < n {
        lemma_run_prev_end(d, t, aligns, children, j, compatible);
        lemma_build_run_index(aligns, children, j);
        lemma_run_end_mono(aligns, children, hs, j + 1, n);
        lemma_run_end_mono(aligns, children, hs, 0, j);
        let start = dv_off(b, j);
        let next = dv_ext_end(b, n, j);
        assert(run_end(aligns, children, hs, j + 1) == run_offset(aligns, children, hs, j)
            + children[j].len());
        if j < n - 1 {
            lemma_build_run_index(aligns, children, j + 1);
            lemma_run_end_mono(aligns, children, hs, 0, j + 1);
            lemma_run_end_mono(aligns, children, hs, j + 2, n);
            assert(run_end(aligns, children, hs, j + 2) == run_offset(aligns, children, hs, j + 1)
                + children[j + 1].len());
            assert(next == run_offset(aligns, children, hs, j + 1));
            assert(next <= b.len());
            assert(start + children[j].len() <= next);
        } else {
            assert(next == run_end(aligns, children, hs, n));
            assert(start + children[j].len() <= next);
        }
        let ext = b.subrange(start, next);
        assert(ext.subrange(0, children[j].len() as int) =~= b.subrange(
            start,
            start + children[j].len(),
        ));
        lemma_peek_extend(d, t, children[j], ext, compatible);
        assert(dv_item_slice(d, t, b, n, j) == children[j]);
        assert(dv_item_frame(d, t, b, n, j));
        lemma_run_items(d, t, aligns, children, j + 1, compatible);
    }
}

/// Built dyn-vector bytes verify, and every item reads back out unchanged.
pub proof fn lemma_dynvec_roundtrip(
    d: Seq<TopDecl>,
    i: int,
    children: Seq<Seq<u8>>,
    compatible: bool,
)
    requires
        wire_wf(d, i),
        d[i] is DynVec,
        children.len() == 0 || run_end(
            Seq::new(children.len(), |j: int| d[i]->DynVec_item_alignment),
            children,
            4 * (2 + children.len() as int),
            children.len() as int,
        ) <= u32::MAX,
        forall|l: int| 0 <= l < children.len() ==> (#[trigger] children[l]).len() >= 1,
        forall|l: int|
            0 <= l < children.len() ==> valid_encoding(
                d,
                d[i]->DynVec_typ as int,
                #[trigger] children[l],
                compatible,
            ),
    ensures
        valid_encoding(
            d,
            i,
            build_dynvec_spec(d[i]->DynVec_item_alignment, children),
            compatible,
        ),
        forall|l: int|
            0 <= l < children.len() ==> #[trigger] dv_item_slice(
                d,
                d[i]->DynVec_typ as int,
                build_dynvec_spec(d[i]->DynVec_item_alignment, children),
                children.len() as int,
                l,
            ) == children[l],
{
    assert(decl_wf(d, i));
    let t = d[i]->DynVec_typ as int;
    let a = d[i]->DynVec_item_alignment;
    let n = children.len() as int;
    let b = build_dynvec_spec(a, children);
    if n == 0 {
        lemma_number_roundtrip(8);
        lemma_number_roundtrip(0);
        assert(b.subrange(0, 4) =~= spec_number_bytes(8u32));
        assert(b.subrange(4, 8) =~= spec_number_bytes(0u32));
        assert(spec_number_bytes(8u32).subrange(0, 4) =~= spec_number_bytes(8u32));
        assert(spec_number_bytes(0u32).subrange(0, 4) =~= spec_number_bytes(0u32));
    } else {
        let aligns = Seq::new(children.len(), |j: int| a);
        let hs = 4 * (2 + n);
        lemma_build_run_index(aligns, children, 0);
        lemma_run_items(d, t, aligns, children, 0, compatible);
        assert forall|l: int| 0 <= l < n implies #[trigger] dv_off(b, l) <= dv_ext_end(
            b,
            n,
            l,
        ) by {
            lemma_build_run_index(aligns, children, l);
            lemma_run_end_mono(aligns, children, hs, l + 1, n);
            if l < n - 1 {
                lemma_build_run_index(aligns, children, l + 1);
                lemma_run_end_mono(aligns, children, hs, 0, l + 1);
            }
        }
        lemma_run_end_mono(aligns, children, hs, 0, n);
    }
}

/// Where each declared field of a built table ends: exactly at the run
/// cursor.
proof fn lemma_table_prev_end(
    d: Seq<TopDecl>,
    i: int,
    aligns: Seq<Alignment>,
    children: Seq<Seq<u8>>,
    j: int,
    compatible: bool,
)
    requires
        wire_wf(d, i),
        d[i] is Table,
        d[i]->Table_fields@.len() == children.len(),
        d[i]->Table_field_alignments@ == aligns,
        children.len() >= 1,
        0 <= j <= children.len(),
        run_end(
            aligns,
            children,
            4 * (2 + children.len() as int),
            children.len() as int,
        ) <= u32::MAX,
        forall|l: int| 0 <= l < children.len() ==> (#[trigger] children[l]).len() >= 1,
        forall|l: int|
            0 <= l < children.len() ==> valid_encoding(
                d,
                #[trigger] d[i]->Table_fields@[l].typ as int,
                children[l],
                compatible,
            ),
    ensures
        tb_prev_end(
            d,
            d[i]->Table_fields@,
            build_run_spec(aligns, children),
            children.len() as int,
            4 * (2 + children.len() as int),
            j,
        ) == run_end(aligns, children, 4 * (2 + children.len() as int), j),
    decreases j,
{
    let fields = d[i]->Table_fields@;
    let n = children.len() as int;
    let hs = 4 * (2 + n);
    let b = build_run_spec(aligns, children);
    assert(decl_wf(d, i));
    if j > 0 {
        lemma_table_prev_end(d, i, aligns, children, j - 1, compatible);
        lemma_build_run_index(aligns, children, j - 1);
        lemma_run_end_mono(aligns, children, hs, j, n);
        lemma_run_end_mono(aligns, children, hs, 0, j - 1);
        let start = dv_off(b, j - 1);
        let next = dv_ext_end(b, n, j - 1);
        assert(run_end(aligns, children, hs, j) == run_offset(aligns, children, hs, j - 1)
            + children[j - 1].len());
        if j - 1 < n - 1 {
            lemma_build_run_index(aligns, children, j);
            lemma_run_end_mono(aligns, children, hs, 0, j);
            lemma_run_end_mono(aligns, children, hs, j + 1, n);
            assert(run_end(aligns, children, hs, j + 1) == run_offset(aligns, children, hs, j)
                + children[j].len());
            assert(next == run_offset(aligns, children, hs, j));
            assert(next <= b.len());
            assert(start + children[j - 1].len() <= next);
        } else {
            assert(next == run_end(aligns, children, hs, n));
            assert(start + children[j - 1].len() <= next);
        }
        let ext = b.subrange(start, next);
        assert(ext.subrange(0, children[j - 1].len() as int) =~= b.subrange(
            start,
            start + children[j - 1].len(),
        ));
        lemma_peek_extend(d, fields[j - 1].typ as int, children[j - 1], ext, compatible);
    }
}

/// Every declared field of a built table is in order: frame conditions hold
/// and the field's claimed bytes are exactly the child handed to the
/// builder.
proof fn lemma_table_items(
    d: Seq<TopDecl>,
    i: int,
    aligns: Seq<Alignment>,
    children: Seq<Seq<u8>>,
    j: int,
    compatible: bool,
)
    requires
        wire_wf(d, i),
        d[i] is Table,
        d[i]->Table_fields@.len() == children.len(),
        d[i]->Table_field_alignments@ == aligns,
        children.len() >= 1,
        0 <= j <= children.len(),
        run_end(
            aligns,
            children,
            4 * (2 + children.len() as int),
            children.len() as int,
        ) <= u32::MAX,
        forall|l: int| 0 <= l < children.len() ==> (#[trigger] children[l]).len() >= 1,
        forall|l: int|
            0 <= l < children.len() ==> valid_encoding(
                d,
                #[trigger] d[i]->Table_fields@[l].typ as int,
                children[l],
                compatible,
            ),
    ensures
        tb_items_valid(
            d,
            i,
            d[i]->Table_fields@,
            build_run_spec(aligns, children),
            children.len() as int,
            4 * (2 + children.len() as int),
            j,
            compatible,
        ),
        forall|l: int|
            j <= l < children.len() ==> #[trigger] tb_item_slice(
                d,
                d[i]->Table_fields@,
                build_run_spec(aligns, children),
                children.len() as int,
                l,
            ) == children[l],
    decreases children.len() - j,
{
    let fields = d[i]->Table_fields@;
    let n = children.len() as int;
    let hs = 4 * (2 + n);
    let b = build_run_spec(aligns, children);
    assert(decl_wf(d, i));
    if j < n {
        lemma_table_prev_end(d, i, aligns, children, j, compatible);
        lemma_build_run_index(aligns, children, j);
        lemma_run_end_mono(aligns, children, hs, j + 1, n);
        lemma_run_end_mono(aligns, children, hs, 0, j);
        let start = dv_off(b, j);
        let next = dv_ext_end(b, n, j);
        assert(run_end(aligns, children, hs, j + 1) == run_offset(aligns, children, hs, j)
            + children[j].len());
        if j < n - 1 {
            lemma_build_run_index(aligns, children, j + 1);
            lemma_run_end_mono(aligns, children, hs, 0, j + 1);
            lemma_run_end_mono(aligns, children, hs, j + 2, n);
            assert(run_end(aligns, children, hs, j + 2) == run_offset(aligns, children, hs, j + 1)
                + children[j + 1].len());
            assert(next == run_offset(aligns, children, hs, j + 1));
            assert(next <= b.len());
            assert(start + children[j].len() <= next);
        } else {
            assert(next == run_end(aligns, children, hs, n));
            assert(start + children[j].len() <= next);
        }
        let ext = b.subrange(start, next);
        assert(ext.subrange(0, children[j].len() as int) =~= b.subrange(
            start,
            start + children[j].len(),
        ));
        lemma_peek_extend(d, fields[j].typ as int, children[j], ext, compatible);
        assert(tb_item_slice(d, fields, b, n, j) == children[j]);
        assert(tb_item_frame(d, fields, b, n, hs, j));
        lemma_table_items(d, i, aligns, children, j + 1, compatible);
    }
}

/// Built table bytes verify, in either mode, and every declared field reads
/// back out unchanged.
pub proof fn lemma_table_roundtrip(
    d: Seq<TopDecl>,
    i: int,
    children: Seq<Seq<u8>>,
    compatible: bool,
)
    requires
        wire_wf(d, i),
        d[i] is Table,
        d[i]->Table_fields@.len() == children.len(),
        children.len() == 0 || run_end(
            d[i]->Table_field_alignments@,
            children,
            4 * (2 + children.len() as int),
            children.len() as int,
        ) <= u32::MAX,
        forall|l: int| 0 <= l < children.len() ==> (#[trigger] children[l]).len() >= 1,
        forall|l: int|
            0 <= l < children.len() ==> valid_encoding(
                d,
                #[trigger] d[i]->Table_fields@[l].typ as int,
                children[l],
                compatible,
            ),
    ensures
        valid_encoding(
            d,
            i,
            build_table_spec(d[i]->Table_field_alignments@, children),
            compatible,
        ),
        forall|l: int|
            0 <= l < children.len() ==> #[trigger] tb_item_slice(
                d,
                d[i]->Table_fields@,
                build_table_spec(d[i]->Table_field_alignments@, children),
                children.len() as int,
                l,
            ) == children[l],
{
    assert(decl_wf(d, i));
    let aligns = d[i]->Table_field_alignments@;
    let n = children.len() as int;
    let b = build_table_spec(aligns, children);
    if n == 0 {
        lemma_number_roundtrip(8);
        lemma_number_roundtrip(0);
        assert(b.subrange(0, 4) =~= spec_number_bytes(8u32));
        assert(b.subrange(4, 8) =~= spec_number_bytes(0u32));
        assert(spec_number_bytes(8u32).subrange(0, 4) =~= spec_number_bytes(8u32));
        assert(spec_number_bytes(0u32).subrange(0, 4) =~= spec_number_bytes(0u32));
    } else {
        let hs = 4 * (2 + n);
        lemma_build_run_index(aligns, children, 0);
        lemma_table_items(d, i, aligns, children, 0, compatible);
        assert forall|l: int| 0 <= l < n implies #[trigger] dv_off(b, l) <= dv_ext_end(
            b,
            n,
            l,
        ) by {
            lemma_build_run_index(aligns, children, l);
            lemma_run_end_mono(aligns, children, hs, l + 1, n);
            if l < n - 1 {
                lemma_build_run_index(aligns, children, l + 1);
                lemma_run_end_mono(aligns, children, hs, 0, l + 1);
            }
        }
        lemma_run_end_mono(aligns, children, hs, 0, n);
    }
}

/// Every declared field of a table slice accepted in compatible mode is
/// itself a valid encoding: appended unknown fields do not disturb the
/// declared ones.
pub proof fn lemma_table_field_valid(d: Seq<TopDecl>, i: int, b: Seq<u8>, j: int)
    requires
        wire_wf(d, i),
        d[i] is Table,
        valid_encoding(d, i, b, true),
        0 <= j < d[i]->Table_fields@.len(),
    ensures
        valid_encoding(
            d,
            d[i]->Table_fields@[j].typ as int,
            tb_item_slice(d, d[i]->Table_fields@, b, spec_read_number(b, 4) as int, j),
            true,
        ),
{
    assert(decl_wf(d, i));
    let fc = spec_read_number(b, 4) as int;
    crate::wire::lemma_tb_items_index(
        d,
        i,
        d[i]->Table_fields@,
        b,
        fc,
        4 * (2 + fc),
        0,
        j,
        true,
    );
}

/// A block of zeros of the right length is a valid encoding of any
/// fixed-size type: fixed-size shapes are atoms, arrays and structs, whose
/// leaves are atoms and whose padding must be zero.
pub proof fn lemma_zeros_valid(d: Seq<TopDecl>, t: int, compatible: bool)
    requires
        wire_wf(d, t),
        fixed_size_of(d, t) is Some,
    ensures
        valid_encoding(d, t, zeros(fixed_size_of(d, t).unwrap() as nat), compatible),
    decreases t,
{
    assert(decl_wf(d, t));
    let total = fixed_size_of(d, t).unwrap();
    crate::wire::lemma_fixed_size_bounds(d, t);
    let b = zeros(total as nat);
    match d[t] {
        TopDecl::Atom { .. } => {},
        TopDecl::Array { typ, item_size, item_padding, item_count, .. } => {
            let s = item_size as int;
            let p = item_padding as int;
            let k = item_count as int;
            crate::wire::lemma_array_total_bounds(s, p, k);
            lemma_zeros_valid(d, typ as int, compatible);
            assert forall|j: int| 0 <= j < k implies valid_encoding(
                d,
                typ as int,
                #[trigger] fixed_item_at(b, 0, s, p, j),
                compatible,
            ) by {
                lemma_fixed_run_bounds(s, p, k, j);
                assert(fixed_item_at(b, 0, s, p, j) =~= zeros(s as nat));
            }
            assert forall|j: int| 1 <= j < k implies all_zero(
                #[trigger] fixed_pad_at(b, 0, s, p, j),
            ) by {
                lemma_fixed_run_bounds(s, p, k, j);
            }
        },
        TopDecl::Struct { fields, field_sizes, field_paddings, .. } => {
            let n = fields@.len() as int;
            let sz = field_sizes@;
            let pd = field_paddings@;
            assert forall|j: int| 0 <= j < n implies valid_encoding(
                d,
                #[trigger] fields@[j].typ as int,
                b.subrange(
                    struct_offset(sz, pd, j) + pd[j],
                    struct_offset(sz, pd, j) + pd[j] + sz[j],
                ),
                compatible,
            ) by {
                lemma_struct_offset_mono(sz, pd, 0, j);
                lemma_struct_offset_mono(sz, pd, j + 1, n);
                lemma_zeros_valid(d, fields@[j].typ as int, compatible);
                assert(b.subrange(
                    struct_offset(sz, pd, j) + pd[j],
                    struct_offset(sz, pd, j) + pd[j] + sz[j],
                ) =~= zeros(sz[j] as nat));
            }
            assert forall|j: int| 0 <= j < n implies all_zero(
                b.subrange(struct_offset(sz, pd, j), struct_offset(sz, pd, j) + pd[j]),
            ) by {
                lemma_struct_offset_mono(sz, pd, 0, j);
                lemma_struct_offset_mono(sz, pd, j + 1, n);
            }
        },
        _ => {},
    }
}

/// Every non-option declaration has a non-empty default.
pub proof fn lemma_default_nonempty(d: Seq<TopDecl>, t: int)
    requires
        wire_wf(d, t),
        !(d[t] is Option_),
    ensures
        crate::defaults::default_of(d, t).len() >= 1,
{
    assert(decl_wf(d, t));
    match d[t] {
        TopDecl::Union { items, .. } => {
            lemma_number_roundtrip(0);
        },
        TopDecl::Array { .. } => {
            crate::wire::lemma_fixed_size_bounds(d, t);
        },
        TopDecl::Struct { .. } => {
            crate::wire::lemma_fixed_size_bounds(d, t);
        },
        TopDecl::FixVec { .. } => {
            lemma_number_roundtrip(0);
        },
        TopDecl::DynVec { .. } => {
            lemma_number_roundtrip(8);
            lemma_number_roundtrip(0);
        },
        TopDecl::Table { fields, .. } => {
            let n = fields@.len() as int;
            if n == 0 {
                lemma_number_roundtrip(8);
                lemma_number_roundtrip(0);
            } else {
                crate::defaults::lemma_table_default_len(d, t);
                lemma_run_end_mono(
                    d[t]->Table_field_alignments@,
                    crate::defaults::field_defaults(d, t, fields@, n),
                    4 * (2 + n),
                    0,
                    n,
                );
            }
        },
        _ => {},
    }
}

/// No table field is an option: the one shape whose default serialization
/// is empty.
pub open spec fn table_fields_nonempty(d: Seq<TopDecl>) -> bool {
    forall|k: int, j: int|
        0 <= k < d.len() && d[k] is Table && 0 <= j < d[k]->Table_fields@.len() ==> !(d[(
        #[trigger] d[k]->Table_fields@[j].typ) as int] is Option_)
}

/// The canonical default serialization of every type verifies, in either
/// mode, provided no table field is an option.
pub proof fn lemma_default_valid(d: Seq<TopDecl>, i: int, compatible: bool)
    requires
        wire_wf(d, i),
        crate::defaults::defaults_bounded(d),
        table_fields_nonempty(d),
    ensures
        valid_encoding(d, i, crate::defaults::default_of(d, i), compatible),
    decreases i,
{
    assert(decl_wf(d, i));
    let b = crate::defaults::default_of(d, i);
    assert(b.len() <= u32::MAX);
    match d[i] {
        TopDecl::Atom { .. } => {},
        TopDecl::Option_ { .. } => {},
        TopDecl::Union { items, .. } => {
            let first = items@[0] as int;
            let inner = crate::defaults::default_of(d, first);
            lemma_default_valid(d, first, compatible);
            lemma_number_roundtrip((8 + inner.len()) as u32);
            lemma_number_roundtrip(0);
            assert(build_union_spec(0, inner).len() == 8 + inner.len());
            lemma_union_roundtrip(d, i, 0, inner, compatible);
        },
        TopDecl::Array { .. } => {
            lemma_zeros_valid(d, i, compatible);
        },
        TopDecl::Struct { .. } => {
            lemma_zeros_valid(d, i, compatible);
        },
        TopDecl::FixVec { .. } => {
            lemma_number_roundtrip(0);
            assert(spec_number_bytes(0u32).subrange(0, 4) =~= spec_number_bytes(0u32));
            assert(spec_read_number(b, 0) == 0);
        },
        TopDecl::DynVec { .. } => {
            let empty_children: Seq<Seq<u8>> = Seq::empty();
            lemma_dynvec_roundtrip(d, i, empty_children, compatible);
            assert(b == build_dynvec_spec(d[i]->DynVec_item_alignment, empty_children));
        },
        TopDecl::Table { fields, field_alignments, .. } => {
            let n = fields@.len() as int;
            if n == 0 {
                let empty_children: Seq<Seq<u8>> = Seq::empty();
                lemma_table_roundtrip(d, i, empty_children, compatible);
                assert(b == build_table_spec(field_alignments@, empty_children));
            } else {
                let kids = crate::defaults::field_defaults(d, i, fields@, n);
                crate::defaults::lemma_field_defaults_len(d, i, fields@, n);
                assert forall|l: int| 0 <= l < n implies valid_encoding(
                    d,
                    #[trigger] fields@[l].typ as int,
                    kids[l],
                    compatible,
                ) by {
                    lemma_default_valid(d, fields@[l].typ as int, compatible);
                }
                assert forall|l: int| 0 <= l < n implies (#[trigger] kids[l]).len() >= 1 by {
                    assert(!(d[fields@[l].typ as int] is Option_));
                    lemma_default_nonempty(d, fields@[l].typ as int);
                }
                crate::defaults::lemma_table_default_len(d, i);
                lemma_table_roundtrip(d, i, kids, compatible);
            }
        },
    }
}

/// Padding the builder emits is the zero byte: the gap before every item
/// of a built array run is all zeros.
pub proof fn lemma_array_build_padding_zero(children: Seq<Seq<u8>>, s: int, p: int, j: int)
    requires
        s >= 1,
        p >= 0,
        1 <= j < children.len(),
        forall|l: int| 0 <= l < children.len() ==> #[trigger] children[l].len() == s,
    ensures
        all_zero(fixed_pad_at(build_array_spec(children, p), 0, s, p, j)),
{
    lemma_fixed_run_index(children, s, p, children.len() as int, j);
    lemma_fixed_run_bounds(s, p, children.len() as int, j);
    assert(fixed_pad_at(build_array_spec(children, p), 0, s, p, j) =~= build_array_spec(
        children,
        p,
    ).subrange((s + p) * j - p, (s + p) * j));
}

/// Padding the builder emits is the zero byte: the header padding and the
/// gap before every item of a built fix-vector are all zeros.
pub proof fn lemma_fixvec_build_padding_zero(children: Seq<Seq<u8>>, s: int, p: int, hp: int, j: int)
    requires
        s >= 1,
        p >= 0,
        hp >= 0,
        children.len() >= 1,
        children.len() <= u32::MAX,
        1 <= j < children.len(),
        forall|l: int| 0 <= l < children.len() ==> #[trigger] children[l].len() == s,
    ensures
        all_zero(build_fixvec_spec(children, p, hp).subrange(4, 4 + hp)),
        all_zero(fixed_pad_at(build_fixvec_spec(children, p, hp), 4 + hp, s, p, j)),
{
    let b = build_fixvec_spec(children, p, hp);
    let k = children.len() as int;
    lemma_number_roundtrip(children.len() as u32);
    lemma_fixed_run_len(children, s, p, k);
    assert(b.subrange(4, 4 + hp) =~= zeros(hp as nat));
    lemma_fixed_run_index(children, s, p, k, j);
    lemma_fixed_run_bounds(s, p, k, j);
    assert(fixed_pad_at(b, 4 + hp, s, p, j) =~= fixed_run_bytes(children, p, k).subrange(
        (s + p) * j - p,
        (s + p) * j,
    ));
}

/// Padding the builder emits is the zero byte: the gap before every field
/// of a built struct is all zeros.
pub proof fn lemma_struct_build_padding_zero(
    children: Seq<Seq<u8>>,
    sizes: Seq<usize>,
    paddings: Seq<usize>,
    j: int,
)
    requires
        0 <= j < children.len(),
        children.len() <= sizes.len(),
        children.len() <= paddings.len(),
        forall|l: int| 0 <= l < children.len() ==> #[trigger] children[l].len() == sizes[l],
    ensures
        all_zero(
            build_struct_spec(children, paddings).subrange(
                struct_offset(sizes, paddings, j),
                struct_offset(sizes, paddings, j) + paddings[j],
            ),
        ),
{
    lemma_struct_body_index(children, sizes, paddings, children.len() as int, j);
}

/// Padding the builder emits is the zero byte: the gap before every child
/// of a built offset-table run (a dyn-vector or a table) is all zeros.
pub proof fn lemma_run_build_padding_zero(aligns: Seq<Alignment>, children: Seq<Seq<u8>>, j: int)
    requires
        children.len() >= 1,
        0 <= j < children.len(),
        run_end(
            aligns,
            children,
            4 * (2 + children.len() as int),
            children.len() as int,
        ) <= u32::MAX,
    ensures
        all_zero(
            build_run_spec(aligns, children).subrange(
                run_end(aligns, children, 4 * (2 + children.len() as int), j),
                run_offset(aligns, children, 4 * (2 + children.len() as int), j),
            ),
        ),
{
    lemma_build_run_index(aligns, children, j);
}

/// The verifier rejects non-zero padding: an array or fix-vector slice
/// whose gap before item `j` holds any non-zero byte is not a valid
/// encoding, and neither is a struct slice whose gap before field `j` does.
pub proof fn lemma_nonzero_padding_rejected(
    d: Seq<TopDecl>,
    i: int,
    b: Seq<u8>,
    j: int,
    compatible: bool,
)
    requires
        wire_wf(d, i),
        ({
            ||| (d[i] is Array && 1 <= j < d[i]->Array_item_count && !all_zero(
                fixed_pad_at(
                    b,
                    0,
                    d[i]->Array_item_size as int,
                    d[i]->Array_item_padding as int,
                    j,
                ),
            ))
            ||| (d[i] is FixVec && b.len() >= 4 && 1 <= j
                < spec_read_number(b, 0) as int && !all_zero(
                fixed_pad_at(
                    b,
                    4 + d[i]->FixVec_header_padding as int,
                    d[i]->FixVec_item_size as int,
                    d[i]->FixVec_item_padding as int,
                    j,
                ),
            ))
            ||| (d[i] is Struct && 0 <= j < d[i]->Struct_fields@.len() && !all_zero(
                b.subrange(
                    struct_offset(d[i]->Struct_field_sizes@, d[i]->Struct_field_paddings@, j),
                    struct_offset(d[i]->Struct_field_sizes@, d[i]->Struct_field_paddings@, j) + d[
                        i
                    ]->Struct_field_paddings@[j],
                ),
            ))
            ||| (d[i] is DynVec && b.len() >= 8 && 0 <= j < spec_read_number(b, 4) as int
                && !all_zero(
                b.subrange(
                    dv_prev_end(
                        d,
                        d[i]->DynVec_typ as int,
                        b,
                        spec_read_number(b, 4) as int,
                        j,
                    ),
                    dv_off(b, j),
                ),
            ))
            ||| (d[i] is Table && b.len() >= 8 && d[i]->Table_fields@.len() >= 1 && 0 <= j < d[
                i
            ]->Table_fields@.len() && !all_zero(
                b.subrange(
                    tb_prev_end(
                        d,
                        d[i]->Table_fields@,
                        b,
                        spec_read_number(b, 4) as int,
                        4 * (2 + spec_read_number(b, 4) as int),
                        j,
                    ),
                    dv_off(b, j),
                ),
            ))
        }),
    ensures
        !valid_encoding(d, i, b, compatible),
{
    assert(decl_wf(d, i));
    if valid_encoding(d, i, b, compatible) {
        if d[i] is DynVec {
            let c = spec_read_number(b, 4) as int;
            crate::wire::lemma_dv_items_index(d, d[i]->DynVec_typ as int, b, c, 0, j, compatible);
        } else if d[i] is Table {
            let fc = spec_read_number(b, 4) as int;
            crate::wire::lemma_tb_items_index(
                d,
                i,
                d[i]->Table_fields@,
                b,
                fc,
                4 * (2 + fc),
                0,
                j,
                compatible,
            );
        }
    }
}

} // verus!
