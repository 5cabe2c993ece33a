//! The verifier: checks an untrusted byte slice against a resolved type.
//!
//! [`verify`] returns `Ok` exactly on the slices that
//! [`crate::wire::valid_encoding`] accepts; [`peek_length`] reads the length
//! a value claims for itself.  All arithmetic on untrusted header fields is
//! done in wide integers so that no malformed input can make a computation
//! escape the slice.

use crate::ast::{decl_wf, fixed_size_of, struct_offset, Ast, TopDecl};
use crate::error::{VerificationError, VerificationResult};
use crate::wire::{
    dv_ext_end, dv_item_frame, dv_item_slice, dv_off, dv_prev_end, fixed_item_at, fixed_pad_at,
    lemma_array_total_bounds, lemma_dv_off_le_len, lemma_dynvec_invalid_item,
    lemma_dv_items_fold, lemma_dynvec_invalid_offset, lemma_fixed_run_bounds,
    lemma_fixed_size_bounds, lemma_peek_bound, lemma_struct_offset_mono, lemma_table_invalid_item,
    lemma_table_invalid_offset, lemma_tb_items_fold, peek_spec, peek_val, tb_item_frame,
    tb_item_slice, tb_prev_end, valid_encoding,
};
use crate::{all_zero, check_padding, lemma_padding_bound, read_number_at, spec_read_number};
use vstd::prelude::*;
use vstd::slice::slice_subrange;

verus! {

/// The length the value starting at `slice`'s origin claims for itself, in
/// full precision.  `Err` exactly when the slice cannot hold the header the
/// claim is read from.
fn peek_len128(ast: &Ast, i: usize, slice: &[u8]) -> (r: Result<u128, VerificationError>)
    requires
        ast.wf(),
        i < ast.decls@.len(),
    ensures
        match r {
            Ok(n) => peek_spec(ast.decls@, i as int, slice@) == Some(n as int),
            Err(_) => peek_spec(ast.decls@, i as int, slice@) is None,
        },
        ast.decls@[i as int] is Union && slice@.len() < 8 ==> (r matches Err(
            VerificationError::HeaderIsBroken(nm, e, a),
        ) && nm@ == ast.decls@[i as int].spec_name() && e == 8 && a as int == slice@.len() as int),
        (ast.decls@[i as int] is FixVec || ast.decls@[i as int] is DynVec || ast.decls@[
            i as int
        ] is Table) && slice@.len() < 4 ==> (r matches Err(
            VerificationError::HeaderIsBroken(nm, e, a),
        ) && nm@ == ast.decls@[i as int].spec_name() && e == 4 && a as int == slice@.len() as int),
    decreases i,
{
    let ghost d = ast.decls@;
    proof {
        assert(decl_wf(d, i as int));
    }
    match &ast.decls[i] {
        TopDecl::Atom { .. } => Ok(1),
        TopDecl::Option_ { typ, .. } => {
            if slice.len() == 0 {
                Ok(0)
            } else {
                peek_len128(ast, *typ, slice)
            }
        },
        TopDecl::Union { name, .. } => {
            if slice.len() < 8 {
                Err(VerificationError::HeaderIsBroken(name.clone(), 8, slice.len()))
            } else {
                Ok(read_number_at(slice, 0) as u128)
            }
        },
        TopDecl::Array { item_size, item_padding, item_count, .. } => {
            proof {
                lemma_array_total_bounds(
                    *item_size as int,
                    *item_padding as int,
                    *item_count as int,
                );
            }
            Ok((*item_size as u128) * (*item_count as u128) + (*item_padding as u128) * ((
            *item_count - 1) as u128))
        },
        TopDecl::Struct { field_sizes, field_paddings, .. } => {
            Ok(crate::ast::struct_total(field_sizes, field_paddings) as u128)
        },
        TopDecl::FixVec { name, typ, item_size, item_padding, header_padding, item_alignment, .. } => {
            if slice.len() < 4 {
                Err(VerificationError::HeaderIsBroken(name.clone(), 4, slice.len()))
            } else {
                let c = read_number_at(slice, 0);
                if c == 0 {
                    Ok(4)
                } else {
                    let s128 = *item_size as u128;
                    let p128 = *item_padding as u128;
                    let hp128 = *header_padding as u128;
                    let c128 = c as u128;
                    proof {
                        lemma_fixed_size_bounds(d, *typ as int);
                        lemma_padding_bound(item_alignment.spec_size(), *item_size as nat);
                        lemma_padding_bound(item_alignment.spec_size(), 4);
                        assert(s128 <= 0xFFFF_FFFF && p128 <= 7 && hp128 <= 7 && 1 <= c128
                            <= 0xFFFF_FFFF);
                        assert((s128 + p128) * c128 <= 0x1_0000_0006u128 * 0xFFFF_FFFFu128 && (s128
                            + p128) * c128 >= s128 + p128) by (nonlinear_arith)
                            requires
                                1 <= s128 + p128 <= 0x1_0000_0006u128,
                                1 <= c128 <= 0xFFFF_FFFFu128,
                        ;
                    }
                    Ok(4 + hp128 + (s128 + p128) * c128 - p128)
                }
            }
        },
        TopDecl::DynVec { name, .. } => {
            if slice.len() < 4 {
                Err(VerificationError::HeaderIsBroken(name.clone(), 4, slice.len()))
            } else {
                Ok(read_number_at(slice, 0) as u128)
            }
        },
        TopDecl::Table { name, .. } => {
            if slice.len() < 4 {
                Err(VerificationError::HeaderIsBroken(name.clone(), 4, slice.len()))
            } else {
                Ok(read_number_at(slice, 0) as u128)
            }
        },
    }
}

/// The byte length of the value starting at `slice`'s origin, read from its
/// header alone.  `Err` when the header cannot be read, or when the claimed
/// length does not fit the machine's word.
pub fn peek_length(ast: &Ast, i: usize, slice: &[u8]) -> (r: VerificationResult<usize>)
    requires
        ast.wf(),
        i < ast.decls@.len(),
    ensures
        match r {
            Ok(n) => peek_spec(ast.decls@, i as int, slice@) == Some(n as int),
            Err(_) => peek_spec(ast.decls@, i as int, slice@) is None || peek_val(
                ast.decls@,
                i as int,
                slice@,
            ) > usize::MAX,
        },
        ast.decls@[i as int] is Union && slice@.len() < 8 ==> (r matches Err(
            VerificationError::HeaderIsBroken(nm, e, a),
        ) && nm@ == ast.decls@[i as int].spec_name() && e == 8 && a as int == slice@.len() as int),
        (ast.decls@[i as int] is FixVec || ast.decls@[i as int] is DynVec || ast.decls@[
            i as int
        ] is Table) && slice@.len() < 4 ==> (r matches Err(
            VerificationError::HeaderIsBroken(nm, e, a),
        ) && nm@ == ast.decls@[i as int].spec_name() && e == 4 && a as int == slice@.len() as int),
{
    match peek_len128(ast, i, slice) {
        Ok(n) => {
            if n <= usize::MAX as u128 {
                Ok(n as usize)
            } else {
                Err(
                    VerificationError::TotalSizeNotMatch(
                        ast.decls[i].name().clone(),
                        usize::MAX,
                        slice.len(),
                    ),
                )
            }
        },
        Err(e) => Err(e),
    }
}

/// Check `slice` against arena entry `i`: `Ok` exactly on the well-formed
/// encodings of that type.  With `compatible` set, tables accept a wire
/// field count above their declared one.
pub fn verify(ast: &Ast, i: usize, slice: &[u8], compatible: bool) -> (r: VerificationResult<()>)
    requires
        ast.wf(),
        i < ast.decls@.len(),
    ensures
        r is Ok <==> valid_encoding(ast.decls@, i as int, slice@, compatible),
        ast.decls@[i as int] is Atom && slice@.len() != 1 ==> (r matches Err(
            VerificationError::TotalSizeNotMatch(nm, e, a),
        ) && nm@ == ast.decls@[i as int].spec_name() && e == 1 && a as int == slice@.len() as int),
        ast.decls@[i as int] is Union && slice@.len() < 8 ==> (r matches Err(
            VerificationError::HeaderIsBroken(nm, e, a),
        ) && nm@ == ast.decls@[i as int].spec_name() && e == 8 && a as int == slice@.len() as int),
        ast.decls@[i as int] is Union && slice@.len() >= 8 && spec_read_number(slice@, 0) as int
            != slice@.len() as int ==> (r matches Err(
            VerificationError::TotalSizeNotMatch(nm, e, a),
        ) && nm@ == ast.decls@[i as int].spec_name() && e as int == spec_read_number(
            slice@,
            0,
        ) as int && a as int == slice@.len() as int),
        ast.decls@[i as int] is Union && slice@.len() >= 8 && spec_read_number(slice@, 0) as int
            == slice@.len() as int && spec_read_number(slice@, 4) as int >= ast.decls@[
            i as int
        ]->Union_items@.len() as int ==> (r matches Err(
            VerificationError::UnknownItem(nm, mx, seen),
        ) && nm@ == ast.decls@[i as int].spec_name() && mx as int == ast.decls@[
            i as int
        ]->Union_items@.len() as int && seen as int == spec_read_number(slice@, 4) as int),
        ast.decls@[i as int] is Array && slice@.len() as int != fixed_size_of(
            ast.decls@,
            i as int,
        ).unwrap() ==> (r matches Err(VerificationError::TotalSizeNotMatch(nm, e, a)) && nm@
            == ast.decls@[i as int].spec_name() && e as int == fixed_size_of(
            ast.decls@,
            i as int,
        ).unwrap() && a as int == slice@.len() as int),
        ast.decls@[i as int] is Struct && slice@.len() as int != fixed_size_of(
            ast.decls@,
            i as int,
        ).unwrap() ==> (r matches Err(VerificationError::TotalSizeNotMatch(nm, e, a)) && nm@
            == ast.decls@[i as int].spec_name() && e as int == fixed_size_of(
            ast.decls@,
            i as int,
        ).unwrap() && a as int == slice@.len() as int),
        ast.decls@[i as int] is FixVec && slice@.len() < 4 ==> (r matches Err(
            VerificationError::HeaderIsBroken(nm, e, a),
        ) && nm@ == ast.decls@[i as int].spec_name() && e == 4 && a as int == slice@.len() as int),
        ast.decls@[i as int] is FixVec && slice@.len() >= 4 && spec_read_number(slice@, 0) == 0
            && slice@.len() != 4 ==> (r matches Err(
            VerificationError::TotalSizeNotMatch(nm, e, a),
        ) && nm@ == ast.decls@[i as int].spec_name() && e == 4 && a as int == slice@.len() as int),
        ast.decls@[i as int] is DynVec && slice@.len() < 8 ==> (r matches Err(
            VerificationError::HeaderIsBroken(nm, e, a),
        ) && nm@ == ast.decls@[i as int].spec_name() && e == 8 && a as int == slice@.len() as int),
        ast.decls@[i as int] is DynVec && slice@.len() >= 8 && spec_read_number(slice@, 0) as int
            != slice@.len() as int ==> (r matches Err(
            VerificationError::TotalSizeNotMatch(nm, e, a),
        ) && nm@ == ast.decls@[i as int].spec_name() && e as int == spec_read_number(
            slice@,
            0,
        ) as int && a as int == slice@.len() as int),
        ast.decls@[i as int] is DynVec && slice@.len() >= 8 && spec_read_number(slice@, 0) as int
            == slice@.len() as int && spec_read_number(slice@, 4) == 0 && slice@.len() != 8 ==> (
        r matches Err(VerificationError::TotalSizeNotMatch(nm, e, a)) && nm@ == ast.decls@[
            i as int
        ].spec_name() && e == 8 && a as int == slice@.len() as int),
        ast.decls@[i as int] is Table && (slice@.len() as int) < 4 * (2 + ast.decls@[
            i as int
        ]->Table_fields@.len() as int) ==> (r matches Err(
            VerificationError::HeaderIsBroken(nm, e, a),
        ) && nm@ == ast.decls@[i as int].spec_name() && e as int == 4 * (2 + ast.decls@[
            i as int
        ]->Table_fields@.len() as int) && a as int == slice@.len() as int),
        ast.decls@[i as int] is Table && (slice@.len() as int) >= 4 * (2 + ast.decls@[
            i as int
        ]->Table_fields@.len() as int) && spec_read_number(slice@, 0) as int != slice@.len() as int
            ==> (r matches Err(VerificationError::TotalSizeNotMatch(nm, e, a)) && nm@
            == ast.decls@[i as int].spec_name() && e as int == spec_read_number(slice@, 0) as int
            && a as int == slice@.len() as int),
        ast.decls@[i as int] is Table && (slice@.len() as int) >= 4 * (2 + ast.decls@[
            i as int
        ]->Table_fields@.len() as int) && spec_read_number(slice@, 0) as int == slice@.len() as int
            && ((spec_read_number(slice@, 4) as int) < ast.decls@[i as int]->Table_fields@.len() as int
            || spec_read_number(slice@, 4) as int != ast.decls@[
            i as int
        ]->Table_fields@.len() as int && !compatible) ==> (r matches Err(
            VerificationError::FieldCountNotMatch(nm, sc, wc),
        ) && nm@ == ast.decls@[i as int].spec_name() && sc as int == ast.decls@[
            i as int
        ]->Table_fields@.len() as int && wc as int == spec_read_number(slice@, 4) as int),
    decreases i, 0int,
{
    let ghost d = ast.decls@;
    proof {
        assert(decl_wf(d, i as int));
    }
    let slice_len = slice.len();
    match &ast.decls[i] {
        TopDecl::Atom { name } => {
            if slice_len == 1 {
                Ok(())
            } else {
                Err(VerificationError::TotalSizeNotMatch(name.clone(), 1, slice_len))
            }
        },
        TopDecl::Option_ { typ, .. } => {
            if slice_len == 0 {
                Ok(())
            } else {
                verify(ast, *typ, slice, compatible)
            }
        },
        TopDecl::Union { name, items, .. } => {
            if slice_len < 8 {
                return Err(VerificationError::HeaderIsBroken(name.clone(), 8, slice_len));
            }
            let total = read_number_at(slice, 0);
            if total as usize != slice_len {
                return Err(
                    VerificationError::TotalSizeNotMatch(name.clone(), total as usize, slice_len),
                );
            }
            let item_id = read_number_at(slice, 4);
            if item_id as usize >= items.len() {
                return Err(
                    VerificationError::UnknownItem(name.clone(), items.len(), item_id as usize),
                );
            }
            let t = items[item_id as usize];
            let inner = slice_subrange(slice, 8, slice_len);
            proof {
                assert(inner@ =~= slice@.skip(8));
            }
            verify(ast, t, inner, compatible)
        },
        TopDecl::Array { name, typ, item_size, item_padding, item_count, .. } => {
            proof {
                lemma_array_total_bounds(
                    *item_size as int,
                    *item_padding as int,
                    *item_count as int,
                );
            }
            let total = *item_size * *item_count + *item_padding * (*item_count - 1);
            if slice_len != total {
                return Err(VerificationError::TotalSizeNotMatch(name.clone(), total, slice_len));
            }
            verify_fixed_items(
                ast,
                *typ,
                slice,
                0,
                *item_size,
                *item_padding,
                *item_count,
                compatible,
                name,
            )
        },
        TopDecl::Struct { .. } => verify_struct(ast, i, slice, compatible),
        TopDecl::FixVec { name, typ, item_size, item_padding, header_padding, item_alignment, .. } => {
            if slice_len < 4 {
                return Err(VerificationError::HeaderIsBroken(name.clone(), 4, slice_len));
            }
            let c = read_number_at(slice, 0);
            if c == 0 {
                if slice_len != 4 {
                    return Err(VerificationError::TotalSizeNotMatch(name.clone(), 4, slice_len));
                }
                return Ok(());
            }
            let s128 = *item_size as u128;
            let p128 = *item_padding as u128;
            let hp128 = *header_padding as u128;
            let c128 = c as u128;
            proof {
                lemma_fixed_size_bounds(d, *typ as int);
                lemma_padding_bound(item_alignment.spec_size(), *item_size as nat);
                lemma_padding_bound(item_alignment.spec_size(), 4);
                assert(s128 <= 0xFFFF_FFFF && p128 <= 7 && hp128 <= 7 && 1 <= c128 <= 0xFFFF_FFFF);
                assert((s128 + p128) * c128 <= 0x1_0000_0006u128 * 0xFFFF_FFFFu128 && (s128 + p128)
                    * c128 >= s128 + p128) by (nonlinear_arith)
                    requires
                        1 <= s128 + p128 <= 0x1_0000_0006u128,
                        1 <= c128 <= 0xFFFF_FFFFu128,
                ;
            }
            let expected: u128 = 4 + hp128 + (s128 + p128) * c128 - p128;
            if (slice_len as u128) != expected {
                return Err(
                    VerificationError::TotalSizeNotMatch(
                        name.clone(),
                        #[verifier::truncate] (expected as usize),
                        slice_len,
                    ),
                );
            }
            let hp = *header_padding;
            if !check_padding(slice_subrange(slice, 4, 4 + hp)) {
                return Err(VerificationError::BytesNotPadded(name.clone()));
            }
            verify_fixed_items(
                ast,
                *typ,
                slice,
                4 + hp,
                *item_size,
                *item_padding,
                c as usize,
                compatible,
                name,
            )
        },
        TopDecl::DynVec { .. } => verify_dynvec(ast, i, slice, compatible),
        TopDecl::Table { .. } => verify_table(ast, i, slice, compatible),
    }
}

/// Check the items of a run of `k` fixed-size items of type `t` and size
/// `s`, the run starting at `base`, each item after the first preceded by
/// `p` padding bytes.
fn verify_fixed_items(
    ast: &Ast,
    t: usize,
    slice: &[u8],
    base: usize,
    s: usize,
    p: usize,
    k: usize,
    compatible: bool,
    name: &String,
) -> (r: VerificationResult<()>)
    requires
        ast.wf(),
        t < ast.decls@.len(),
        s >= 1,
        k >= 1,
        base + (s + p) * k - p <= slice@.len(),
        ast.decls@[t as int] is Atom ==> s == 1 && p == 0,
    ensures
        r is Ok <==> {
            &&& forall|j: int|
                0 <= j < k ==> valid_encoding(
                    ast.decls@,
                    t as int,
                    #[trigger] fixed_item_at(slice@, base as int, s as int, p as int, j),
                    compatible,
                )
            &&& forall|j: int|
                1 <= j < k ==> all_zero(
                    #[trigger] fixed_pad_at(slice@, base as int, s as int, p as int, j),
                )
        },
    decreases t, 1int,
{
    let ghost d = ast.decls@;
    let ghost bs = slice@;
    let slen = slice.len();
    if ast.decl(t).is_atom() {
        proof {
            assert forall|j: int| 0 <= j < k implies valid_encoding(
                d,
                t as int,
                #[trigger] fixed_item_at(bs, base as int, s as int, p as int, j),
                compatible,
            ) by {
                lemma_fixed_run_bounds(s as int, p as int, k as int, j);
                assert(fixed_item_at(bs, base as int, s as int, p as int, j).len() == 1);
            }
            assert forall|j: int| 1 <= j < k implies all_zero(
                #[trigger] fixed_pad_at(bs, base as int, s as int, p as int, j),
            ) by {
                lemma_fixed_run_bounds(s as int, p as int, k as int, j);
                assert(fixed_pad_at(bs, base as int, s as int, p as int, j).len() == 0);
            }
        }
        return Ok(());
    }
    let mut j: usize = 0;
    let mut start: usize = base;
    while j < k
        invariant
            ast.wf(),
            t < d.len(),
            d == ast.decls@,
            bs == slice@,
            slen == bs.len(),
            s >= 1,
            k >= 1,
            0 <= j <= k,
            j < k ==> start == base + (s + p) * j,
            base + (s + p) * k - p <= bs.len(),
            forall|l: int|
                0 <= l < j ==> valid_encoding(
                    d,
                    t as int,
                    #[trigger] fixed_item_at(bs, base as int, s as int, p as int, l),
                    compatible,
                ),
            forall|l: int|
                1 <= l < j ==> all_zero(
                    #[trigger] fixed_pad_at(bs, base as int, s as int, p as int, l),
                ),
        decreases k - j,
    {
        proof {
            lemma_fixed_run_bounds(s as int, p as int, k as int, j as int);
        }
        if j > 0 && p > 0 {
            let pad = slice_subrange(slice, start - p, start);
            proof {
                assert(pad@ =~= fixed_pad_at(bs, base as int, s as int, p as int, j as int));
            }
            if !check_padding(pad) {
                return Err(VerificationError::BytesNotPadded(name.clone()));
            }
        } else {
            proof {
                if j > 0 {
                    assert(fixed_pad_at(bs, base as int, s as int, p as int, j as int).len() == 0);
                }
            }
        }
        let item = slice_subrange(slice, start, start + s);
        proof {
            assert(item@ =~= fixed_item_at(bs, base as int, s as int, p as int, j as int));
        }
        match verify(ast, t, item, compatible) {
            Err(e) => {
                return Err(e);
            },
            Ok(()) => {},
        }
        j = j + 1;
        if j < k {
            proof {
                lemma_fixed_run_bounds(s as int, p as int, k as int, j as int);
            }
            start = start + s + p;
        }
    }
    Ok(())
}

/// Check a struct slice: total size, per-field padding, and each field.
#[verifier::rlimit(60)]
fn verify_struct(ast: &Ast, i: usize, slice: &[u8], compatible: bool) -> (r: VerificationResult<
    (),
>)
    requires
        ast.wf(),
        i < ast.decls@.len(),
        ast.decls@[i as int] is Struct,
    ensures
        r is Ok <==> valid_encoding(ast.decls@, i as int, slice@, compatible),
        slice@.len() as int != fixed_size_of(ast.decls@, i as int).unwrap() ==> (r matches Err(
            VerificationError::TotalSizeNotMatch(nm, e, a),
        ) && nm@ == ast.decls@[i as int].spec_name() && e as int == fixed_size_of(
            ast.decls@,
            i as int,
        ).unwrap() && a as int == slice@.len() as int),
    decreases i as int - 1, 1int,
{
    let ghost d = ast.decls@;
    let ghost bs = slice@;
    proof {
        assert(decl_wf(d, i as int));
    }
    match &ast.decls[i] {
        TopDecl::Struct { name, fields, field_sizes, field_paddings, .. } => {
            let n = fields.len();
            let total = crate::ast::struct_total(field_sizes, field_paddings);
            if slice.len() != total {
                return Err(VerificationError::TotalSizeNotMatch(name.clone(), total, slice.len()));
            }
            let ghost sz = field_sizes@;
            let ghost pd = field_paddings@;
            let mut j: usize = 0;
            let mut off: usize = 0;
            while j < n
                invariant
                    ast.wf(),
                    i < d.len(),
                    d == ast.decls@,
                    bs == slice@,
                    d[i as int] is Struct,
                    d[i as int]->Struct_fields == *fields,
                    d[i as int]->Struct_field_sizes == *field_sizes,
                    d[i as int]->Struct_field_paddings == *field_paddings,
                    sz == field_sizes@,
                    pd == field_paddings@,
                    n == fields@.len(),
                    0 <= j <= n,
                    off == struct_offset(sz, pd, j as int),
                    bs.len() == struct_offset(sz, pd, n as int),
                    forall|l: int|
                        0 <= l < j ==> all_zero(
                            bs.subrange(
                                struct_offset(sz, pd, l),
                                struct_offset(sz, pd, l) + pd[l],
                            ),
                        ),
                    forall|l: int|
                        0 <= l < j ==> valid_encoding(
                            d,
                            #[trigger] fields@[l].typ as int,
                            bs.subrange(
                                struct_offset(sz, pd, l) + pd[l],
                                struct_offset(sz, pd, l) + pd[l] + sz[l],
                            ),
                            compatible,
                        ),
                decreases n - j,
            {
                proof {
                    assert(decl_wf(d, i as int));
                    lemma_struct_offset_mono(sz, pd, j as int + 1, n as int);
                }
                let pj = field_paddings[j];
                let sj = field_sizes[j];
                if pj > 0 {
                    if !check_padding(slice_subrange(slice, off, off + pj)) {
                        return Err(VerificationError::BytesNotPadded(name.clone()));
                    }
                }
                let t = fields[j].typ;
                let sub = slice_subrange(slice, off + pj, off + pj + sj);
                match verify(ast, t, sub, compatible) {
                    Err(e) => {
                        return Err(e);
                    },
                    Ok(()) => {},
                }
                j = j + 1;
                off = off + pj + sj;
            }
            Ok(())
        },
        _ => {
            proof {
                assert(false);
            }
            Ok(())
        },
    }
}

/// Check a dyn-vector slice: header, offset table, inter-item padding, and
/// each item trimmed to its claimed length.
#[verifier::rlimit(100)]
fn verify_dynvec(ast: &Ast, i: usize, slice: &[u8], compatible: bool) -> (r: VerificationResult<
    (),
>)
    requires
        ast.wf(),
        i < ast.decls@.len(),
        ast.decls@[i as int] is DynVec,
    ensures
        r is Ok <==> valid_encoding(ast.decls@, i as int, slice@, compatible),
        slice@.len() < 8 ==> (r matches Err(VerificationError::HeaderIsBroken(nm, e, a)) && nm@
            == ast.decls@[i as int].spec_name() && e == 8 && a as int == slice@.len() as int),
        slice@.len() >= 8 && spec_read_number(slice@, 0) as int != slice@.len() as int ==> (
        r matches Err(VerificationError::TotalSizeNotMatch(nm, e, a)) && nm@ == ast.decls@[
            i as int
        ].spec_name() && e as int == spec_read_number(slice@, 0) as int && a as int
            == slice@.len() as int),
        slice@.len() >= 8 && spec_read_number(slice@, 0) as int == slice@.len() as int
            && spec_read_number(slice@, 4) == 0 && slice@.len() != 8 ==> (r matches Err(
            VerificationError::TotalSizeNotMatch(nm, e, a),
        ) && nm@ == ast.decls@[i as int].spec_name() && e == 8 && a as int == slice@.len() as int),
    decreases i as int - 1, 1int,
{
    let ghost d = ast.decls@;
    let ghost bs = slice@;
    proof {
        assert(decl_wf(d, i as int));
    }
    match &ast.decls[i] {
        TopDecl::DynVec { name, typ, .. } => {
            let t = *typ;
            let slice_len = slice.len();
            if slice_len < 8 {
                return Err(VerificationError::HeaderIsBroken(name.clone(), 8, slice_len));
            }
            let total = read_number_at(slice, 0);
            if total as usize != slice_len {
                return Err(
                    VerificationError::TotalSizeNotMatch(name.clone(), total as usize, slice_len),
                );
            }
            let count_num = read_number_at(slice, 4);
            let count = count_num as usize;
            if count == 0 {
                if slice_len != 8 {
                    return Err(VerificationError::TotalSizeNotMatch(name.clone(), 8, slice_len));
                }
                return Ok(());
            }
            let hs64: u64 = 8 + 4 * (count as u64);
            if (slice_len as u64) < hs64 {
                return Err(
                    VerificationError::HeaderIsBroken(
                        name.clone(),
                        #[verifier::truncate] (hs64 as usize),
                        slice_len,
                    ),
                );
            }
            let hs = hs64 as usize;
            // The offset table must be monotone, with the slice's end as
            // the sentinel after the last offset.
            let mut j: usize = 0;
            let mut pos: usize = 8;
            while j < count
                invariant
                    ast.wf(),
                    i < d.len(),
                    d == ast.decls@,
                    bs == slice@,
                    d[i as int] is DynVec,
                    d[i as int]->DynVec_typ == t,
                    slice_len == bs.len(),
                    spec_read_number(bs, 0) as int == bs.len(),
                    count as int == spec_read_number(bs, 4) as int,
                    1 <= count <= u32::MAX,
                    hs == 8 + 4 * count,
                    hs <= slice_len,
                    0 <= j <= count,
                    pos == 8 + 4 * j,
                    forall|l: int| 0 <= l < j ==> dv_off(bs, l) <= dv_ext_end(bs, count as int, l),
                decreases count - j,
            {
                let off_j = read_number_at(slice, pos);
                let next: usize = if j == count - 1 {
                    slice_len
                } else {
                    read_number_at(slice, pos + 4) as usize
                };
                if off_j as usize > next {
                    proof {
                        lemma_dynvec_invalid_offset(
                            d,
                            i as int,
                            bs,
                            count as int,
                            j as int,
                            compatible,
                        );
                    }
                    return Err(VerificationError::OffsetsNotMatch(name.clone()));
                }
                j = j + 1;
                pos = pos + 4;
            }
            // Walk the items, tracking where the previous one ended.
            let mut j: usize = 0;
            let mut pos: usize = 8;
            let mut end: usize = hs;
            proof {
                assert(dv_prev_end(d, t as int, bs, count as int, 0) == 8 + 4 * count as int);
            }
            while j < count
                invariant
                    ast.wf(),
                    i < d.len(),
                    d == ast.decls@,
                    bs == slice@,
                    d[i as int] is DynVec,
                    d[i as int]->DynVec_typ == t,
                    slice_len == bs.len(),
                    spec_read_number(bs, 0) as int == bs.len(),
                    count as int == spec_read_number(bs, 4) as int,
                    t < d.len(),
                    t < i,
                    1 <= count <= u32::MAX,
                    hs == 8 + 4 * count,
                    hs <= slice_len,
                    0 <= j <= count,
                    pos == 8 + 4 * j,
                    end as int == dv_prev_end(d, t as int, bs, count as int, j as int),
                    end <= slice_len,
                    forall|l: int|
                        0 <= l < count ==> dv_off(bs, l) <= dv_ext_end(bs, count as int, l),
                    forall|l: int|
                        0 <= l < j ==> #[trigger] dv_item_frame(d, t as int, bs, count as int, l),
                    forall|l: int|
                        0 <= l < j ==> valid_encoding(
                            d,
                            t as int,
                            #[trigger] dv_item_slice(d, t as int, bs, count as int, l),
                            compatible,
                        ),
                decreases count - j,
            {
                let start_num = read_number_at(slice, pos);
                let start = start_num as usize;
                proof {
                    lemma_dv_off_le_len(bs, count as int, j as int);
                }
                if end > start {
                    proof {
                        assert(!dv_item_frame(d, t as int, bs, count as int, j as int));
                        lemma_dynvec_invalid_item(d, i as int, bs, count as int, j as int, compatible);
                    }
                    return Err(VerificationError::OffsetsNotMatch(name.clone()));
                }
                let pad = slice_subrange(slice, end, start);
                if !check_padding(pad) {
                    proof {
                        assert(!dv_item_frame(d, t as int, bs, count as int, j as int));
                        lemma_dynvec_invalid_item(d, i as int, bs, count as int, j as int, compatible);
                    }
                    return Err(VerificationError::BytesNotPadded(name.clone()));
                }
                let next: usize = if j == count - 1 {
                    slice_len
                } else {
                    proof {
                        lemma_dv_off_le_len(bs, count as int, j as int + 1);
                    }
                    read_number_at(slice, pos + 4) as usize
                };
                let ext = slice_subrange(slice, start, next);
                proof {
                    assert(ext@ =~= bs.subrange(
                        dv_off(bs, j as int),
                        dv_ext_end(bs, count as int, j as int),
                    ));
                }
                let pk = match peek_len128(ast, t, ext) {
                    Ok(v) => {
                        proof {
                            lemma_peek_bound(d, t as int, ext@);
                        }
                        v
                    },
                    Err(e) => {
                        proof {
                            assert(!dv_item_frame(d, t as int, bs, count as int, j as int));
                            lemma_dynvec_invalid_item(
                                d,
                                i as int,
                                bs,
                                count as int,
                                j as int,
                                compatible,
                            );
                        }
                        return Err(e);
                    },
                };
                if (start as u128) + pk > (slice_len as u128) {
                    proof {
                        if j < count - 1 {
                            lemma_dv_off_le_len(bs, count as int, j as int + 1);
                            assert(dv_prev_end(d, t as int, bs, count as int, j as int + 1) == start
                                + pk);
                            assert(!dv_item_frame(d, t as int, bs, count as int, j as int + 1));
                            lemma_dynvec_invalid_item(
                                d,
                                i as int,
                                bs,
                                count as int,
                                j as int + 1,
                                compatible,
                            );
                        } else {
                            assert(!dv_item_frame(d, t as int, bs, count as int, j as int));
                            lemma_dynvec_invalid_item(
                                d,
                                i as int,
                                bs,
                                count as int,
                                j as int,
                                compatible,
                            );
                        }
                    }
                    return Err(
                        VerificationError::TotalSizeNotMatch(
                            name.clone(),
                            #[verifier::truncate] ((start as u128 + pk) as usize),
                            slice_len,
                        ),
                    );
                }
                let endn = start + (pk as usize);
                let item = slice_subrange(slice, start, endn);
                proof {
                    assert(item@ =~= dv_item_slice(d, t as int, bs, count as int, j as int));
                }
                match verify(ast, t, item, compatible) {
                    Err(e) => {
                        proof {
                            lemma_dynvec_invalid_item(
                                d,
                                i as int,
                                bs,
                                count as int,
                                j as int,
                                compatible,
                            );
                        }
                        return Err(e);
                    },
                    Ok(()) => {},
                }
                proof {
                    assert(dv_item_frame(d, t as int, bs, count as int, j as int));
                    assert(dv_prev_end(d, t as int, bs, count as int, j as int + 1) == endn as int);
                }
                end = endn;
                j = j + 1;
                pos = pos + 4;
            }
            proof {
                lemma_dv_items_fold(d, t as int, bs, count as int, 0, compatible);
                assert(valid_encoding(d, i as int, bs, compatible));
            }
            Ok(())
        },
        _ => {
            proof {
                assert(false);
            }
            Ok(())
        },
    }
}

/// Check a table slice: header, declared-versus-wire field count, offset
/// table, inter-field padding, and each declared field trimmed to its
/// claimed length.  Fields beyond the declared ones pass through unread.
#[verifier::rlimit(100)]
fn verify_table(ast: &Ast, i: usize, slice: &[u8], compatible: bool) -> (r: VerificationResult<()>)
    requires
        ast.wf(),
        i < ast.decls@.len(),
        ast.decls@[i as int] is Table,
    ensures
        r is Ok <==> valid_encoding(ast.decls@, i as int, slice@, compatible),
        (slice@.len() as int) < 4 * (2 + ast.decls@[i as int]->Table_fields@.len() as int) ==> (
        r matches Err(VerificationError::HeaderIsBroken(nm, e, a)) && nm@ == ast.decls@[
            i as int
        ].spec_name() && e as int == 4 * (2 + ast.decls@[i as int]->Table_fields@.len() as int)
            && a as int == slice@.len() as int),
        (slice@.len() as int) >= 4 * (2 + ast.decls@[i as int]->Table_fields@.len() as int)
            && spec_read_number(slice@, 0) as int != slice@.len() as int ==> (r matches Err(
            VerificationError::TotalSizeNotMatch(nm, e, a),
        ) && nm@ == ast.decls@[i as int].spec_name() && e as int == spec_read_number(
            slice@,
            0,
        ) as int && a as int == slice@.len() as int),
        (slice@.len() as int) >= 4 * (2 + ast.decls@[i as int]->Table_fields@.len() as int)
            && spec_read_number(slice@, 0) as int == slice@.len() as int && ((spec_read_number(
            slice@,
            4,
        ) as int) < ast.decls@[i as int]->Table_fields@.len() as int || spec_read_number(
            slice@,
            4,
        ) as int != ast.decls@[i as int]->Table_fields@.len() as int && !compatible) ==> (
        r matches Err(VerificationError::FieldCountNotMatch(nm, sc, wc)) && nm@ == ast.decls@[
            i as int
        ].spec_name() && sc as int == ast.decls@[i as int]->Table_fields@.len() as int && wc as int
            == spec_read_number(slice@, 4) as int),
    decreases i as int - 1, 1int,
{
    let ghost d = ast.decls@;
    let ghost bs = slice@;
    proof {
        assert(decl_wf(d, i as int));
    }
    match &ast.decls[i] {
        TopDecl::Table { name, fields, .. } => {
            let n = fields.len();
            let slice_len = slice.len();
            let hs_decl: usize = 4 * (2 + n);
            if slice_len < hs_decl {
                return Err(VerificationError::HeaderIsBroken(name.clone(), hs_decl, slice_len));
            }
            let total = read_number_at(slice, 0);
            if total as usize != slice_len {
                return Err(
                    VerificationError::TotalSizeNotMatch(name.clone(), total as usize, slice_len),
                );
            }
            let fc_num = read_number_at(slice, 4);
            let fc = fc_num as usize;
            if n == 0 {
                if fc != 0 && !compatible {
                    return Err(VerificationError::FieldCountNotMatch(name.clone(), n, fc));
                }
                return Ok(());
            }
            if fc < n {
                return Err(VerificationError::FieldCountNotMatch(name.clone(), n, fc));
            }
            if fc != n && !compatible {
                return Err(VerificationError::FieldCountNotMatch(name.clone(), n, fc));
            }
            let hw64: u64 = 8 + 4 * (fc as u64);
            if (slice_len as u64) < hw64 {
                return Err(
                    VerificationError::HeaderIsBroken(
                        name.clone(),
                        #[verifier::truncate] (hw64 as usize),
                        slice_len,
                    ),
                );
            }
            let hw = hw64 as usize;
            // The offset table must be monotone over all wire offsets, with
            // the slice's end as the sentinel.
            let mut j: usize = 0;
            let mut pos: usize = 8;
            while j < fc
                invariant
                    ast.wf(),
                    i < d.len(),
                    d == ast.decls@,
                    bs == slice@,
                    d[i as int] is Table,
                    d[i as int]->Table_fields == *fields,
                    slice_len == bs.len(),
                    spec_read_number(bs, 0) as int == bs.len(),
                    fc as int == spec_read_number(bs, 4) as int,
                    1 <= n <= fc <= u32::MAX,
                    n == fields@.len(),
                    compatible || fc == n,
                    hw == 8 + 4 * fc,
                    hw <= slice_len,
                    0 <= j <= fc,
                    pos == 8 + 4 * j,
                    forall|l: int| 0 <= l < j ==> dv_off(bs, l) <= dv_ext_end(bs, fc as int, l),
                decreases fc - j,
            {
                let off_j = read_number_at(slice, pos);
                let next: usize = if j == fc - 1 {
                    slice_len
                } else {
                    read_number_at(slice, pos + 4) as usize
                };
                if off_j as usize > next {
                    proof {
                        lemma_table_invalid_offset(d, i as int, bs, fc as int, j as int, compatible);
                    }
                    return Err(VerificationError::OffsetsNotMatch(name.clone()));
                }
                j = j + 1;
                pos = pos + 4;
            }
            // Walk the declared fields, tracking where the previous one
            // ended.
            let ghost fseq = fields@;
            let ghost hs0 = 4 * (2 + fc as int);
            let mut j: usize = 0;
            let mut pos: usize = 8;
            let mut end: usize = hw;
            proof {
                assert(tb_prev_end(d, fseq, bs, fc as int, hs0, 0) == hs0);
            }
            while j < n
                invariant
                    ast.wf(),
                    i < d.len(),
                    d == ast.decls@,
                    bs == slice@,
                    d[i as int] is Table,
                    d[i as int]->Table_fields == *fields,
                    slice_len == bs.len(),
                    spec_read_number(bs, 0) as int == bs.len(),
                    fc as int == spec_read_number(bs, 4) as int,
                    fseq == fields@,
                    n == fseq.len(),
                    1 <= n <= fc <= u32::MAX,
                    compatible || fc == n,
                    forall|l: int| 0 <= l < n ==> 0 <= #[trigger] fseq[l].typ < i,
                    hw == 8 + 4 * fc,
                    hs0 == hw as int,
                    hw <= slice_len,
                    0 <= j <= n,
                    pos == 8 + 4 * j,
                    end as int == tb_prev_end(d, fseq, bs, fc as int, hs0, j as int),
                    end <= slice_len,
                    forall|l: int| 0 <= l < fc ==> dv_off(bs, l) <= dv_ext_end(bs, fc as int, l),
                    forall|l: int|
                        0 <= l < j ==> #[trigger] tb_item_frame(d, fseq, bs, fc as int, hs0, l),
                    forall|l: int|
                        0 <= l < j ==> valid_encoding(
                            d,
                            fseq[l].typ as int,
                            #[trigger] tb_item_slice(d, fseq, bs, fc as int, l),
                            compatible,
                        ),
                decreases n - j,
            {
                let t = fields[j].typ;
                let start_num = read_number_at(slice, pos);
                let start = start_num as usize;
                proof {
                    lemma_dv_off_le_len(bs, fc as int, j as int);
                }
                if end > start {
                    proof {
                        assert(!tb_item_frame(d, fseq, bs, fc as int, hs0, j as int));
                        lemma_table_invalid_item(d, i as int, bs, fc as int, j as int, compatible);
                    }
                    return Err(VerificationError::OffsetsNotMatch(name.clone()));
                }
                let pad = slice_subrange(slice, end, start);
                if !check_padding(pad) {
                    proof {
                        assert(!tb_item_frame(d, fseq, bs, fc as int, hs0, j as int));
                        lemma_table_invalid_item(d, i as int, bs, fc as int, j as int, compatible);
                    }
                    return Err(VerificationError::BytesNotPadded(name.clone()));
                }
                let next: usize = if j == fc - 1 {
                    slice_len
                } else {
                    proof {
                        lemma_dv_off_le_len(bs, fc as int, j as int + 1);
                    }
                    read_number_at(slice, pos + 4) as usize
                };
                let ext = slice_subrange(slice, start, next);
                proof {
                    assert(ext@ =~= bs.subrange(
                        dv_off(bs, j as int),
                        dv_ext_end(bs, fc as int, j as int),
                    ));
                }
                let pk = match peek_len128(ast, t, ext) {
                    Ok(v) => {
                        proof {
                            lemma_peek_bound(d, t as int, ext@);
                        }
                        v
                    },
                    Err(e) => {
                        proof {
                            assert(!tb_item_frame(d, fseq, bs, fc as int, hs0, j as int));
                            lemma_table_invalid_item(
                                d,
                                i as int,
                                bs,
                                fc as int,
                                j as int,
                                compatible,
                            );
                        }
                        return Err(e);
                    },
                };
                if (start as u128) + pk > (slice_len as u128) {
                    proof {
                        if j < n - 1 {
                            lemma_dv_off_le_len(bs, fc as int, j as int + 1);
                            assert(tb_prev_end(d, fseq, bs, fc as int, hs0, j as int + 1) == start
                                + pk);
                            assert(!tb_item_frame(d, fseq, bs, fc as int, hs0, j as int + 1));
                            lemma_table_invalid_item(
                                d,
                                i as int,
                                bs,
                                fc as int,
                                j as int + 1,
                                compatible,
                            );
                        } else {
                            assert(!tb_item_frame(d, fseq, bs, fc as int, hs0, j as int));
                            lemma_table_invalid_item(
                                d,
                                i as int,
                                bs,
                                fc as int,
                                j as int,
                                compatible,
                            );
                        }
                    }
                    return Err(
                        VerificationError::TotalSizeNotMatch(
                            name.clone(),
                            #[verifier::truncate] ((start as u128 + pk) as usize),
                            slice_len,
                        ),
                    );
                }
                let endn = start + (pk as usize);
                let item = slice_subrange(slice, start, endn);
                proof {
                    assert(item@ =~= tb_item_slice(d, fseq, bs, fc as int, j as int));
                }
                match verify(ast, t, item, compatible) {
                    Err(e) => {
                        proof {
                            lemma_table_invalid_item(
                                d,
                                i as int,
                                bs,
                                fc as int,
                                j as int,
                                compatible,
                            );
                        }
                        return Err(e);
                    },
                    Ok(()) => {},
                }
                proof {
                    assert(tb_item_frame(d, fseq, bs, fc as int, hs0, j as int));
                    assert(tb_prev_end(d, fseq, bs, fc as int, hs0, j as int + 1) == endn as int);
                }
                end = endn;
                j = j + 1;
                pos = pos + 4;
            }
            proof {
                lemma_tb_items_fold(d, i as int, fseq, bs, fc as int, hs0, 0, compatible);
                assert(valid_encoding(d, i as int, bs, compatible));
            }
            Ok(())
        },
        _ => {
            proof {
                assert(false);
            }
            Ok(())
        },
    }
}

} // verus!
