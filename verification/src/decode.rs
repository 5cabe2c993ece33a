//! The random-access decoder: typed getters that locate sub-components of
//! a verified slice by offset arithmetic, without copying.
//!
//! Every getter requires a slice the verifier accepted (in compatible
//! mode; strict acceptance implies it, see
//! [`crate::wire::lemma_valid_widen`]) and returns a sub-slice that is
//! itself a valid encoding of the component's type.

use crate::ast::{decl_wf, struct_offset, Ast, TopDecl};
use crate::wire::{
    dv_ext_end, dv_item_slice, dv_off, dv_prev_end, fixed_item_at, lemma_dv_items_index,
    lemma_dv_off_le_len, lemma_fixed_run_bounds, lemma_struct_offset_mono, lemma_tb_items_index,
    peek_val, tb_item_slice, tb_prev_end, valid_encoding,
};
use crate::{read_number_at, spec_read_number};
use vstd::prelude::*;
use vstd::slice::slice_subrange;

verus! {

/// The inner bytes of an option value: `None` when absent, else the whole
/// slice, which then encodes the inner type.
pub fn option_inner<'a>(ast: &Ast, i: usize, slice: &'a [u8]) -> (r: Option<&'a [u8]>)
    requires
        ast.wf(),
        i < ast.decls@.len(),
        ast.decls@[i as int] is Option_,
        valid_encoding(ast.decls@, i as int, slice@, true),
    ensures
        match r {
            None => slice@.len() == 0,
            Some(inner) => {
                &&& slice@.len() > 0
                &&& inner@ == slice@
                &&& valid_encoding(
                    ast.decls@,
                    ast.decls@[i as int]->Option__typ as int,
                    inner@,
                    true,
                )
            },
        },
{
    proof {
        assert(decl_wf(ast.decls@, i as int));
    }
    if slice.len() == 0 {
        None
    } else {
        Some(slice)
    }
}

/// The selected item of a union value: its zero-based tag and its bytes,
/// which encode the item type the tag selects.
pub fn union_item<'a>(ast: &Ast, i: usize, slice: &'a [u8]) -> (r: (usize, &'a [u8]))
    requires
        ast.wf(),
        i < ast.decls@.len(),
        ast.decls@[i as int] is Union,
        valid_encoding(ast.decls@, i as int, slice@, true),
    ensures
        r.0 == spec_read_number(slice@, 4),
        r.0 < ast.decls@[i as int]->Union_items@.len(),
        r.1@ == slice@.skip(8),
        valid_encoding(
            ast.decls@,
            ast.decls@[i as int]->Union_items@[r.0 as int] as int,
            r.1@,
            true,
        ),
{
    let ghost d = ast.decls@;
    proof {
        assert(decl_wf(d, i as int));
    }
    let item_id = read_number_at(slice, 4) as usize;
    let inner = slice_subrange(slice, 8, slice.len());
    proof {
        assert(inner@ =~= slice@.skip(8));
    }
    (item_id, inner)
}

/// Item `idx` of an array value: `item_size` bytes at the item's computed
/// start offset, encoding the item type.
pub fn array_nth<'a>(ast: &Ast, i: usize, slice: &'a [u8], idx: usize) -> (r: &'a [u8])
    requires
        ast.wf(),
        i < ast.decls@.len(),
        ast.decls@[i as int] is Array,
        valid_encoding(ast.decls@, i as int, slice@, true),
        idx < ast.decls@[i as int]->Array_item_count,
    ensures
        r@ == fixed_item_at(
            slice@,
            0,
            ast.decls@[i as int]->Array_item_size as int,
            ast.decls@[i as int]->Array_item_padding as int,
            idx as int,
        ),
        valid_encoding(ast.decls@, ast.decls@[i as int]->Array_typ as int, r@, true),
{
    let ghost d = ast.decls@;
    proof {
        assert(decl_wf(d, i as int));
    }
    let (s, p) = match &ast.decls[i] {
        TopDecl::Array { item_size, item_padding, .. } => (*item_size, *item_padding),
        _ => {
            proof {
                assert(false);
            }
            (0, 0)
        },
    };
    proof {
        lemma_fixed_run_bounds(
            s as int,
            p as int,
            d[i as int]->Array_item_count as int,
            idx as int,
        );
        assert(s * idx as int <= (s + p) * idx as int && p * idx as int <= (s + p) * idx as int
            && (s + p) * idx as int == s * idx + p * idx) by (nonlinear_arith)
            requires
                s >= 0,
                p >= 0,
                idx >= 0,
        ;
    }
    let start = s * idx + p * idx;
    let item = slice_subrange(slice, start, start + s);
    proof {
        assert(item@ =~= fixed_item_at(slice@, 0, s as int, p as int, idx as int));
    }
    item
}

/// Field `idx` of a struct value: the field's bytes at its prefix-sum
/// offset, encoding the field's type.
pub fn struct_field<'a>(ast: &Ast, i: usize, slice: &'a [u8], idx: usize) -> (r: &'a [u8])
    requires
        ast.wf(),
        i < ast.decls@.len(),
        ast.decls@[i as int] is Struct,
        valid_encoding(ast.decls@, i as int, slice@, true),
        idx < ast.decls@[i as int]->Struct_fields@.len(),
    ensures
        r@ == slice@.subrange(
            struct_offset(
                ast.decls@[i as int]->Struct_field_sizes@,
                ast.decls@[i as int]->Struct_field_paddings@,
                idx as int,
            ) + ast.decls@[i as int]->Struct_field_paddings@[idx as int],
            struct_offset(
                ast.decls@[i as int]->Struct_field_sizes@,
                ast.decls@[i as int]->Struct_field_paddings@,
                idx as int,
            ) + ast.decls@[i as int]->Struct_field_paddings@[idx as int] + ast.decls@[
                i as int
            ]->Struct_field_sizes@[idx as int],
        ),
        valid_encoding(
            ast.decls@,
            ast.decls@[i as int]->Struct_fields@[idx as int].typ as int,
            r@,
            true,
        ),
{
    let ghost d = ast.decls@;
    proof {
        assert(decl_wf(d, i as int));
    }
    match &ast.decls[i] {
        TopDecl::Struct { field_sizes, field_paddings, .. } => {
            let ghost sz = field_sizes@;
            let ghost pd = field_paddings@;
            let n = field_sizes.len();
            let mut off: usize = 0;
            let mut j: usize = 0;
            while j < idx
                invariant
                    ast.wf(),
                    d == ast.decls@,
                    i < d.len(),
                    d[i as int] is Struct,
                    d[i as int]->Struct_field_sizes == *field_sizes,
                    d[i as int]->Struct_field_paddings == *field_paddings,
                    sz == field_sizes@,
                    pd == field_paddings@,
                    n == sz.len(),
                    idx < n,
                    0 <= j <= idx,
                    off == struct_offset(sz, pd, j as int),
                decreases idx - j,
            {
                proof {
                    assert(decl_wf(d, i as int));
                    lemma_struct_offset_mono(sz, pd, j + 1, n as int);
                }
                off = off + field_paddings[j] + field_sizes[j];
                j = j + 1;
            }
            proof {
                lemma_struct_offset_mono(sz, pd, idx + 1, n as int);
            }
            let r = slice_subrange(
                slice,
                off + field_paddings[idx],
                off + field_paddings[idx] + field_sizes[idx],
            );
            r
        },
        _ => {
            proof {
                assert(false);
            }
            slice
        },
    }
}

/// The item count of a fix-vector value, read from its header.
pub fn fixvec_len(ast: &Ast, i: usize, slice: &[u8]) -> (r: usize)
    requires
        ast.wf(),
        i < ast.decls@.len(),
        ast.decls@[i as int] is FixVec,
        valid_encoding(ast.decls@, i as int, slice@, true),
    ensures
        r == spec_read_number(slice@, 0),
{
    proof {
        assert(decl_wf(ast.decls@, i as int));
    }
    read_number_at(slice, 0) as usize
}

/// Item `idx` of a fix-vector value, or `None` past the end.
pub fn fixvec_get<'a>(ast: &Ast, i: usize, slice: &'a [u8], idx: usize) -> (r: Option<&'a [u8]>)
    requires
        ast.wf(),
        i < ast.decls@.len(),
        ast.decls@[i as int] is FixVec,
        valid_encoding(ast.decls@, i as int, slice@, true),
    ensures
        match r {
            None => idx >= spec_read_number(slice@, 0),
            Some(item) => {
                &&& idx < spec_read_number(slice@, 0)
                &&& item@ == fixed_item_at(
                    slice@,
                    4 + ast.decls@[i as int]->FixVec_header_padding as int,
                    ast.decls@[i as int]->FixVec_item_size as int,
                    ast.decls@[i as int]->FixVec_item_padding as int,
                    idx as int,
                )
                &&& valid_encoding(ast.decls@, ast.decls@[i as int]->FixVec_typ as int, item@, true)
            },
        },
{
    let ghost d = ast.decls@;
    proof {
        assert(decl_wf(d, i as int));
    }
    let count = read_number_at(slice, 0) as usize;
    if idx >= count {
        return None;
    }
    let (s, p, hp) = match &ast.decls[i] {
        TopDecl::FixVec { item_size, item_padding, header_padding, .. } => (
            *item_size,
            *item_padding,
            *header_padding,
        ),
        _ => {
            proof {
                assert(false);
            }
            (0, 0, 0)
        },
    };
    proof {
        lemma_fixed_run_bounds(s as int, p as int, count as int, idx as int);
        assert(s * idx as int <= (s + p) * idx as int && p * idx as int <= (s + p) * idx as int
            && (s + p) * idx as int == s * idx + p * idx) by (nonlinear_arith)
            requires
                s >= 0,
                p >= 0,
                idx >= 0,
        ;
        assert(slice@.len() == 4 + hp + (s + p) * (count as int) - p);
    }
    // Binding the length here teaches the verifier that it fits the
    // machine word, which bounds the offset arithmetic below.
    let _slice_len = slice.len();
    let start = 4 + hp + s * idx + p * idx;
    let item = slice_subrange(slice, start, start + s);
    proof {
        assert(item@ =~= fixed_item_at(slice@, 4 + hp as int, s as int, p as int, idx as int));
    }
    Some(item)
}

/// The item count of a dyn-vector value, read from its header.
pub fn dynvec_len(ast: &Ast, i: usize, slice: &[u8]) -> (r: usize)
    requires
        ast.wf(),
        i < ast.decls@.len(),
        ast.decls@[i as int] is DynVec,
        valid_encoding(ast.decls@, i as int, slice@, true),
    ensures
        r == spec_read_number(slice@, 4),
{
    proof {
        assert(decl_wf(ast.decls@, i as int));
    }
    read_number_at(slice, 4) as usize
}

/// Item `idx` of a dyn-vector value, trimmed to its claimed length so no
/// trailing padding leaks out, or `None` past the end.
pub fn dynvec_get<'a>(ast: &Ast, i: usize, slice: &'a [u8], idx: usize) -> (r: Option<&'a [u8]>)
    requires
        ast.wf(),
        i < ast.decls@.len(),
        ast.decls@[i as int] is DynVec,
        valid_encoding(ast.decls@, i as int, slice@, true),
    ensures
        match r {
            None => idx >= spec_read_number(slice@, 4),
            Some(item) => {
                &&& idx < spec_read_number(slice@, 4)
                &&& item@ == dv_item_slice(
                    ast.decls@,
                    ast.decls@[i as int]->DynVec_typ as int,
                    slice@,
                    spec_read_number(slice@, 4) as int,
                    idx as int,
                )
                &&& valid_encoding(ast.decls@, ast.decls@[i as int]->DynVec_typ as int, item@, true)
            },
        },
{
    let ghost d = ast.decls@;
    let ghost bs = slice@;
    proof {
        assert(decl_wf(d, i as int));
    }
    let t = match &ast.decls[i] {
        TopDecl::DynVec { typ, .. } => *typ,
        _ => {
            proof {
                assert(false);
            }
            0
        },
    };
    let count = read_number_at(slice, 4) as usize;
    if idx >= count {
        return None;
    }
    let slice_len = slice.len();
    proof {
        lemma_dv_items_index(d, t as int, bs, count as int, 0, idx as int, true);
        lemma_dv_off_le_len(bs, count as int, idx as int);
        if idx as int + 1 < count {
            lemma_dv_items_index(d, t as int, bs, count as int, 0, idx as int + 1, true);
            lemma_dv_off_le_len(bs, count as int, idx as int + 1);
        }
    }
    let pos = 8 + 4 * idx;
    let start = read_number_at(slice, pos) as usize;
    let next: usize = if idx == count - 1 {
        slice_len
    } else {
        read_number_at(slice, pos + 4) as usize
    };
    let ext = slice_subrange(slice, start, next);
    proof {
        assert(ext@ =~= bs.subrange(
            dv_off(bs, idx as int),
            dv_ext_end(bs, count as int, idx as int),
        ));
        crate::wire::lemma_peek_bound(d, t as int, ext@);
        if idx as int + 1 < count {
            assert(dv_prev_end(d, t as int, bs, count as int, idx as int + 1) == start + peek_val(
                d,
                t as int,
                ext@,
            ));
        }
    }
    let pk = match crate::verify::peek_length(ast, t, ext) {
        Ok(v) => v,
        Err(_) => {
            proof {
                assert(false);
            }
            return None;
        },
    };
    let item = slice_subrange(slice, start, start + pk);
    proof {
        assert(item@ =~= dv_item_slice(d, t as int, bs, count as int, idx as int));
    }
    Some(item)
}

/// The wire field count of a table value, read from its header.
pub fn table_field_count(ast: &Ast, i: usize, slice: &[u8]) -> (r: usize)
    requires
        ast.wf(),
        i < ast.decls@.len(),
        ast.decls@[i as int] is Table,
        valid_encoding(ast.decls@, i as int, slice@, true),
    ensures
        r == spec_read_number(slice@, 4),
{
    proof {
        assert(decl_wf(ast.decls@, i as int));
    }
    read_number_at(slice, 4) as usize
}

/// Declared field `idx` of a table value, trimmed to its claimed length.
/// The extent comes from the offset table, so appended unknown fields do
/// not disturb it.
pub fn table_field<'a>(ast: &Ast, i: usize, slice: &'a [u8], idx: usize) -> (r: &'a [u8])
    requires
        ast.wf(),
        i < ast.decls@.len(),
        ast.decls@[i as int] is Table,
        valid_encoding(ast.decls@, i as int, slice@, true),
        idx < ast.decls@[i as int]->Table_fields@.len(),
    ensures
        r@ == tb_item_slice(
            ast.decls@,
            ast.decls@[i as int]->Table_fields@,
            slice@,
            spec_read_number(slice@, 4) as int,
            idx as int,
        ),
        valid_encoding(
            ast.decls@,
            ast.decls@[i as int]->Table_fields@[idx as int].typ as int,
            r@,
            true,
        ),
{
    let ghost d = ast.decls@;
    let ghost bs = slice@;
    proof {
        assert(decl_wf(d, i as int));
    }
    match &ast.decls[i] {
        TopDecl::Table { fields, .. } => {
            let ghost fseq = fields@;
            let n = fields.len();
            let t = fields[idx].typ;
            let fc = read_number_at(slice, 4) as usize;
            let slice_len = slice.len();
            let ghost hs0 = 4 * (2 + fc as int);
            proof {
                lemma_tb_items_index(
                    d,
                    i as int,
                    fseq,
                    bs,
                    fc as int,
                    hs0,
                    0,
                    idx as int,
                    true,
                );
                lemma_dv_off_le_len(bs, fc as int, idx as int);
                if idx as int + 1 < n {
                    lemma_tb_items_index(
                        d,
                        i as int,
                        fseq,
                        bs,
                        fc as int,
                        hs0,
                        0,
                        idx as int + 1,
                        true,
                    );
                }
                if idx as int + 1 < fc {
                    lemma_dv_off_le_len(bs, fc as int, idx as int + 1);
                }
            }
            let pos64: u64 = 8 + 4 * (idx as u64);
            let pos = pos64 as usize;
            let start = read_number_at(slice, pos) as usize;
            let next: usize = if idx == fc - 1 {
                slice_len
            } else {
                read_number_at(slice, pos + 4) as usize
            };
            let ext = slice_subrange(slice, start, next);
            proof {
                assert(ext@ =~= bs.subrange(
                    dv_off(bs, idx as int),
                    dv_ext_end(bs, fc as int, idx as int),
                ));
                crate::wire::lemma_peek_bound(d, t as int, ext@);
                if idx as int + 1 < n {
                    assert(tb_prev_end(d, fseq, bs, fc as int, hs0, idx as int + 1) == start
                        + peek_val(d, t as int, ext@));
                }
            }
            let pk = match crate::verify::peek_length(ast, t, ext) {
                Ok(v) => v,
                Err(_) => {
                    proof {
                        assert(false);
                    }
                    return slice;
                },
            };
            let item = slice_subrange(slice, start, start + pk);
            proof {
                assert(item@ =~= tb_item_slice(d, fseq, bs, fc as int, idx as int));
            }
            item
        },
        _ => {
            proof {
                assert(false);
            }
            slice
        },
    }
}

} // verus!
