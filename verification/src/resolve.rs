//! The resolver: fixed-point elaboration of raw declarations.
//!
//! Starting from the atom, each pass completes every declaration whose
//! references are already resolved, computing its layout metadata.  A pass
//! with no progress means the remaining names are unresolvable (missing or
//! cyclic).  The result is an arena in completion order whose invariant
//! [`crate::ast::ast_wf`] every consumer relies on, together with the map
//! from source positions to arena indices.

use crate::ast::{
    align_of, ast_wf, decl_wf, fixed_size_of, max_align, struct_offset, struct_total, Ast,
    FieldDecl, RawAst, RawFieldDecl, RawTopDecl, TopDecl, ATOM_NAME, ATOM_PRIMITIVE_NAME,
};
use crate::builder::run_end;
use crate::wire::lemma_struct_offset_mono;
use crate::defaults::{default_of, defaults_bounded, field_defaults};
use crate::error::SchemaError;
use crate::{spec_padding, Alignment};
use vstd::prelude::*;

verus! {

/// Byte-sequence equality.
fn bytes_eq(a: &[u8], b: &[u8]) -> (r: bool)
    ensures
        r == (a@ == b@),
{
    let n = a.len();
    if n != b.len() {
        return false;
    }
    let mut k: usize = 0;
    while k < n
        invariant
            0 <= k <= n,
            n == a@.len(),
            n == b@.len(),
            forall|j: int| 0 <= j < k ==> a@[j] == b@[j],
        decreases n - k,
    {
        if *vstd::slice::slice_index_get(a, k) != *vstd::slice::slice_index_get(b, k) {
            return false;
        }
        k = k + 1;
    }
    proof {
        assert(a@ =~= b@);
    }
    true
}

/// String equality, decided through the UTF-8 bytes.
fn str_eq(a: &str, b: &str) -> (r: bool)
    ensures
        r == (a@ == b@),
{
    let r = bytes_eq(a.as_bytes(), b.as_bytes());
    proof {
        if r {
            vstd::utf8::encode_utf8_decode_utf8(a@);
            vstd::utf8::encode_utf8_decode_utf8(b@);
        }
    }
    r
}

/// `name` is one of the spellings reserved for the atom.
pub open spec fn is_reserved(name: Seq<char>) -> bool {
    name == ATOM_NAME@ || name == ATOM_PRIMITIVE_NAME@
}

/// Arena entry `t` carries `name`.
pub open spec fn resolves_name(d: Seq<TopDecl>, name: Seq<char>, t: int) -> bool {
    0 <= t < d.len() && d[t].spec_name() == name
}

/// The resolved arena entry at `idx` is the completion of the raw
/// declaration `rd`: same name, corresponding shape, and every reference
/// resolved to the entry carrying the referenced name.
pub open spec fn raw_matches(rd: RawTopDecl, d: Seq<TopDecl>, idx: int) -> bool {
    &&& 0 <= idx < d.len()
    &&& d[idx].spec_name() == rd.spec_name()
    &&& match rd {
        RawTopDecl::Option_ { typ, .. } => {
            &&& d[idx] is Option_
            &&& d[d[idx]->Option__typ as int].spec_name() == typ@
        },
        RawTopDecl::Union { items, .. } => {
            &&& d[idx] is Union
            &&& d[idx]->Union_items@.len() == items@.len()
            &&& forall|j: int|
                0 <= j < items@.len() ==> d[(#[trigger] d[idx]->Union_items@[j]) as int].spec_name()
                    == items@[j]@
        },
        RawTopDecl::Array { typ, length, .. } => {
            &&& d[idx] is Array
            &&& d[d[idx]->Array_typ as int].spec_name() == typ@
            &&& d[idx]->Array_item_count == length
        },
        RawTopDecl::Struct { fields, .. } => {
            &&& d[idx] is Struct
            &&& d[idx]->Struct_fields@.len() == fields@.len()
            &&& forall|j: int|
                0 <= j < fields@.len() ==> (#[trigger] d[idx]->Struct_fields@[j]).name@
                    == fields@[j].name@ && d[d[idx]->Struct_fields@[j].typ as int].spec_name()
                    == fields@[j].typ@
        },
        RawTopDecl::Vector { typ, .. } => {
            &&& (d[idx] is FixVec || d[idx] is DynVec)
            &&& (d[idx] is FixVec ==> d[d[idx]->FixVec_typ as int].spec_name() == typ@)
            &&& (d[idx] is DynVec ==> d[d[idx]->DynVec_typ as int].spec_name() == typ@)
        },
        RawTopDecl::Table { fields, .. } => {
            &&& d[idx] is Table
            &&& d[idx]->Table_fields@.len() == fields@.len()
            &&& forall|j: int|
                0 <= j < fields@.len() ==> (#[trigger] d[idx]->Table_fields@[j]).name@
                    == fields@[j].name@ && d[d[idx]->Table_fields@[j].typ as int].spec_name()
                    == fields@[j].typ@
        },
    }
}

/// The schemas on which resolution is owed: no reserved or duplicated
/// names, and a complete resolution with bounded defaults exists at all.
pub open spec fn resolvable(rs: Seq<RawTopDecl>) -> bool {
    &&& forall|a: int| 0 <= a < rs.len() ==> !is_reserved((#[trigger] rs[a]).spec_name())
    &&& forall|a: int, b: int|
        0 <= a < b < rs.len() ==> (#[trigger] rs[a]).spec_name() != (#[trigger] rs[b]).spec_name()
    &&& exists|d: Seq<TopDecl>, o: Seq<usize>| #[trigger] resolution_of(rs, d, o)
        && defaults_bounded(d)
}

/// A name that no arena entry carries is not in the arena.
proof fn lemma_not_name_in(d: Seq<TopDecl>, name: Seq<char>)
    requires
        forall|t: int| 0 <= t < d.len() ==> (#[trigger] d[t]).spec_name() != name,
    ensures
        !name_in(d, name),
{
    if name_in(d, name) {
        let t = choose|t: int| resolves_name(d, name, t);
        assert(d[t].spec_name() == name);
    }
}

/// Package a concrete missing reference as [`has_missing_ref`].
proof fn lemma_missing_intro(rd: RawTopDecl, d: Seq<TopDecl>, j: int)
    requires
        0 <= j < ref_count(rd),
        !name_in(d, ref_name(rd, j)),
    ensures
        has_missing_ref(rd, d),
{
}

/// A well-formed arena entry stays well-formed when the arena grows.
proof fn lemma_decl_wf_push(d: Seq<TopDecl>, x: TopDecl, i: int)
    requires
        0 <= i < d.len(),
        decl_wf(d, i),
    ensures
        decl_wf(d.push(x), i),
{
    assert(d.push(x)[i] == d[i]);
    match d[i] {
        TopDecl::Atom { .. } => {},
        TopDecl::Option_ { typ, .. } => {
            assert(d.push(x)[typ as int] == d[typ as int]);
        },
        TopDecl::Union { items, .. } => {},
        TopDecl::Array { typ, .. } => {
            assert(d.push(x)[typ as int] == d[typ as int]);
        },
        TopDecl::Struct { fields, .. } => {
            assert(forall|j: int|
                0 <= j < fields@.len() ==> d.push(x)[#[trigger] fields@[j].typ as int] == d[fields@[
                    j
                ].typ as int]);
        },
        TopDecl::FixVec { typ, .. } => {
            assert(d.push(x)[typ as int] == d[typ as int]);
        },
        TopDecl::DynVec { typ, .. } => {
            assert(d.push(x)[typ as int] == d[typ as int]);
        },
        TopDecl::Table { fields, .. } => {
            assert(forall|j: int|
                0 <= j < fields@.len() ==> d.push(x)[#[trigger] fields@[j].typ as int] == d[fields@[
                    j
                ].typ as int]);
        },
    }
}

/// Find the arena entry carrying `name`.
fn lookup(decls: &Vec<TopDecl>, name: &str) -> (r: Option<usize>)
    ensures
        match r {
            Some(t) => resolves_name(decls@, name@, t as int),
            None => forall|t: int| 0 <= t < decls@.len() ==> decls@[t].spec_name() != name@,
        },
{
    let n = decls.len();
    let mut k: usize = 0;
    while k < n
        invariant
            0 <= k <= n,
            n == decls@.len(),
            forall|t: int| 0 <= t < k ==> decls@[t].spec_name() != name@,
        decreases n - k,
    {
        if str_eq(decls[k].name().as_str(), name) {
            return Some(k);
        }
        k = k + 1;
    }
    None
}

/// The fixed size of arena entry `t`, when it has one.
fn fixed_total(decls: &Vec<TopDecl>, t: usize) -> (r: Option<usize>)
    requires
        ast_wf(decls@),
        t < decls@.len(),
    ensures
        match r {
            Some(n) => fixed_size_of(decls@, t as int) == Some(n as int),
            None => fixed_size_of(decls@, t as int) is None,
        },
{
    proof {
        assert(decl_wf(decls@, t as int));
    }
    match &decls[t] {
        TopDecl::Atom { .. } => Some(1),
        TopDecl::Array { item_size, item_padding, item_count, .. } => {
            proof {
                crate::wire::lemma_array_total_bounds(
                    *item_size as int,
                    *item_padding as int,
                    *item_count as int,
                );
            }
            Some(*item_size * *item_count + *item_padding * (*item_count - 1))
        },
        TopDecl::Struct { field_sizes, field_paddings, .. } => {
            Some(struct_total(field_sizes, field_paddings))
        },
        _ => None,
    }
}

/// Try to complete one raw declaration against the arena built so far.
/// `Ok(None)` means a reference is not resolved yet; `Err` is a fatal
/// schema error.
fn try_complete(rd: &RawTopDecl, decls: &Vec<TopDecl>) -> (r: Result<
    Option<TopDecl>,
    SchemaError,
>)
    requires
        ast_wf(decls@),
    ensures
        match r {
            Ok(Some(decl)) => {
                &&& decl_wf(decls@.push(decl), decls@.len() as int)
                &&& raw_matches(*rd, decls@.push(decl), decls@.len() as int)
                &&& !(decl is Atom)
                &&& decl.spec_name() == rd.spec_name()
            },
            Ok(None) => has_missing_ref(*rd, decls@),
            Err(e) => completion_blocked(*rd, decls@) && !(e is UnresolvedTypes),
        },
{
    let ghost d0 = decls@;
    match rd {
        RawTopDecl::Option_ { name, typ } => {
            match lookup(decls, typ.as_str()) {
                None => {
                    proof {
                        lemma_not_name_in(d0, typ@);
                        lemma_missing_intro(*rd, d0, 0);
                    }
                    Ok(None)
                },
                Some(t) => {
                    let alignment = decls[t].alignment();
                    let decl = TopDecl::Option_ { name: name.clone(), typ: t, alignment };
                    proof {
                        assert(decls@.push(decl)[t as int] == decls@[t as int]);
                        assert(decls@.push(decl)[decls@.len() as int] == decl);
                    }
                    Ok(Some(decl))
                },
            }
        },
        RawTopDecl::Union { name, items } => {
            let m = items.len();
            if m == 0 {
                return Err(SchemaError::EmptyUnion(name.clone()));
            }
            let mut resolved: Vec<usize> = Vec::new();
            let mut j: usize = 0;
            while j < m
                invariant
                    0 <= j <= m,
                    m == items@.len(),
                    decls@ == d0,
                    (*rd) is Union,
                    (*rd)->Union_items == *items,
                    resolved@.len() == j,
                    forall|l: int|
                        0 <= l < j ==> resolves_name(
                            d0,
                            items@[l]@,
                            #[trigger] resolved@[l] as int,
                        ),
                decreases m - j,
            {
                match lookup(decls, items[j].as_str()) {
                    None => {
                        proof {
                            lemma_not_name_in(d0, items@[j as int]@);
                            lemma_missing_intro(*rd, d0, j as int);
                        }
                        return Ok(None);
                    },
                    Some(t) => {
                        resolved.push(t);
                    },
                }
                j = j + 1;
            }
            let decl = TopDecl::Union {
                name: name.clone(),
                items: resolved,
                alignment: Alignment::Byte8,
            };
            proof {
                assert forall|l: int|
                    0 <= l < decl->Union_items@.len() implies decls@.push(decl)[(
                #[trigger] decl->Union_items@[l]) as int].spec_name() == items@[l]@ by {
                    assert(decls@.push(decl)[decl->Union_items@[l] as int] == decls@[
                        decl->Union_items@[l] as int
                    ]);
                }
                assert(decls@.push(decl)[decls@.len() as int] == decl);
            }
            Ok(Some(decl))
        },
        RawTopDecl::Array { name, typ, length } => {
            match lookup(decls, typ.as_str()) {
                None => {
                    proof {
                        lemma_not_name_in(d0, typ@);
                        lemma_missing_intro(*rd, d0, 0);
                    }
                    Ok(None)
                },
                Some(t) => {
                    let item_size = match fixed_total(decls, t) {
                        None => {
                            proof {
                                assert(resolves_name(d0, typ@, t as int));
                                assert(completion_blocked(*rd, d0));
                            }
                            return Err(SchemaError::InnerNotFixedSize(name.clone(), typ.clone()));
                        },
                        Some(s) => s,
                    };
                    if *length == 0 {
                        return Err(SchemaError::EmptyArray(name.clone()));
                    }
                    proof {
                        crate::wire::lemma_fixed_size_bounds(decls@, t as int);
                    }
                    let (item_alignment, alignment) = if decls[t].is_atom() {
                        (Alignment::Byte1, Alignment::for_size(*length))
                    } else {
                        (decls[t].alignment(), decls[t].alignment())
                    };
                    let item_padding = item_alignment.calc_padding(item_size);
                    proof {
                        assert(((item_size as u128) + (item_padding as u128)) * (*length as u128)
                            >= (item_size as u128) + (item_padding as u128)) by (nonlinear_arith)
                            requires
                                *length >= 1,
                                item_size >= 1,
                        ;
                        assert(((item_size as u128) + (item_padding as u128)) * (*length as u128)
                            <= 0x1_0000_0006u128 * 0xFFFF_FFFF_FFFF_FFFFu128) by (nonlinear_arith)
                            requires
                                (item_size as u128) + (item_padding as u128) <= 0x1_0000_0006u128,
                                (*length as u128) <= 0xFFFF_FFFF_FFFF_FFFFu128,
                        ;
                    }
                    let total128 = ((item_size as u128) + (item_padding as u128)) * (
                    *length as u128) - (item_padding as u128);
                    if total128 > 0xFFFF_FFFFu128 {
                        proof {
                            assert(resolves_name(d0, typ@, t as int));
                            assert(completed_array_total(d0, t as int, *length as int)
                                == total128 as int);
                            assert(completion_blocked(*rd, d0));
                        }
                        return Err(SchemaError::SizeOverflow(name.clone()));
                    }
                    let decl = TopDecl::Array {
                        name: name.clone(),
                        typ: t,
                        item_size,
                        item_padding,
                        item_count: *length,
                        item_alignment,
                        alignment,
                    };
                    proof {
                        assert(decls@.push(decl)[t as int] == decls@[t as int]);
                        assert(decls@.push(decl)[decls@.len() as int] == decl);
                    }
                    Ok(Some(decl))
                },
            }
        },
        RawTopDecl::Struct { name, fields } => {
            let m = fields.len();
            if m == 0 {
                return Err(SchemaError::ZeroSizeStruct(name.clone()));
            }
            let mut inner: Vec<FieldDecl> = Vec::new();
            let mut field_sizes: Vec<usize> = Vec::new();
            let mut field_alignments: Vec<Alignment> = Vec::new();
            let mut j: usize = 0;
            while j < m
                invariant
                    0 <= j <= m,
                    m == fields@.len(),
                    decls@ == d0,
                    ast_wf(d0),
                    (*rd) is Struct,
                    (*rd)->Struct_fields == *fields,
                    inner@.len() == j,
                    field_sizes@.len() == j,
                    field_alignments@.len() == j,
                    forall|l: int|
                        0 <= l < j ==> {
                            &&& 0 <= (#[trigger] inner@[l]).typ < d0.len()
                            &&& d0[inner@[l].typ as int].spec_name() == fields@[l].typ@
                            &&& inner@[l].name@ == fields@[l].name@
                            &&& fixed_size_of(d0, inner@[l].typ as int) == Some(
                                field_sizes@[l] as int,
                            )
                            &&& 1 <= field_sizes@[l] <= u32::MAX
                            &&& field_alignments@[l] == align_of(d0, inner@[l].typ as int)
                        },
                decreases m - j,
            {
                match lookup(decls, fields[j].typ.as_str()) {
                    None => {
                        proof {
                            lemma_not_name_in(d0, fields@[j as int].typ@);
                            lemma_missing_intro(*rd, d0, j as int);
                        }
                        return Ok(None);
                    },
                    Some(t) => {
                        let size = match fixed_total(decls, t) {
                            None => {
                                proof {
                                    assert(resolves_name(d0, fields@[j as int].typ@, t as int));
                                    assert(completion_blocked(*rd, d0));
                                }
                                return Err(
                                    SchemaError::InnerNotFixedSize(
                                        name.clone(),
                                        fields[j].name.clone(),
                                    ),
                                );
                            },
                            Some(s) => s,
                        };
                        proof {
                            crate::wire::lemma_fixed_size_bounds(decls@, t as int);
                        }
                        inner.push(FieldDecl { name: fields[j].name.clone(), typ: t });
                        field_sizes.push(size);
                        field_alignments.push(decls[t].alignment());
                    },
                }
                j = j + 1;
            }
            proof {
                assert forall|l: int| 0 <= l < m implies 1 <= #[trigger] field_sizes@[l]
                    <= u32::MAX by {
                    assert(inner@[l].typ >= 0);
                }
            }
            // Per-field paddings from the running offset, and the struct's
            // alignment as the field maximum.
            let mut field_paddings: Vec<usize> = Vec::new();
            let mut alignment = Alignment::Byte1;
            let mut offset: u64 = 0;
            let mut j: usize = 0;
            while j < m
                invariant
                    0 <= j <= m,
                    m == fields@.len(),
                    m == field_sizes@.len(),
                    m == field_alignments@.len(),
                    m == inner@.len(),
                    decls@ == d0,
                    ast_wf(d0),
                    (*rd) is Struct,
                    (*rd)->Struct_fields == *fields,
                    field_paddings@.len() == j,
                    forall|l: int| 0 <= l < m ==> 1 <= #[trigger] field_sizes@[l] <= u32::MAX,
                    forall|l: int|
                        0 <= l < m ==> resolves_name(
                            d0,
                            fields@[l].typ@,
                            (#[trigger] inner@[l]).typ as int,
                        ) && fixed_size_of(d0, inner@[l].typ as int) == Some(
                            field_sizes@[l] as int,
                        ) && field_alignments@[l] == align_of(d0, inner@[l].typ as int),
                    offset == struct_offset(field_sizes@, field_paddings@, j as int),
                    offset <= 0xFFFF_FFFFu64,
                    alignment == max_align(field_alignments@, j as int),
                    forall|l: int|
                        0 <= l < j ==> #[trigger] field_paddings@[l] == spec_padding(
                            field_alignments@[l].spec_size(),
                            struct_offset(field_sizes@, field_paddings@, l) as nat,
                        ),
                decreases m - j,
            {
                let pad = field_alignments[j].calc_padding(offset as usize);
                proof {
                    assert(pad < 8);
                }
                let next64: u64 = offset + (pad as u64) + (field_sizes[j] as u64);
                if next64 > 0xFFFF_FFFFu64 {
                    proof {
                        assert forall|l: int| 0 <= l < m implies name_in(
                            d0,
                            (#[trigger] fields@[l]).typ@,
                        ) && fixed_size_of(d0, entry_named(d0, fields@[l].typ@)) is Some by {
                            assert(resolves_name(d0, fields@[l].typ@, inner@[l].typ as int));
                            lemma_entry_named_is(d0, fields@[l].typ@, inner@[l].typ as int);
                        }
                        lemma_completed_end_matches(
                            d0,
                            fields@,
                            inner@,
                            field_sizes@,
                            field_alignments@,
                            field_paddings@,
                            j as int,
                        );
                        lemma_entry_named_is(d0, fields@[j as int].typ@, inner@[j as int].typ as int);
                        assert(completed_struct_end(d0, fields@, j as int + 1) == next64 as int);
                        assert(completion_blocked(*rd, d0));
                    }
                    return Err(SchemaError::SizeOverflow(name.clone()));
                }
                let ghost oldpads = field_paddings@;
                field_paddings.push(pad);
                proof {
                    assert(field_paddings@ == oldpads.push(pad));
                    assert forall|l: int| 0 <= l <= j implies struct_offset(
                        field_sizes@,
                        field_paddings@,
                        l,
                    ) == struct_offset(field_sizes@, oldpads, l) by {
                        lemma_struct_offset_push_one(field_sizes@, oldpads, pad, l);
                    }
                }
                alignment = alignment.max_with(field_alignments[j]);
                offset = next64;
                j = j + 1;
            }
            let decl = TopDecl::Struct {
                name: name.clone(),
                fields: inner,
                field_sizes,
                field_paddings,
                field_alignments,
                alignment,
            };
            proof {
                let d1 = decls@.push(decl);
                assert(d1[decls@.len() as int] == decl);
                assert forall|l: int| 0 <= l < decl->Struct_fields@.len() implies d1[(
                #[trigger] decl->Struct_fields@[l]).typ as int] == d0[decl->Struct_fields@[
                    l
                ].typ as int] by {}
            }
            Ok(Some(decl))
        },
        RawTopDecl::Vector { name, typ } => {
            match lookup(decls, typ.as_str()) {
                None => {
                    proof {
                        lemma_not_name_in(d0, typ@);
                        lemma_missing_intro(*rd, d0, 0);
                    }
                    Ok(None)
                },
                Some(t) => {
                    let item_alignment = decls[t].alignment();
                    let alignment = item_alignment.max_with(Alignment::Byte4);
                    match fixed_total(decls, t) {
                        Some(item_size) => {
                            proof {
                                crate::wire::lemma_fixed_size_bounds(decls@, t as int);
                            }
                            let item_padding = item_alignment.calc_padding(item_size);
                            let header_padding = item_alignment.calc_padding(4);
                            let decl = TopDecl::FixVec {
                                name: name.clone(),
                                typ: t,
                                item_size,
                                item_padding,
                                header_padding,
                                item_alignment,
                                alignment,
                            };
                            proof {
                                assert(decls@.push(decl)[t as int] == decls@[t as int]);
                                assert(decls@.push(decl)[decls@.len() as int] == decl);
                            }
                            Ok(Some(decl))
                        },
                        None => {
                            let decl = TopDecl::DynVec {
                                name: name.clone(),
                                typ: t,
                                item_alignment,
                                alignment,
                            };
                            proof {
                                assert(decls@.push(decl)[t as int] == decls@[t as int]);
                                assert(decls@.push(decl)[decls@.len() as int] == decl);
                            }
                            Ok(Some(decl))
                        },
                    }
                },
            }
        },
        RawTopDecl::Table { name, fields } => {
            let m = fields.len();
            if m >= 0x3FFF_FFFEusize {
                return Err(SchemaError::SizeOverflow(name.clone()));
            }
            let mut inner: Vec<FieldDecl> = Vec::new();
            let mut field_alignments: Vec<Alignment> = Vec::new();
            let mut j: usize = 0;
            while j < m
                invariant
                    0 <= j <= m,
                    m == fields@.len(),
                    decls@ == d0,
                    ast_wf(d0),
                    (*rd) is Table,
                    (*rd)->Table_fields == *fields,
                    inner@.len() == j,
                    field_alignments@.len() == j,
                    forall|l: int|
                        0 <= l < j ==> {
                            &&& 0 <= (#[trigger] inner@[l]).typ < d0.len()
                            &&& d0[inner@[l].typ as int].spec_name() == fields@[l].typ@
                            &&& inner@[l].name@ == fields@[l].name@
                            &&& field_alignments@[l] == align_of(d0, inner@[l].typ as int)
                        },
                decreases m - j,
            {
                match lookup(decls, fields[j].typ.as_str()) {
                    None => {
                        proof {
                            lemma_not_name_in(d0, fields@[j as int].typ@);
                            lemma_missing_intro(*rd, d0, j as int);
                        }
                        return Ok(None);
                    },
                    Some(t) => {
                        inner.push(FieldDecl { name: fields[j].name.clone(), typ: t });
                        field_alignments.push(decls[t].alignment());
                    },
                }
                j = j + 1;
            }
            let decl = TopDecl::Table {
                name: name.clone(),
                fields: inner,
                field_alignments,
                alignment: Alignment::Byte8,
            };
            proof {
                let d1 = decls@.push(decl);
                assert(d1[decls@.len() as int] == decl);
                assert forall|l: int| 0 <= l < decl->Table_fields@.len() implies d1[(
                #[trigger] decl->Table_fields@[l]).typ as int] == d0[decl->Table_fields@[
                    l
                ].typ as int] by {}
            }
            Ok(Some(decl))
        },
    }
}

/// A struct-offset prefix sum only reads the paddings before it, so it is
/// unchanged when a padding is appended.
proof fn lemma_struct_offset_push_one(sizes: Seq<usize>, paddings: Seq<usize>, x: usize, l: int)
    requires
        0 <= l <= paddings.len(),
    ensures
        struct_offset(sizes, paddings.push(x), l) == struct_offset(sizes, paddings, l),
    decreases l,
{
    if l > 0 {
        lemma_struct_offset_push_one(sizes, paddings, x, l - 1);
    }
}

/// Some source position resolves to arena index `t`.
pub open spec fn hit_by_order(order: Seq<usize>, n: int, t: int) -> bool {
    exists|a: int| 0 <= a < n && (#[trigger] order[a]) as int == t
}

/// The number of unresolved (zero) entries among the first `j` positions.
spec fn count_zeros(s: Seq<usize>, j: int) -> int
    decreases j,
{
    if j <= 0 {
        0
    } else {
        count_zeros(s, j - 1) + if s[j - 1] == 0 {
            1int
        } else {
            0int
        }
    }
}

proof fn lemma_count_zeros_nonneg(s: Seq<usize>, j: int)
    ensures
        count_zeros(s, j) >= 0,
    decreases j,
{
    if j > 0 {
        lemma_count_zeros_nonneg(s, j - 1);
    }
}

/// Resolving one entry decrements the zero count.
proof fn lemma_count_zeros_update(s: Seq<usize>, k: int, v: usize, j: int)
    requires
        0 <= k < s.len(),
        s[k] == 0,
        v != 0,
        0 <= j <= s.len(),
    ensures
        count_zeros(s.update(k, v), j) == count_zeros(s, j) - if k < j {
            1int
        } else {
            0int
        },
    decreases j,
{
    if j > 0 {
        lemma_count_zeros_update(s, k, v, j - 1);
    }
}

/// A zero entry below `j` counts.
proof fn lemma_count_zeros_lower(s: Seq<usize>, k: int, j: int)
    requires
        0 <= k < j,
        s[k] == 0,
    ensures
        count_zeros(s, j) >= 1,
    decreases j,
{
    lemma_count_zeros_nonneg(s, j - 1);
    if k < j - 1 {
        lemma_count_zeros_lower(s, k, j - 1);
    }
}

/// A positive zero count exhibits a zero entry.
proof fn lemma_count_zeros_pos(s: Seq<usize>, j: int)
    requires
        0 <= j <= s.len(),
        count_zeros(s, j) > 0,
    ensures
        exists|l: int| 0 <= l < j && (#[trigger] s[l]) == 0,
    decreases j,
{
    if j > 0 {
        if s[j - 1] == 0 {
            assert(0 <= j - 1 < j && s[j - 1] == 0);
        } else {
            lemma_count_zeros_pos(s, j - 1);
        }
    }
}

/// No zeros counted means no entry is zero.
proof fn lemma_count_zeros_none(s: Seq<usize>, j: int)
    requires
        count_zeros(s, j) == 0,
        0 <= j,
    ensures
        forall|l: int| 0 <= l < j ==> s[l] != 0,
    decreases j,
{
    if j > 0 {
        lemma_count_zeros_nonneg(s, j - 1);
        lemma_count_zeros_none(s, j - 1);
    }
}

/// A completed match survives the arena growing.
proof fn lemma_raw_matches_push(rd: RawTopDecl, d: Seq<TopDecl>, x: TopDecl, idx: int)
    requires
        ast_wf(d),
        raw_matches(rd, d, idx),
    ensures
        raw_matches(rd, d.push(x), idx),
{
    assert(decl_wf(d, idx));
    assert(d.push(x)[idx] == d[idx]);
    match rd {
        RawTopDecl::Option_ { .. } => {
            assert(d.push(x)[d[idx]->Option__typ as int] == d[d[idx]->Option__typ as int]);
        },
        RawTopDecl::Union { items, .. } => {
            assert forall|j: int| 0 <= j < items@.len() implies d.push(x)[(
            #[trigger] d[idx]->Union_items@[j]) as int].spec_name() == items@[j]@ by {
                assert(d.push(x)[d[idx]->Union_items@[j] as int] == d[d[idx]->Union_items@[
                    j
                ] as int]);
            }
        },
        RawTopDecl::Array { .. } => {
            assert(d.push(x)[d[idx]->Array_typ as int] == d[d[idx]->Array_typ as int]);
        },
        RawTopDecl::Struct { fields, .. } => {
            assert forall|j: int| 0 <= j < fields@.len() implies (
            #[trigger] d.push(x)[idx]->Struct_fields@[j]).name@ == fields@[j].name@ && d.push(x)[
                d.push(x)[idx]->Struct_fields@[j].typ as int
            ].spec_name() == fields@[j].typ@ by {
                assert(d.push(x)[d[idx]->Struct_fields@[j].typ as int] == d[d[
                    idx
                ]->Struct_fields@[j].typ as int]);
            }
        },
        RawTopDecl::Vector { .. } => {
            if d[idx] is FixVec {
                assert(d.push(x)[d[idx]->FixVec_typ as int] == d[d[idx]->FixVec_typ as int]);
            } else {
                assert(d.push(x)[d[idx]->DynVec_typ as int] == d[d[idx]->DynVec_typ as int]);
            }
        },
        RawTopDecl::Table { fields, .. } => {
            assert forall|j: int| 0 <= j < fields@.len() implies (
            #[trigger] d.push(x)[idx]->Table_fields@[j]).name@ == fields@[j].name@ && d.push(x)[
                d.push(x)[idx]->Table_fields@[j].typ as int
            ].spec_name() == fields@[j].typ@ by {
                assert(d.push(x)[d[idx]->Table_fields@[j].typ as int] == d[d[idx]->Table_fields@[
                    j
                ].typ as int]);
            }
        },
    }
}

impl Ast {
    /// Resolve a raw declaration list into a layout-annotated arena.  On
    /// success the arena is well-formed, every default content fits a wire
    /// number, and `order` maps each source declaration to its completion.
    pub fn new(raw: &RawAst) -> (r: Result<Ast, SchemaError>)
        ensures
            match r {
                Ok(ast) => {
                    &&& ast.wf()
                    &&& defaults_bounded(ast.decls@)
                    &&& ast.decls@.len() == raw.decls@.len() + 1
                    &&& ast.order@.len() == raw.decls@.len()
                    &&& forall|k: int|
                        0 <= k < raw.decls@.len() ==> raw_matches(
                            raw.decls@[k],
                            ast.decls@,
                            #[trigger] ast.order@[k] as int,
                        )
                    &&& forall|k1: int, k2: int|
                        0 <= k1 < k2 < raw.decls@.len() ==> ast.order@[k1] != ast.order@[k2]
                    &&& ast.decls@[0].spec_name() == ATOM_NAME@
                    &&& forall|t: int|
                        1 <= t < ast.decls@.len() ==> #[trigger] hit_by_order(
                            ast.order@,
                            raw.decls@.len() as int,
                            t,
                        )
                    &&& forall|a: int|
                        0 <= a < raw.decls@.len() ==> !is_reserved(
                            (#[trigger] raw.decls@[a]).spec_name(),
                        )
                    &&& forall|a: int, b: int|
                        0 <= a < b < raw.decls@.len() ==> (#[trigger] raw.decls@[a]).spec_name()
                            != (#[trigger] raw.decls@[b]).spec_name()
                },
                Err(_) => !resolvable(raw.decls@),
            },
            r is Ok <==> resolvable(raw.decls@),
            r matches Err(SchemaError::UnresolvedTypes(ns)) ==> ns@.len() >= 1,
    {
        let ghost rs = raw.decls@;
        let n = raw.decls.len();
        // Reserved and duplicated names are rejected up front.
        let mut k: usize = 0;
        while k < n
            invariant
                0 <= k <= n,
                n == rs.len(),
                rs == raw.decls@,
                forall|a: int| 0 <= a < k ==> !is_reserved((#[trigger] rs[a]).spec_name()),
                forall|a: int, b: int|
                    0 <= a < k && a < b < n ==> (#[trigger] rs[a]).spec_name() != (
                    #[trigger] rs[b]).spec_name(),
            decreases n - k,
        {
            let name = raw.decls[k].name();
            if str_eq(name.as_str(), ATOM_NAME) || str_eq(name.as_str(), ATOM_PRIMITIVE_NAME) {
                proof {
                    if resolvable(rs) {
                        assert(!is_reserved(rs[k as int].spec_name()));
                    }
                }
                return Err(SchemaError::NameReserved(name.clone()));
            }
            let mut l: usize = k + 1;
            while l < n
                invariant
                    0 <= k < l <= n,
                    n == rs.len(),
                    rs == raw.decls@,
                    name@ == rs[k as int].spec_name(),
                    forall|b: int| k < b < l ==> rs[k as int].spec_name() != (
                    #[trigger] rs[b]).spec_name(),
                decreases n - l,
            {
                if str_eq(raw.decls[l].name().as_str(), name.as_str()) {
                    proof {
                        if resolvable(rs) {
                            assert(rs[k as int].spec_name() != rs[l as int].spec_name());
                        }
                    }
                    return Err(SchemaError::NameDuplicated(name.clone()));
                }
                l = l + 1;
            }
            k = k + 1;
        }
        // Fixed-point completion, seeded with the atom.
        let mut decls: Vec<TopDecl> = Vec::new();
        decls.push(TopDecl::Atom { name: ATOM_NAME.to_owned() });
        let mut order: Vec<usize> = Vec::new();
        let mut k: usize = 0;
        while k < n
            invariant
                0 <= k <= n,
                order@.len() == k,
                forall|a: int| 0 <= a < k ==> #[trigger] order@[a] == 0,
            decreases n - k,
        {
            order.push(0);
            k = k + 1;
        }
        proof {
            assert(ast_wf(decls@));
            lemma_count_zeros_all(order@, n as int);
        }
        let mut remaining: usize = n;
        while remaining > 0
            invariant
                n == rs.len(),
                rs == raw.decls@,
                forall|a: int| 0 <= a < n ==> !is_reserved((#[trigger] rs[a]).spec_name()),
                forall|a: int, b: int|
                    0 <= a < b < n ==> (#[trigger] rs[a]).spec_name() != (
                    #[trigger] rs[b]).spec_name(),
                ast_wf(decls@),
                decls@.len() >= 1,
                decls@[0].spec_name() == ATOM_NAME@,
                order@.len() == n,
                remaining as int == count_zeros(order@, n as int),
                remaining <= n,
                decls@.len() == 1 + n - remaining,
                forall|a: int|
                    0 <= a < n ==> #[trigger] order@[a] == 0 || (1 <= order@[a]
                        < decls@.len() && raw_matches(rs[a], decls@, order@[a] as int)),
                forall|t: int| 1 <= t < decls@.len() ==> #[trigger] hit_by_order(
                    order@,
                    n as int,
                    t,
                ),
            decreases remaining,
        {
            let ghost order_at_entry = order@;
            let mut progressed = false;
            let mut k: usize = 0;
            while k < n
                invariant
                    n == rs.len(),
                    rs == raw.decls@,
                    forall|a: int| 0 <= a < n ==> !is_reserved((#[trigger] rs[a]).spec_name()),
                    forall|a: int, b: int|
                        0 <= a < b < n ==> (#[trigger] rs[a]).spec_name() != (
                        #[trigger] rs[b]).spec_name(),
                    ast_wf(decls@),
                    decls@.len() >= 1,
                    decls@[0].spec_name() == ATOM_NAME@,
                    order@.len() == n,
                    0 <= k <= n,
                    remaining as int == count_zeros(order@, n as int),
                    remaining <= n,
                    decls@.len() == 1 + n - remaining,
                    forall|a: int|
                        0 <= a < n ==> #[trigger] order@[a] == 0 || (1 <= order@[a]
                            < decls@.len() && raw_matches(rs[a], decls@, order@[a] as int)),
                    forall|t: int| 1 <= t < decls@.len() ==> #[trigger] hit_by_order(
                        order@,
                        n as int,
                        t,
                    ),
                    !progressed ==> order@ == order_at_entry,
                    !progressed ==> forall|a: int|
                        0 <= a < k && (#[trigger] order@[a]) == 0 ==> has_missing_ref(
                            rs[a],
                            decls@,
                        ),
                    progressed ==> count_zeros(order@, n as int) < count_zeros(
                        order_at_entry,
                        n as int,
                    ),
                decreases n - k,
            {
                if order[k] == 0 {
                    match try_complete(&raw.decls[k], &decls) {
                        Err(e) => {
                            proof {
                                assert(partial_resolution_of(rs, decls@, order@));
                                assert forall|d2: Seq<TopDecl>, o2: Seq<usize>| !(
                                #[trigger] resolution_of(rs, d2, o2) && defaults_bounded(
                                    d2,
                                )) by {
                                    lemma_blocked_refutes(rs, decls@, order@, d2, o2, k as int);
                                }
                                assert(!resolvable(rs));
                            }
                            return Err(e);
                        },
                        Ok(None) => {},
                        Ok(Some(decl)) => {
                            let idx = decls.len();
                            let ghost d0 = decls@;
                            proof {
                                // The new name collides with no arena name.
                                assert forall|t: int| 0 <= t < d0.len() implies d0[t].spec_name()
                                    != decl.spec_name() by {
                                    if t >= 1 {
                                        assert(hit_by_order(order@, n as int, t));
                                        let a = choose|a: int|
                                            0 <= a < n && (#[trigger] order@[a]) as int == t;
                                        assert(raw_matches(rs[a], d0, t));
                                        assert(d0[t].spec_name() == rs[a].spec_name());
                                    }
                                }
                                assert forall|t: int| 0 <= t < d0.len() implies decl_wf(
                                    d0.push(decl),
                                    t,
                                ) by {
                                    assert(decl_wf(d0, t));
                                    lemma_decl_wf_push(d0, decl, t);
                                }
                                assert forall|a: int|
                                    0 <= a < n && order@[a] != 0 implies raw_matches(
                                    rs[a],
                                    d0.push(decl),
                                    order@[a] as int,
                                ) by {
                                    lemma_raw_matches_push(rs[a], d0, decl, order@[a] as int);
                                }
                                assert(forall|t: int|
                                    0 <= t < d0.len() ==> d0.push(decl)[t] == d0[t]);
                                assert(ast_wf(d0.push(decl)));
                            }
                            proof {
                                lemma_count_zeros_lower(order@, k as int, n as int);
                            }
                            decls.push(decl);
                            let ghost old_order = order@;
                            proof {
                                lemma_count_zeros_update(order@, k as int, idx, n as int);
                            }
                            order.set(k, idx);
                            remaining = remaining - 1;
                            progressed = true;
                            proof {
                                assert forall|t: int| 1 <= t < decls@.len() implies
                                    #[trigger] hit_by_order(order@, n as int, t) by {
                                    if t < idx {
                                        assert(hit_by_order(old_order, n as int, t));
                                        let a = choose|a: int|
                                            0 <= a < n && (#[trigger] old_order[a]) as int == t;
                                        assert(a != k as int);
                                        assert(order@[a] as int == t);
                                    } else {
                                        assert(order@[k as int] as int == t);
                                    }
                                }
                            }
                        },
                    }
                }
                k = k + 1;
            }
            if !progressed {
                proof {
                    assert(partial_resolution_of(rs, decls@, order@));
                    lemma_count_zeros_pos(order@, n as int);
                    let k0 = choose|l: int| 0 <= l < n && (#[trigger] order@[l]) == 0;
                    assert forall|d2: Seq<TopDecl>, o2: Seq<usize>| !(#[trigger] resolution_of(
                        rs,
                        d2,
                        o2,
                    ) && defaults_bounded(d2)) by {
                        lemma_stall_refutes(rs, decls@, order@, d2, o2, k0);
                    }
                    assert(!resolvable(rs));
                }
                let mut names: Vec<String> = Vec::new();
                let mut k: usize = 0;
                while k < n
                    invariant
                        0 <= k <= n,
                        n == raw.decls@.len(),
                        order@.len() == n,
                        (exists|l: int| 0 <= l < k && (#[trigger] order@[l]) == 0)
                            ==> names@.len() >= 1,
                    decreases n - k,
                {
                    if order[k] == 0 {
                        names.push(raw.decls[k].name().clone());
                    }
                    k = k + 1;
                }
                proof {
                    lemma_count_zeros_pos(order@, n as int);
                }
                return Err(SchemaError::UnresolvedTypes(names));
            }
        }
        proof {
            lemma_count_zeros_none(order@, n as int);
            assert forall|a: int| 0 <= a < n implies 1 <= #[trigger] order@[a] < decls@.len()
                && raw_matches(rs[a], decls@, order@[a] as int) by {
                assert(order@[a] != 0);
            }
            assert forall|k1: int, k2: int| 0 <= k1 < k2 < n implies order@[k1]
                != order@[k2] by {
                assert(raw_matches(rs[k1], decls@, order@[k1] as int));
                assert(raw_matches(rs[k2], decls@, order@[k2] as int));
                if order@[k1] == order@[k2] {
                    assert(rs[k1].spec_name() == rs[k2].spec_name());
                }
            }
        }
        let ast = Ast { decls, order };
        proof {
            assert(resolution_of(rs, ast.decls@, ast.order@));
        }
        match check_default_sizes(&ast) {
            Err(e) => {
                proof {
                    let i0 = choose|i: int|
                        0 <= i < ast.decls@.len() && (#[trigger] default_of(
                            ast.decls@,
                            i,
                        )).len() > u32::MAX;
                    assert forall|d2: Seq<TopDecl>, o2: Seq<usize>| !(#[trigger] resolution_of(
                        rs,
                        d2,
                        o2,
                    ) && defaults_bounded(d2)) by {
                        if resolution_of(rs, d2, o2) && defaults_bounded(d2) {
                            assert(default_of(ast.decls@, 0).len() == 1);
                            assert(i0 >= 1);
                            assert(hit_by_order(ast.order@, n as int, i0));
                            let kk = choose|a: int|
                                0 <= a < n && ((#[trigger] ast.order@[a]) as int) == i0;
                            assert(raw_matches(rs[kk], ast.decls@, i0));
                            assert(raw_matches(rs[kk], d2, o2[kk] as int));
                            assert(resolves_name(ast.decls@, ast.decls@[i0].spec_name(), i0));
                            assert(resolves_name(d2, ast.decls@[i0].spec_name(), o2[kk] as int));
                            lemma_default_len_agrees(
                                rs,
                                ast.decls@,
                                ast.order@,
                                d2,
                                o2,
                                ast.decls@[i0].spec_name(),
                                i0,
                                o2[kk] as int,
                            );
                            assert(default_of(d2, o2[kk] as int).len() <= u32::MAX);
                        }
                    }
                    assert(!resolvable(rs));
                }
                Err(e)
            },
            Ok(()) => {
                proof {
                    assert(resolvable(rs));
                }
                Ok(ast)
            },
        }
    }
}

proof fn lemma_count_zeros_all(s: Seq<usize>, j: int)
    requires
        0 <= j <= s.len(),
        forall|a: int| 0 <= a < j ==> #[trigger] s[a] == 0,
    ensures
        count_zeros(s, j) == j,
    decreases j,
{
    if j > 0 {
        lemma_count_zeros_all(s, j - 1);
    }
}

/// Verify that every declaration's default content fits in a wire number,
/// computing the lengths bottom-up without materializing any bytes.
fn check_default_sizes(ast: &Ast) -> (r: Result<(), SchemaError>)
    requires
        ast.wf(),
    ensures
        r is Ok ==> defaults_bounded(ast.decls@),
        r is Err ==> exists|i: int|
            0 <= i < ast.decls@.len() && (#[trigger] default_of(ast.decls@, i)).len() > u32::MAX,
        r matches Err(e) ==> !(e is UnresolvedTypes),
{
    let ghost d = ast.decls@;
    let m = ast.decls.len();
    let mut lens: Vec<u64> = Vec::new();
    let mut i: usize = 0;
    while i < m
        invariant
            ast.wf(),
            d == ast.decls@,
            m == d.len(),
            0 <= i <= m,
            lens@.len() == i,
            forall|l: int|
                0 <= l < i ==> #[trigger] lens@[l] as int == default_of(d, l).len() && lens@[l]
                    <= u32::MAX,
        decreases m - i,
    {
        proof {
            assert(decl_wf(d, i as int));
        }
        let len_i: u64 = match &ast.decls[i] {
            TopDecl::Atom { .. } => 1,
            TopDecl::Option_ { .. } => 0,
            TopDecl::Union { items, .. } => {
                let first = items[0];
                let inner_len = lens[first];
                proof {
                    crate::lemma_number_roundtrip(
                        ((8 + default_of(d, first as int).len()) as u32),
                    );
                    crate::lemma_number_roundtrip(0);
                }
                8 + inner_len
            },
            TopDecl::Array { .. } => {
                match fixed_total(&ast.decls, i) {
                    Some(t) => t as u64,
                    None => {
                        proof {
                            assert(false);
                        }
                        0
                    },
                }
            },
            TopDecl::Struct { .. } => {
                match fixed_total(&ast.decls, i) {
                    Some(t) => t as u64,
                    None => {
                        proof {
                            assert(false);
                        }
                        0
                    },
                }
            },
            TopDecl::FixVec { .. } => {
                proof {
                    crate::lemma_number_roundtrip(0);
                }
                4
            },
            TopDecl::DynVec { .. } => {
                proof {
                    crate::lemma_number_roundtrip(8);
                    crate::lemma_number_roundtrip(0);
                }
                8
            },
            TopDecl::Table { name, fields, field_alignments, .. } => {
                let nf = fields.len();
                if nf == 0 {
                    proof {
                        crate::lemma_number_roundtrip(8);
                        crate::lemma_number_roundtrip(0);
                    }
                    8
                } else {
                    let ghost fseq = fields@;
                    let ghost kids = field_defaults(d, i as int, fseq, nf as int);
                    proof {
                        crate::defaults::lemma_field_defaults_len(d, i as int, fseq, nf as int);
                    }
                    let hs: usize = 4 * (2 + nf);
                    let mut cursor: u64 = hs as u64;
                    let mut j: usize = 0;
                    while j < nf
                        invariant
                            ast.wf(),
                            d == ast.decls@,
                            i < d.len(),
                            d[i as int] is Table,
                            d[i as int]->Table_fields == *fields,
                            d[i as int]->Table_field_alignments == *field_alignments,
                            fseq == fields@,
                            nf == fseq.len(),
                            1 <= nf,
                            field_alignments@.len() == nf,
                            kids == field_defaults(d, i as int, fseq, nf as int),
                            kids.len() == nf,
                            forall|l: int|
                                0 <= l < nf ==> #[trigger] kids[l] == default_of(
                                    d,
                                    fseq[l].typ as int,
                                ),
                            lens@.len() == i,
                            forall|l: int|
                                0 <= l < i ==> #[trigger] lens@[l] as int == default_of(
                                    d,
                                    l,
                                ).len() && lens@[l] <= u32::MAX,
                            hs == 4 * (2 + nf as int),
                            hs <= u32::MAX,
                            0 <= j <= nf,
                            cursor == run_end(field_alignments@, kids, hs as int, j as int),
                            cursor <= u32::MAX,
                        decreases nf - j,
                    {
                        proof {
                            assert(decl_wf(d, i as int));
                            assert(0 <= fseq[j as int].typ < i);
                        }
                        let t = fields[j].typ;
                        let clen = lens[t];
                        let pad: u64 = if clen == 0 {
                            0
                        } else {
                            field_alignments[j].calc_padding(cursor as usize) as u64
                        };
                        let next: u64 = cursor + pad + clen;
                        proof {
                            assert(kids[j as int].len() == clen as int);
                            assert(run_end(field_alignments@, kids, hs as int, j + 1) == cursor
                                + crate::builder::pad_len(
                                field_alignments@[j as int],
                                kids[j as int].len() as int,
                                cursor as int,
                            ) + kids[j as int].len());
                        }
                        if next > 0xFFFF_FFFFu64 {
                            proof {
                                crate::defaults::lemma_table_default_len(d, i as int);
                                crate::builder::lemma_run_end_mono(
                                    field_alignments@,
                                    kids,
                                    hs as int,
                                    j + 1,
                                    nf as int,
                                );
                                assert(default_of(d, i as int).len() > u32::MAX);
                            }
                            return Err(SchemaError::SizeOverflow(name.clone()));
                        }
                        cursor = next;
                        j = j + 1;
                    }
                    proof {
                        crate::defaults::lemma_table_default_len(d, i as int);
                    }
                    cursor
                }
            },
        };
        proof {
            assert(len_i as int == default_of(d, i as int).len());
        }
        if len_i > 0xFFFF_FFFFu64 {
            return Err(SchemaError::SizeOverflow(ast.decls[i].name().clone()));
        }
        lens.push(len_i);
        i = i + 1;
    }
    proof {
        assert forall|l: int| 0 <= l < d.len() implies (#[trigger] default_of(d, l)).len()
            <= u32::MAX by {
            assert(lens@[l] as int == default_of(d, l).len());
        }
    }
    Ok(())
}

/// What holds of the arena at every point during resolution: well-formed
/// and atom-seeded, every completed source declaration matched, and every
/// non-atom entry the completion of some source declaration.
pub open spec fn partial_resolution_of(rs: Seq<RawTopDecl>, d: Seq<TopDecl>, o: Seq<usize>) -> bool {
    &&& ast_wf(d)
    &&& o.len() == rs.len()
    &&& d[0].spec_name() == ATOM_NAME@
    &&& forall|k: int|
        0 <= k < rs.len() ==> (#[trigger] o[k]) == 0 || raw_matches(rs[k], d, o[k] as int)
    &&& forall|t: int| 1 <= t < d.len() ==> #[trigger] hit_by_order(o, rs.len() as int, t)
}

/// A completed resolution of `rs`: a well-formed arena seeded with the
/// atom, a completion for every source declaration, and nothing else.
pub open spec fn resolution_of(rs: Seq<RawTopDecl>, d: Seq<TopDecl>, o: Seq<usize>) -> bool {
    &&& partial_resolution_of(rs, d, o)
    &&& d.len() == rs.len() + 1
    &&& forall|k: int| 0 <= k < rs.len() ==> raw_matches(rs[k], d, (#[trigger] o[k]) as int)
}

/// How many type references declaration `rd` makes.
pub open spec fn ref_count(rd: RawTopDecl) -> int {
    match rd {
        RawTopDecl::Option_ { .. } => 1,
        RawTopDecl::Union { items, .. } => items@.len() as int,
        RawTopDecl::Array { .. } => 1,
        RawTopDecl::Struct { fields, .. } => fields@.len() as int,
        RawTopDecl::Vector { .. } => 1,
        RawTopDecl::Table { fields, .. } => fields@.len() as int,
    }
}

/// The `j`-th type name declaration `rd` references.
pub open spec fn ref_name(rd: RawTopDecl, j: int) -> Seq<char> {
    match rd {
        RawTopDecl::Option_ { typ, .. } => typ@,
        RawTopDecl::Union { items, .. } => items@[j]@,
        RawTopDecl::Array { typ, .. } => typ@,
        RawTopDecl::Struct { fields, .. } => fields@[j].typ@,
        RawTopDecl::Vector { typ, .. } => typ@,
        RawTopDecl::Table { fields, .. } => fields@[j].typ@,
    }
}

/// `name` is carried by some arena entry.
pub open spec fn name_in(d: Seq<TopDecl>, name: Seq<char>) -> bool {
    exists|t: int| resolves_name(d, name, t)
}

/// Reference `j` of `rd` is resolvable strictly below arena index `idx`.
pub open spec fn ref_resolvable_below(rd: RawTopDecl, d: Seq<TopDecl>, j: int, idx: int) -> bool {
    exists|c: int| 0 <= c < idx && #[trigger] resolves_name(d, ref_name(rd, j), c)
}

/// Some reference of `rd` is not resolvable against the arena yet.
pub open spec fn has_missing_ref(rd: RawTopDecl, d: Seq<TopDecl>) -> bool {
    exists|j: int| 0 <= j < ref_count(rd) && !name_in(d, #[trigger] ref_name(rd, j))
}

/// The arena entry carrying `name` (meaningful where names resolve; arena
/// names are unique).
pub open spec fn entry_named(d: Seq<TopDecl>, name: Seq<char>) -> int {
    choose|t: int| resolves_name(d, name, t)
}

/// The total size an array of `k` items would have, its item type resolved
/// at arena index `t`.
pub open spec fn completed_array_total(d: Seq<TopDecl>, t: int, k: int) -> int {
    let s = fixed_size_of(d, t).unwrap();
    let ia = if d[t] is Atom {
        Alignment::Byte1
    } else {
        align_of(d, t)
    };
    let p = spec_padding(ia.spec_size(), s as nat) as int;
    (s + p) * k - p
}

/// The running offset a struct completion computes after its first `j`
/// fields, resolving each field's type by name.
pub open spec fn completed_struct_end(d: Seq<TopDecl>, fields: Seq<RawFieldDecl>, j: int) -> int
    decreases j,
{
    if j <= 0 {
        0
    } else {
        let e = completed_struct_end(d, fields, j - 1);
        let t = entry_named(d, fields[j - 1].typ@);
        e + spec_padding(align_of(d, t).spec_size(), e as nat) + fixed_size_of(d, t).unwrap()
    }
}

/// One of the fatal schema conditions holds of `rd` against the resolved
/// references: no arena, however extended, completes it.
pub open spec fn completion_blocked(rd: RawTopDecl, d: Seq<TopDecl>) -> bool {
    match rd {
        RawTopDecl::Union { items, .. } => items@.len() == 0,
        RawTopDecl::Array { typ, length, .. } => {
            ||| length == 0
            ||| (exists|t: int|
                resolves_name(d, typ@, t) && #[trigger] fixed_size_of(d, t) is None)
            ||| (exists|t: int|
                resolves_name(d, typ@, t) && #[trigger] fixed_size_of(d, t) is Some
                    && completed_array_total(d, t, length as int) > u32::MAX)
        },
        RawTopDecl::Struct { fields, .. } => {
            ||| fields@.len() == 0
            ||| (exists|j: int, t: int|
                0 <= j < fields@.len() && resolves_name(d, (#[trigger] fields@[j]).typ@, t) && (
                #[trigger] fixed_size_of(d, t)) is None)
            ||| ((forall|l: int|
                0 <= l < fields@.len() ==> name_in(d, (#[trigger] fields@[l]).typ@)
                    && fixed_size_of(d, entry_named(d, fields@[l].typ@)) is Some) && (exists|j: int|
                0 <= j <= fields@.len() && #[trigger] completed_struct_end(d, fields@, j)
                    > u32::MAX))
        },
        RawTopDecl::Table { fields, .. } => 4 * (2 + fields@.len() as int) > u32::MAX,
        _ => false,
    }
}

/// The two arena entries carry identical layout metadata: same name, same
/// shape, and the same sizes, paddings, counts and alignments.
pub open spec fn meta_agrees(d1: Seq<TopDecl>, t1: int, d2: Seq<TopDecl>, t2: int) -> bool {
    &&& d1[t1].spec_name() == d2[t2].spec_name()
    &&& d1[t1].spec_alignment() == d2[t2].spec_alignment()
    &&& fixed_size_of(d1, t1) == fixed_size_of(d2, t2)
    &&& match (d1[t1], d2[t2]) {
        (TopDecl::Atom { .. }, TopDecl::Atom { .. }) => true,
        (TopDecl::Option_ { .. }, TopDecl::Option_ { .. }) => true,
        (TopDecl::Union { items: i1, .. }, TopDecl::Union { items: i2, .. }) => i1@.len()
            == i2@.len(),
        (
            TopDecl::Array { item_size: s1, item_padding: p1, item_count: k1, item_alignment: a1, .. },
            TopDecl::Array { item_size: s2, item_padding: p2, item_count: k2, item_alignment: a2, .. },
        ) => s1 == s2 && p1 == p2 && k1 == k2 && a1 == a2,
        (
            TopDecl::Struct { field_sizes: s1, field_paddings: p1, field_alignments: a1, .. },
            TopDecl::Struct { field_sizes: s2, field_paddings: p2, field_alignments: a2, .. },
        ) => s1@ == s2@ && p1@ == p2@ && a1@ == a2@,
        (
            TopDecl::FixVec { item_size: s1, item_padding: p1, header_padding: h1, item_alignment: a1, .. },
            TopDecl::FixVec { item_size: s2, item_padding: p2, header_padding: h2, item_alignment: a2, .. },
        ) => s1 == s2 && p1 == p2 && h1 == h2 && a1 == a2,
        (
            TopDecl::DynVec { item_alignment: a1, .. },
            TopDecl::DynVec { item_alignment: a2, .. },
        ) => a1 == a2,
        (
            TopDecl::Table { fields: f1, field_alignments: a1, .. },
            TopDecl::Table { fields: f2, field_alignments: a2, .. },
        ) => f1@.len() == f2@.len() && a1@ == a2@,
        _ => false,
    }
}

/// Paddings pinned to the same sizes and alignments by the same recurrence
/// are equal, and so are the offsets they induce.
proof fn lemma_struct_layout_determined(
    sz: Seq<usize>,
    al: Seq<Alignment>,
    pd1: Seq<usize>,
    pd2: Seq<usize>,
    j: int,
)
    requires
        sz.len() == al.len(),
        pd1.len() == sz.len(),
        pd2.len() == sz.len(),
        0 <= j <= sz.len(),
        forall|l: int|
            0 <= l < sz.len() ==> #[trigger] pd1[l] == spec_padding(
                al[l].spec_size(),
                struct_offset(sz, pd1, l) as nat,
            ),
        forall|l: int|
            0 <= l < sz.len() ==> #[trigger] pd2[l] == spec_padding(
                al[l].spec_size(),
                struct_offset(sz, pd2, l) as nat,
            ),
    ensures
        forall|l: int| 0 <= l < j ==> #[trigger] pd1[l] == pd2[l],
        struct_offset(sz, pd1, j) == struct_offset(sz, pd2, j),
    decreases j,
{
    if j > 0 {
        lemma_struct_layout_determined(sz, al, pd1, pd2, j - 1);
        assert(pd1[j - 1] == spec_padding(
            al[j - 1].spec_size(),
            struct_offset(sz, pd1, j - 1) as nat,
        ));
        assert(pd2[j - 1] == spec_padding(
            al[j - 1].spec_size(),
            struct_offset(sz, pd2, j - 1) as nat,
        ));
        assert(pd1[j - 1] == pd2[j - 1]);
        assert(struct_offset(sz, pd1, j) == struct_offset(sz, pd1, j - 1) + pd1[j - 1] + sz[j
            - 1]);
        assert(struct_offset(sz, pd2, j) == struct_offset(sz, pd2, j - 1) + pd2[j - 1] + sz[j
            - 1]);
    }
}

/// Resolution is deterministic: whatever order two resolutions of the same
/// raw declarations completed their work in, any two entries carrying the
/// same name carry identical layout metadata.
#[verifier::rlimit(100)]
pub proof fn lemma_resolution_deterministic(
    rs: Seq<RawTopDecl>,
    d1: Seq<TopDecl>,
    o1: Seq<usize>,
    d2: Seq<TopDecl>,
    o2: Seq<usize>,
    name: Seq<char>,
    t1: int,
    t2: int,
)
    requires
        partial_resolution_of(rs, d1, o1),
        resolution_of(rs, d2, o2),
        resolves_name(d1, name, t1),
        resolves_name(d2, name, t2),
    ensures
        meta_agrees(d1, t1, d2, t2),
    decreases t1,
{
    assert(decl_wf(d1, t1));
    assert(decl_wf(d2, t2));
    if t1 == 0 {
        assert(name == ATOM_NAME@);
        if t2 != 0 {
            assert(d2[t2].spec_name() == d2[0].spec_name());
            assert(false);
        }
    } else {
        assert(hit_by_order(o1, rs.len() as int, t1));
        let k = choose|a: int| 0 <= a < rs.len() && (#[trigger] o1[a]) as int == t1;
        assert(raw_matches(rs[k], d1, t1));
        assert(raw_matches(rs[k], d2, o2[k] as int));
        assert(d2[o2[k] as int].spec_name() == name);
        if o2[k] as int != t2 {
            assert(d2[t2].spec_name() == d2[o2[k] as int].spec_name());
            assert(false);
        }
        assert(raw_matches(rs[k], d2, t2));
        match rs[k] {
            RawTopDecl::Option_ { typ, .. } => {
                let c1 = d1[t1]->Option__typ as int;
                let c2 = d2[t2]->Option__typ as int;
                lemma_resolution_deterministic(rs, d1, o1, d2, o2, typ@, c1, c2);
            },
            RawTopDecl::Union { .. } => {},
            RawTopDecl::Array { typ, .. } => {
                let c1 = d1[t1]->Array_typ as int;
                let c2 = d2[t2]->Array_typ as int;
                lemma_resolution_deterministic(rs, d1, o1, d2, o2, typ@, c1, c2);
            },
            RawTopDecl::Struct { fields, .. } => {
                let f1 = d1[t1]->Struct_fields@;
                let f2 = d2[t2]->Struct_fields@;
                let n = fields@.len() as int;
                assert forall|l: int| 0 <= l < n implies meta_agrees(
                    d1,
                    (#[trigger] f1[l]).typ as int,
                    d2,
                    f2[l].typ as int,
                ) by {
                    lemma_resolution_deterministic(
                        rs,
                        d1,
                        o1,
                        d2,
                        o2,
                        fields@[l].typ@,
                        f1[l].typ as int,
                        f2[l].typ as int,
                    );
                }
                let sz1 = d1[t1]->Struct_field_sizes@;
                let sz2 = d2[t2]->Struct_field_sizes@;
                let al1 = d1[t1]->Struct_field_alignments@;
                let al2 = d2[t2]->Struct_field_alignments@;
                assert forall|l: int| 0 <= l < n implies sz1[l] == sz2[l] && al1[l] == al2[l] by {
                    assert(meta_agrees(d1, (#[trigger] f1[l]).typ as int, d2, f2[l].typ as int));
                    assert(fixed_size_of(d1, f1[l].typ as int) == Some(sz1[l] as int));
                    assert(fixed_size_of(d2, f2[l].typ as int) == Some(sz2[l] as int));
                    assert(al1[l] == align_of(d1, f1[l].typ as int));
                    assert(al2[l] == align_of(d2, f2[l].typ as int));
                }
                assert(sz1 =~= sz2);
                assert(al1 =~= al2);
                lemma_struct_layout_determined(
                    sz1,
                    al1,
                    d1[t1]->Struct_field_paddings@,
                    d2[t2]->Struct_field_paddings@,
                    n,
                );
                assert(d1[t1]->Struct_field_paddings@ =~= d2[t2]->Struct_field_paddings@);
            },
            RawTopDecl::Vector { typ, .. } => {
                let c1 = if d1[t1] is FixVec {
                    d1[t1]->FixVec_typ as int
                } else {
                    d1[t1]->DynVec_typ as int
                };
                let c2 = if d2[t2] is FixVec {
                    d2[t2]->FixVec_typ as int
                } else {
                    d2[t2]->DynVec_typ as int
                };
                lemma_resolution_deterministic(rs, d1, o1, d2, o2, typ@, c1, c2);
            },
            RawTopDecl::Table { fields, .. } => {
                let f1 = d1[t1]->Table_fields@;
                let f2 = d2[t2]->Table_fields@;
                let n = fields@.len() as int;
                assert forall|l: int| 0 <= l < n implies meta_agrees(
                    d1,
                    (#[trigger] f1[l]).typ as int,
                    d2,
                    f2[l].typ as int,
                ) by {
                    lemma_resolution_deterministic(
                        rs,
                        d1,
                        o1,
                        d2,
                        o2,
                        fields@[l].typ@,
                        f1[l].typ as int,
                        f2[l].typ as int,
                    );
                }
                let a1 = d1[t1]->Table_field_alignments@;
                let a2 = d2[t2]->Table_field_alignments@;
                assert forall|l: int| 0 <= l < n implies a1[l] == a2[l] by {
                    assert(meta_agrees(d1, (#[trigger] f1[l]).typ as int, d2, f2[l].typ as int));
                    assert(a1[l] == align_of(d1, f1[l].typ as int));
                    assert(a2[l] == align_of(d2, f2[l].typ as int));
                }
                assert(a1 =~= a2);
            },
        }
    }
}

/// With unique arena names, `entry_named` returns the one resolving index.
proof fn lemma_entry_named_is(d: Seq<TopDecl>, name: Seq<char>, t: int)
    requires
        ast_wf(d),
        resolves_name(d, name, t),
    ensures
        entry_named(d, name) == t,
{
    let t2 = choose|t2: int| resolves_name(d, name, t2);
    assert(resolves_name(d, name, t2));
    if t2 != t {
        assert(d[t].spec_name() != d[t2].spec_name());
    }
}

/// A completed declaration resolves every one of its references below its
/// own arena index.
proof fn lemma_matches_refs(rd: RawTopDecl, d: Seq<TopDecl>, idx: int)
    requires
        ast_wf(d),
        raw_matches(rd, d, idx),
    ensures
        forall|j: int| 0 <= j < ref_count(rd) ==> #[trigger] ref_resolvable_below(rd, d, j, idx),
{
    assert(decl_wf(d, idx));
    assert forall|j: int| 0 <= j < ref_count(rd) implies #[trigger] ref_resolvable_below(
        rd,
        d,
        j,
        idx,
    ) by {
        match rd {
            RawTopDecl::Option_ { .. } => {
                let c = d[idx]->Option__typ as int;
                assert(0 <= c < idx && resolves_name(d, ref_name(rd, j), c));
            },
            RawTopDecl::Union { .. } => {
                let c = d[idx]->Union_items@[j] as int;
                assert(0 <= c < idx && resolves_name(d, ref_name(rd, j), c));
            },
            RawTopDecl::Array { .. } => {
                let c = d[idx]->Array_typ as int;
                assert(0 <= c < idx && resolves_name(d, ref_name(rd, j), c));
            },
            RawTopDecl::Struct { .. } => {
                let c = d[idx]->Struct_fields@[j].typ as int;
                assert(0 <= c < idx && resolves_name(d, ref_name(rd, j), c));
            },
            RawTopDecl::Vector { .. } => {
                if d[idx] is FixVec {
                    let c = d[idx]->FixVec_typ as int;
                    assert(0 <= c < idx && resolves_name(d, ref_name(rd, j), c));
                } else {
                    let c = d[idx]->DynVec_typ as int;
                    assert(0 <= c < idx && resolves_name(d, ref_name(rd, j), c));
                }
            },
            RawTopDecl::Table { .. } => {
                let c = d[idx]->Table_fields@[j].typ as int;
                assert(0 <= c < idx && resolves_name(d, ref_name(rd, j), c));
            },
        }
    }
}

/// The struct-completion offset recurrence equals the running offsets the
/// completion loop collects.
proof fn lemma_completed_end_matches(
    d: Seq<TopDecl>,
    fields: Seq<RawFieldDecl>,
    inner: Seq<FieldDecl>,
    sz: Seq<usize>,
    al: Seq<Alignment>,
    pd: Seq<usize>,
    j: int,
)
    requires
        ast_wf(d),
        0 <= j <= pd.len(),
        j <= fields.len(),
        j <= inner.len(),
        j <= sz.len(),
        j <= al.len(),
        forall|l: int|
            0 <= l < j ==> resolves_name(d, fields[l].typ@, (#[trigger] inner[l]).typ as int)
                && fixed_size_of(d, inner[l].typ as int) == Some(sz[l] as int) && al[l] == align_of(
                d,
                inner[l].typ as int,
            ),
        forall|l: int|
            0 <= l < j ==> (#[trigger] pd[l]) == spec_padding(
                al[l].spec_size(),
                struct_offset(sz, pd, l) as nat,
            ),
    ensures
        completed_struct_end(d, fields, j) == struct_offset(sz, pd, j),
    decreases j,
{
    if j > 0 {
        lemma_completed_end_matches(d, fields, inner, sz, al, pd, j - 1);
        lemma_entry_named_is(d, fields[j - 1].typ@, inner[j - 1].typ as int);
        lemma_struct_offset_mono(sz, pd, 0, j - 1);
    }
}

/// If every still-unresolved declaration has a missing reference, then in
/// any complete resolution the unresolved ones can only sit above `bound`
/// — for every bound, which is absurd.
proof fn lemma_no_stall(
    rs: Seq<RawTopDecl>,
    d1: Seq<TopDecl>,
    o1: Seq<usize>,
    d2: Seq<TopDecl>,
    o2: Seq<usize>,
    bound: int,
)
    requires
        partial_resolution_of(rs, d1, o1),
        resolution_of(rs, d2, o2),
        forall|k: int|
            0 <= k < rs.len() && (#[trigger] o1[k]) == 0 ==> has_missing_ref(rs[k], d1),
        0 <= bound,
    ensures
        forall|k: int| 0 <= k < rs.len() && (#[trigger] o1[k]) == 0 ==> o2[k] as int >= bound,
    decreases bound,
{
    if bound > 0 {
        lemma_no_stall(rs, d1, o1, d2, o2, bound - 1);
        assert forall|k: int| 0 <= k < rs.len() && (#[trigger] o1[k]) == 0 implies o2[k] as int
            >= bound by {
            if (o2[k] as int) == bound - 1 {
                assert(raw_matches(rs[k], d2, o2[k] as int));
                assert(has_missing_ref(rs[k], d1));
                let j = choose|j: int|
                    0 <= j < ref_count(rs[k]) && !name_in(d1, #[trigger] ref_name(rs[k], j));
                lemma_matches_refs(rs[k], d2, o2[k] as int);
                assert(ref_resolvable_below(rs[k], d2, j, o2[k] as int));
                let c = choose|c: int|
                    0 <= c < o2[k] as int && #[trigger] resolves_name(d2, ref_name(rs[k], j), c);
                assert(resolves_name(d2, ref_name(rs[k], j), c));
                if c == 0 {
                    assert(resolves_name(d1, ref_name(rs[k], j), 0));
                } else {
                    assert(hit_by_order(o2, rs.len() as int, c));
                    let k2 = choose|a: int| 0 <= a < rs.len() && ((#[trigger] o2[a]) as int) == c;
                    assert(o2[k2] as int == c);
                    assert(o1[k2] != 0);
                    assert(raw_matches(rs[k2], d1, o1[k2] as int));
                    assert(raw_matches(rs[k2], d2, o2[k2] as int));
                    assert(d2[c].spec_name() == rs[k2].spec_name());
                    assert(resolves_name(d1, ref_name(rs[k], j), o1[k2] as int));
                }
                assert(name_in(d1, ref_name(rs[k], j)));
                assert(false);
            }
        }
    }
}

/// A stalled pass refutes any claimed complete resolution.
proof fn lemma_stall_refutes(
    rs: Seq<RawTopDecl>,
    d1: Seq<TopDecl>,
    o1: Seq<usize>,
    d2: Seq<TopDecl>,
    o2: Seq<usize>,
    k: int,
)
    requires
        partial_resolution_of(rs, d1, o1),
        forall|a: int|
            0 <= a < rs.len() && (#[trigger] o1[a]) == 0 ==> has_missing_ref(rs[a], d1),
        0 <= k < rs.len(),
        o1[k] == 0,
    ensures
        !resolution_of(rs, d2, o2),
{
    if resolution_of(rs, d2, o2) {
        lemma_no_stall(rs, d1, o1, d2, o2, d2.len() as int);
        assert(raw_matches(rs[k], d2, o2[k] as int));
    }
}

/// The struct-completion offset recurrence computed against one arena
/// equals the offsets another resolution stored, field by field.
proof fn lemma_completed_end_agrees(
    rs: Seq<RawTopDecl>,
    d1: Seq<TopDecl>,
    o1: Seq<usize>,
    d2: Seq<TopDecl>,
    o2: Seq<usize>,
    fields: Seq<RawFieldDecl>,
    idx2: int,
    j: int,
)
    requires
        partial_resolution_of(rs, d1, o1),
        resolution_of(rs, d2, o2),
        0 <= idx2 < d2.len(),
        d2[idx2] is Struct,
        d2[idx2]->Struct_fields@.len() == fields.len(),
        forall|l: int|
            0 <= l < fields.len() ==> d2[(#[trigger] d2[idx2]->Struct_fields@[l]).typ as int].spec_name()
                == fields[l].typ@,
        forall|l: int| 0 <= l < fields.len() ==> name_in(d1, (#[trigger] fields[l]).typ@),
        0 <= j <= fields.len(),
    ensures
        completed_struct_end(d1, fields, j) == struct_offset(
            d2[idx2]->Struct_field_sizes@,
            d2[idx2]->Struct_field_paddings@,
            j,
        ),
    decreases j,
{
    assert(decl_wf(d2, idx2));
    if j > 0 {
        lemma_completed_end_agrees(rs, d1, o1, d2, o2, fields, idx2, j - 1);
        let t1 = entry_named(d1, fields[j - 1].typ@);
        let c2 = d2[idx2]->Struct_fields@[j - 1].typ as int;
        assert(name_in(d1, fields[j - 1].typ@));
        let tw = choose|t: int| #[trigger] resolves_name(d1, fields[j - 1].typ@, t);
        lemma_entry_named_is(d1, fields[j - 1].typ@, tw);
        assert(resolves_name(d1, fields[j - 1].typ@, t1));
        lemma_resolution_deterministic(rs, d1, o1, d2, o2, fields[j - 1].typ@, t1, c2);
        assert(fixed_size_of(d1, t1) == fixed_size_of(d2, c2));
        assert(align_of(d1, t1) == align_of(d2, c2));
        assert(d2[idx2]->Struct_field_sizes@[j - 1] as int == fixed_size_of(d2, c2).unwrap());
        lemma_struct_offset_mono(
            d2[idx2]->Struct_field_sizes@,
            d2[idx2]->Struct_field_paddings@,
            0,
            j - 1,
        );
    }
}

/// A blocked completion refutes any claimed complete resolution: the same
/// fatal condition would violate the resolved arena's invariant.
proof fn lemma_blocked_refutes(
    rs: Seq<RawTopDecl>,
    d1: Seq<TopDecl>,
    o1: Seq<usize>,
    d2: Seq<TopDecl>,
    o2: Seq<usize>,
    k: int,
)
    requires
        partial_resolution_of(rs, d1, o1),
        0 <= k < rs.len(),
        completion_blocked(rs[k], d1),
    ensures
        !resolution_of(rs, d2, o2),
{
    if !resolution_of(rs, d2, o2) {
        return ;
    }
    let idx2 = o2[k] as int;
    assert(raw_matches(rs[k], d2, idx2));
    assert(decl_wf(d2, idx2));
    match rs[k] {
        RawTopDecl::Union { .. } => {},
        RawTopDecl::Array { typ, length, .. } => {
            if length != 0 {
                let c2 = d2[idx2]->Array_typ as int;
                let t = choose|t: int|
                    resolves_name(d1, typ@, t) && (#[trigger] fixed_size_of(d1, t)) is None
                        || resolves_name(d1, typ@, t) && (#[trigger] fixed_size_of(d1, t)) is Some
                        && completed_array_total(d1, t, length as int) > u32::MAX;
                lemma_resolution_deterministic(rs, d1, o1, d2, o2, typ@, t, c2);
                assert(fixed_size_of(d1, t) == fixed_size_of(d2, c2));
                assert(fixed_size_of(d2, c2) is Some);
                let s = fixed_size_of(d2, c2).unwrap();
                assert(d2[idx2]->Array_item_size as int == s);
                assert((d1[t] is Atom) == (d2[c2] is Atom));
                assert(d2[idx2]->Array_item_padding as int == spec_padding(
                    (if d2[c2] is Atom {
                        Alignment::Byte1
                    } else {
                        align_of(d2, c2)
                    }).spec_size(),
                    s as nat,
                ) as int);
                assert(completed_array_total(d1, t, length as int) == (
                d2[idx2]->Array_item_size + d2[idx2]->Array_item_padding)
                    * d2[idx2]->Array_item_count - d2[idx2]->Array_item_padding);
            }
        },
        RawTopDecl::Struct { fields, .. } => {
            let n = fields@.len() as int;
            if n != 0 {
                if exists|j: int, t: int|
                    0 <= j < fields@.len() && resolves_name(d1, (#[trigger] fields@[j]).typ@, t)
                        && (#[trigger] fixed_size_of(d1, t)) is None {
                    let (j, t) = choose|j: int, t: int|
                        0 <= j < fields@.len() && resolves_name(
                            d1,
                            (#[trigger] fields@[j]).typ@,
                            t,
                        ) && (#[trigger] fixed_size_of(d1, t)) is None;
                    let c2 = d2[idx2]->Struct_fields@[j].typ as int;
                    lemma_resolution_deterministic(rs, d1, o1, d2, o2, fields@[j].typ@, t, c2);
                    assert(fixed_size_of(d2, c2) is Some);
                } else {
                    let j = choose|j: int|
                        0 <= j <= fields@.len() && #[trigger] completed_struct_end(d1, fields@, j)
                            > u32::MAX;
                    lemma_completed_end_agrees(rs, d1, o1, d2, o2, fields@, idx2, j);
                    lemma_struct_offset_mono(
                        d2[idx2]->Struct_field_sizes@,
                        d2[idx2]->Struct_field_paddings@,
                        j,
                        n,
                    );
                }
            }
        },
        RawTopDecl::Table { fields, .. } => {},
        _ => {},
    }
}

/// The run cursor depends only on the children's lengths.
proof fn lemma_run_end_len_only(
    aligns: Seq<Alignment>,
    kids1: Seq<Seq<u8>>,
    kids2: Seq<Seq<u8>>,
    hs: int,
    j: int,
)
    requires
        0 <= j <= kids1.len(),
        j <= kids2.len(),
        forall|l: int| 0 <= l < j ==> (#[trigger] kids1[l]).len() == kids2[l].len(),
    ensures
        run_end(aligns, kids1, hs, j) == run_end(aligns, kids2, hs, j),
    decreases j,
{
    if j > 0 {
        lemma_run_end_len_only(aligns, kids1, kids2, hs, j - 1);
    }
}

/// Default contents have the same length under any two resolutions: the
/// length is a function of the (deterministic) layout metadata alone.
proof fn lemma_default_len_agrees(
    rs: Seq<RawTopDecl>,
    d1: Seq<TopDecl>,
    o1: Seq<usize>,
    d2: Seq<TopDecl>,
    o2: Seq<usize>,
    name: Seq<char>,
    t1: int,
    t2: int,
)
    requires
        resolution_of(rs, d1, o1),
        resolution_of(rs, d2, o2),
        resolves_name(d1, name, t1),
        resolves_name(d2, name, t2),
    ensures
        default_of(d1, t1).len() == default_of(d2, t2).len(),
    decreases t1,
{
    lemma_resolution_deterministic(rs, d1, o1, d2, o2, name, t1, t2);
    assert(decl_wf(d1, t1));
    assert(decl_wf(d2, t2));
    if t1 == 0 {
    } else {
        assert(hit_by_order(o1, rs.len() as int, t1));
        let k = choose|a: int| 0 <= a < rs.len() && ((#[trigger] o1[a]) as int) == t1;
        assert(raw_matches(rs[k], d1, t1));
        if t2 != o2[k] as int {
            assert(d2[t2].spec_name() == d2[o2[k] as int].spec_name());
        }
        assert(raw_matches(rs[k], d2, t2));
        match d1[t1] {
            TopDecl::Union { .. } => {
                let i1 = d1[t1]->Union_items@[0] as int;
                let i2 = d2[t2]->Union_items@[0] as int;
                match rs[k] {
                    RawTopDecl::Union { items, .. } => {
                        assert(d1[i1].spec_name() == items@[0]@);
                        assert(d2[i2].spec_name() == items@[0]@);
                        lemma_default_len_agrees(rs, d1, o1, d2, o2, items@[0]@, i1, i2);
                    },
                    _ => {},
                }
                crate::lemma_number_roundtrip(((8 + default_of(d1, i1).len()) as u32));
                crate::lemma_number_roundtrip(((8 + default_of(d2, i2).len()) as u32));
                crate::lemma_number_roundtrip(0);
            },
            TopDecl::FixVec { .. } => {
                crate::lemma_number_roundtrip(0);
            },
            TopDecl::DynVec { .. } => {
                crate::lemma_number_roundtrip(8);
                crate::lemma_number_roundtrip(0);
            },
            TopDecl::Table { .. } => {
                let n = d1[t1]->Table_fields@.len() as int;
                if n == 0 {
                    crate::lemma_number_roundtrip(8);
                    crate::lemma_number_roundtrip(0);
                } else {
                    let f1 = d1[t1]->Table_fields@;
                    let f2 = d2[t2]->Table_fields@;
                    let kids1 = field_defaults(d1, t1, f1, n);
                    let kids2 = field_defaults(d2, t2, f2, n);
                    crate::defaults::lemma_field_defaults_len(d1, t1, f1, n);
                    crate::defaults::lemma_field_defaults_len(d2, t2, f2, n);
                    assert forall|l: int| 0 <= l < n implies (#[trigger] kids1[l]).len()
                        == kids2[l].len() by {
                        match rs[k] {
                            RawTopDecl::Table { fields, .. } => {
                                assert(d1[f1[l].typ as int].spec_name() == fields@[l].typ@);
                                assert(d2[f2[l].typ as int].spec_name() == fields@[l].typ@);
                                lemma_default_len_agrees(
                                    rs,
                                    d1,
                                    o1,
                                    d2,
                                    o2,
                                    fields@[l].typ@,
                                    f1[l].typ as int,
                                    f2[l].typ as int,
                                );
                            },
                            _ => {
                                assert(false);
                            },
                        }
                    }
                    crate::defaults::lemma_table_default_len(d1, t1);
                    crate::defaults::lemma_table_default_len(d2, t2);
                    lemma_run_end_len_only(
                        d1[t1]->Table_field_alignments@,
                        kids1,
                        kids2,
                        4 * (2 + n),
                        n,
                    );
                }
            },
            _ => {},
        }
    }
}

} // verus!
