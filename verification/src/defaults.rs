//! The canonical all-default serialization of each resolved type.

use crate::ast::{ast_wf, decl_wf, Ast, FieldDecl, TopDecl};
use crate::builder::{
    build_table, build_table_spec, build_union, build_union_spec, header_spec,
    lemma_run_body_len, lemma_run_offsets_len, run_end, views_of,
};
use crate::wire::wire_wf;
use crate::{spec_number_bytes, zeros};
use vstd::prelude::*;

verus! {

/// The canonical default bytes of arena entry `i`: a zero atom, an absent
/// option, a union selecting its first item, an all-zero block for the
/// fixed-size shapes, an empty vector, or a table of default fields.
pub open spec fn default_of(d: Seq<TopDecl>, i: int) -> Seq<u8>
    decreases i, 1int, 0int,
        when wire_wf(d, i)
        via default_of_decreases
{
    match d[i] {
        TopDecl::Atom { .. } => zeros(1),
        TopDecl::Option_ { .. } => Seq::empty(),
        TopDecl::Union { items, .. } => build_union_spec(0, default_of(d, items@[0] as int)),
        TopDecl::Array { .. } => zeros(crate::ast::fixed_size_of(d, i).unwrap() as nat),
        TopDecl::Struct { .. } => zeros(crate::ast::fixed_size_of(d, i).unwrap() as nat),
        TopDecl::FixVec { .. } => spec_number_bytes(0),
        TopDecl::DynVec { .. } => header_spec(8, 0),
        TopDecl::Table { fields, field_alignments, .. } => {
            if fields@.len() == 0 {
                header_spec(8, 0)
            } else {
                build_table_spec(
                    field_alignments@,
                    field_defaults(d, i, fields@, fields@.len() as int),
                )
            }
        },
    }
}

#[via_fn]
proof fn default_of_decreases(d: Seq<TopDecl>, i: int) {
    assert(decl_wf(d, i));
}

/// The default bytes of the first `j` fields of a composite at arena index
/// `i`.
pub open spec fn field_defaults(d: Seq<TopDecl>, i: int, fields: Seq<FieldDecl>, j: int) -> Seq<
    Seq<u8>,
>
    decreases i, 0int, j,
        when ast_wf(d) && 0 <= i < d.len() && j <= fields.len() && (forall|l: int|
            0 <= l < fields.len() ==> 0 <= #[trigger] fields[l].typ < i)
{
    if j <= 0 {
        Seq::empty()
    } else {
        field_defaults(d, i, fields, j - 1).push(default_of(d, fields[j - 1].typ as int))
    }
}

/// Every declaration's default content fits in a wire number.  Resolution
/// rejects schemas where this fails.
pub open spec fn defaults_bounded(d: Seq<TopDecl>) -> bool {
    forall|i: int| 0 <= i < d.len() ==> (#[trigger] default_of(d, i)).len() <= u32::MAX
}

/// A table default occupies exactly the run cursor's final position.
pub proof fn lemma_table_default_len(d: Seq<TopDecl>, i: int)
    requires
        wire_wf(d, i),
        d[i] is Table,
        d[i]->Table_fields@.len() >= 1,
    ensures
        default_of(d, i).len() == run_end(
            d[i]->Table_field_alignments@,
            field_defaults(d, i, d[i]->Table_fields@, d[i]->Table_fields@.len() as int),
            4 * (2 + d[i]->Table_fields@.len() as int),
            d[i]->Table_fields@.len() as int,
        ),
{
    let fields = d[i]->Table_fields@;
    let aligns = d[i]->Table_field_alignments@;
    let n = fields.len() as int;
    let hs = 4 * (2 + n);
    let kids = field_defaults(d, i, fields, n);
    assert(decl_wf(d, i));
    lemma_field_defaults_len(d, i, fields, n);
    lemma_run_offsets_len(aligns, kids, hs, n);
    lemma_run_body_len(aligns, kids, hs, n);
    crate::lemma_number_roundtrip(run_end(aligns, kids, hs, n) as u32);
    crate::lemma_number_roundtrip(n as u32);
}

/// There is one default per field.
pub proof fn lemma_field_defaults_len(d: Seq<TopDecl>, i: int, fields: Seq<FieldDecl>, j: int)
    requires
        ast_wf(d),
        0 <= i < d.len(),
        0 <= j <= fields.len(),
        forall|l: int| 0 <= l < fields.len() ==> 0 <= #[trigger] fields[l].typ < i,
    ensures
        field_defaults(d, i, fields, j).len() == j,
        forall|l: int|
            0 <= l < j ==> #[trigger] field_defaults(d, i, fields, j)[l] == default_of(
                d,
                fields[l].typ as int,
            ),
    decreases j,
{
    if j > 0 {
        lemma_field_defaults_len(d, i, fields, j - 1);
    }
}

/// Produce the canonical default serialization of arena entry `i`.
pub fn default_content(ast: &Ast, i: usize) -> (r: Vec<u8>)
    requires
        ast.wf(),
        defaults_bounded(ast.decls@),
        i < ast.decls@.len(),
    ensures
        r@ == default_of(ast.decls@, i as int),
    decreases i,
{
    let ghost d = ast.decls@;
    proof {
        assert(decl_wf(d, i as int));
        assert(default_of(d, i as int).len() <= u32::MAX);
    }
    match &ast.decls[i] {
        TopDecl::Atom { .. } => {
            let mut v: Vec<u8> = Vec::new();
            v.push(0u8);
            proof {
                assert(v@ =~= zeros(1));
            }
            v
        },
        TopDecl::Option_ { .. } => Vec::new(),
        TopDecl::Union { items, .. } => {
            let first = items[0];
            let inner = default_content(ast, first);
            proof {
                crate::lemma_number_roundtrip(((8 + inner@.len()) as u32));
                crate::lemma_number_roundtrip(0);
                assert(default_of(d, i as int) == build_union_spec(0, inner@));
                assert(build_union_spec(0, inner@).len() == 8 + inner@.len());
            }
            build_union(ast, i, 0, inner.as_slice())
        },
        TopDecl::Array { .. } => {
            let total = match ast.total_size(i) {
                Some(t) => t,
                None => {
                    proof {
                        assert(false);
                    }
                    0
                },
            };
            let mut v = crate::create_content(total);
            crate::write_padding(&mut v, total);
            proof {
                assert(v@ =~= zeros(total as nat));
            }
            v
        },
        TopDecl::Struct { .. } => {
            let total = match ast.total_size(i) {
                Some(t) => t,
                None => {
                    proof {
                        assert(false);
                    }
                    0
                },
            };
            let mut v = crate::create_content(total);
            crate::write_padding(&mut v, total);
            proof {
                assert(v@ =~= zeros(total as nat));
            }
            v
        },
        TopDecl::FixVec { .. } => crate::pack_number(0),
        TopDecl::DynVec { .. } => {
            let v = crate::pack_number(8);
            let c = crate::pack_number(0);
            let mut out = crate::create_content(8);
            append_helper(&mut out, &v);
            append_helper(&mut out, &c);
            proof {
                assert(out@ =~= header_spec(8, 0));
            }
            out
        },
        TopDecl::Table { fields, .. } => {
            let n = fields.len();
            if n == 0 {
                let v = crate::pack_number(8);
                let c = crate::pack_number(0);
                let mut out = crate::create_content(8);
                append_helper(&mut out, &v);
                append_helper(&mut out, &c);
                proof {
                    assert(out@ =~= header_spec(8, 0));
                }
                return out;
            }
            let ghost fseq = fields@;
            let mut kids: Vec<Vec<u8>> = Vec::new();
            let mut j: usize = 0;
            while j < n
                invariant
                    ast.wf(),
                    defaults_bounded(d),
                    d == ast.decls@,
                    i < d.len(),
                    d[i as int] is Table,
                    d[i as int]->Table_fields == *fields,
                    fseq == fields@,
                    n == fseq.len(),
                    forall|l: int| 0 <= l < n ==> 0 <= #[trigger] fseq[l].typ < i,
                    0 <= j <= n,
                    kids@.len() == j,
                    views_of(kids@) == field_defaults(d, i as int, fseq, j as int),
                decreases n - j,
            {
                proof {
                    assert(decl_wf(d, i as int));
                }
                let t = fields[j].typ;
                let kid = default_content(ast, t);
                kids.push(kid);
                proof {
                    assert(views_of(kids@) =~= field_defaults(d, i as int, fseq, j + 1));
                }
                j = j + 1;
            }
            proof {
                lemma_table_default_len(d, i as int);
            }
            build_table(ast, i, &kids)
        },
    }
}

/// Append all of `src` to `dst`.
fn append_helper(dst: &mut Vec<u8>, src: &Vec<u8>)
    requires
        old(dst)@.len() + src@.len() <= usize::MAX,
    ensures
        final(dst)@ == old(dst)@ + src@,
{
    let n = src.len();
    let mut k: usize = 0;
    while k < n
        invariant
            0 <= k <= n,
            n == src@.len(),
            dst@ == old(dst)@ + src@.take(k as int),
            old(dst)@.len() + n <= usize::MAX,
        decreases n - k,
    {
        dst.push(src[k]);
        proof {
            assert(dst@ =~= old(dst)@ + src@.take(k + 1));
        }
        k = k + 1;
    }
    proof {
        assert(src@.take(n as int) =~= src@);
    }
}

} // verus!
