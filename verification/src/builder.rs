//! The builder: renders composed values to the canonical byte layout.
//!
//! A composed value hands its children over as already-serialized byte
//! strings; the builder emits headers, offset tables and padding around
//! them.  Each `build_*` function's output equals its `build_*_spec`
//! counterpart; the `lemma_build_*` functions state that well-formed
//! children yield a slice the verifier accepts.

use crate::ast::{decl_wf, struct_offset, Ast, FieldDecl, TopDecl};
use crate::{all_zero, spec_number_bytes, spec_padding, spec_read_number, zeros, Alignment};
use vstd::prelude::*;

verus! {

/// Padding inserted before a child of `child_len` bytes at offset `off`:
/// none when the child is empty, else up to the next `a`-aligned offset.
pub open spec fn pad_len(a: Alignment, child_len: int, off: int) -> int {
    if child_len == 0 {
        0
    } else {
        spec_padding(a.spec_size(), off as nat) as int
    }
}

/// The cursor after laying out the first `j` children of an offset-table
/// run whose header ends at `hs`.
pub open spec fn run_end(aligns: Seq<Alignment>, children: Seq<Seq<u8>>, hs: int, j: int) -> int
    decreases j,
{
    if j <= 0 {
        hs
    } else {
        let e = run_end(aligns, children, hs, j - 1);
        e + pad_len(aligns[j - 1], children[j - 1].len() as int, e) + children[j - 1].len()
    }
}

/// The recorded offset of child `j`: the cursor after its padding.
pub open spec fn run_offset(aligns: Seq<Alignment>, children: Seq<Seq<u8>>, hs: int, j: int) -> int {
    let e = run_end(aligns, children, hs, j);
    e + pad_len(aligns[j], children[j].len() as int, e)
}

/// The body bytes of the first `j` children: each child preceded by its
/// padding.
pub open spec fn run_body(aligns: Seq<Alignment>, children: Seq<Seq<u8>>, hs: int, j: int) -> Seq<
    u8,
>
    decreases j,
{
    if j <= 0 {
        Seq::empty()
    } else {
        run_body(aligns, children, hs, j - 1) + zeros(
            pad_len(
                aligns[j - 1],
                children[j - 1].len() as int,
                run_end(aligns, children, hs, j - 1),
            ) as nat,
        ) + children[j - 1]
    }
}

/// The concatenated offset-table entries for the first `j` children.
pub open spec fn run_offsets_bytes(
    aligns: Seq<Alignment>,
    children: Seq<Seq<u8>>,
    hs: int,
    j: int,
) -> Seq<u8>
    decreases j,
{
    if j <= 0 {
        Seq::empty()
    } else {
        run_offsets_bytes(aligns, children, hs, j - 1) + spec_number_bytes(
            run_offset(aligns, children, hs, j - 1) as u32,
        )
    }
}

/// An 8-byte `[total, count]` header.
pub open spec fn header_spec(total: int, count: int) -> Seq<u8> {
    spec_number_bytes(total as u32) + spec_number_bytes(count as u32)
}

/// A non-empty offset-table run: header, offsets, then the padded children.
pub open spec fn build_run_spec(aligns: Seq<Alignment>, children: Seq<Seq<u8>>) -> Seq<u8> {
    let n = children.len() as int;
    let hs = 4 * (2 + n);
    let total = run_end(aligns, children, hs, n);
    header_spec(total, n) + run_offsets_bytes(aligns, children, hs, n) + run_body(
        aligns,
        children,
        hs,
        n,
    )
}

/// The canonical bytes of a dyn-vector holding `children`.
pub open spec fn build_dynvec_spec(a: Alignment, children: Seq<Seq<u8>>) -> Seq<u8> {
    if children.len() == 0 {
        header_spec(8, 0)
    } else {
        build_run_spec(Seq::new(children.len(), |j: int| a), children)
    }
}

/// The canonical bytes of a table holding `children` as its fields.
pub open spec fn build_table_spec(aligns: Seq<Alignment>, children: Seq<Seq<u8>>) -> Seq<u8> {
    if children.len() == 0 {
        header_spec(8, 0)
    } else {
        build_run_spec(aligns, children)
    }
}

/// The canonical bytes of a union value: `[total, item id]` then the inner
/// bytes.
pub open spec fn build_union_spec(item_id: int, inner: Seq<u8>) -> Seq<u8> {
    spec_number_bytes((8 + inner.len()) as u32) + spec_number_bytes(item_id as u32) + inner
}

/// The first `j` items of a fixed-size run, `p` padding bytes between
/// consecutive items and none before the first or after the last.
pub open spec fn fixed_run_bytes(children: Seq<Seq<u8>>, p: int, j: int) -> Seq<u8>
    decreases j,
{
    if j <= 0 {
        Seq::empty()
    } else if j == 1 {
        children[0]
    } else {
        fixed_run_bytes(children, p, j - 1) + zeros(p as nat) + children[j - 1]
    }
}

/// The canonical bytes of an array holding `children`.
pub open spec fn build_array_spec(children: Seq<Seq<u8>>, p: int) -> Seq<u8> {
    fixed_run_bytes(children, p, children.len() as int)
}

/// The canonical bytes of a fix-vector holding `children`.
pub open spec fn build_fixvec_spec(children: Seq<Seq<u8>>, p: int, hp: int) -> Seq<u8> {
    if children.len() == 0 {
        spec_number_bytes(0)
    } else {
        spec_number_bytes(children.len() as u32) + zeros(hp as nat) + fixed_run_bytes(
            children,
            p,
            children.len() as int,
        )
    }
}

/// The body of a struct: each field preceded by its padding.
pub open spec fn struct_body_bytes(children: Seq<Seq<u8>>, paddings: Seq<usize>, j: int) -> Seq<u8>
    decreases j,
{
    if j <= 0 {
        Seq::empty()
    } else {
        struct_body_bytes(children, paddings, j - 1) + zeros(paddings[j - 1] as nat) + children[j
            - 1]
    }
}

/// The canonical bytes of a struct holding `children` as its fields.
pub open spec fn build_struct_spec(children: Seq<Seq<u8>>, paddings: Seq<usize>) -> Seq<u8> {
    struct_body_bytes(children, paddings, children.len() as int)
}

/// The run cursor never moves backwards, and starts at the header's end.
pub proof fn lemma_run_end_mono(
    aligns: Seq<Alignment>,
    children: Seq<Seq<u8>>,
    hs: int,
    a: int,
    b: int,
)
    requires
        0 <= a <= b,
    ensures
        hs <= run_end(aligns, children, hs, a) <= run_end(aligns, children, hs, b),
    decreases b,
{
    if b > 0 {
        if a == b {
            lemma_run_end_mono(aligns, children, hs, 0, b - 1);
        } else {
            lemma_run_end_mono(aligns, children, hs, a, b - 1);
        }
    }
}

/// The body of the first `j` children occupies exactly the bytes between
/// the header's end and the cursor.
pub proof fn lemma_run_body_len(aligns: Seq<Alignment>, children: Seq<Seq<u8>>, hs: int, j: int)
    requires
        0 <= j,
    ensures
        run_body(aligns, children, hs, j).len() == run_end(aligns, children, hs, j) - hs,
    decreases j,
{
    if j > 0 {
        lemma_run_body_len(aligns, children, hs, j - 1);
    }
}

/// The offset table for `j` children occupies `4 * j` bytes.
pub proof fn lemma_run_offsets_len(aligns: Seq<Alignment>, children: Seq<Seq<u8>>, hs: int, j: int)
    requires
        0 <= j,
    ensures
        run_offsets_bytes(aligns, children, hs, j).len() == 4 * j,
    decreases j,
{
    if j > 0 {
        lemma_run_offsets_len(aligns, children, hs, j - 1);
        crate::lemma_number_roundtrip(run_offset(aligns, children, hs, j - 1) as u32);
    }
}

/// A run of `j` same-size items occupies `(s + p) * j - p` bytes.
pub proof fn lemma_fixed_run_len(children: Seq<Seq<u8>>, s: int, p: int, j: int)
    requires
        1 <= j <= children.len(),
        p >= 0,
        forall|l: int| 0 <= l < j ==> #[trigger] children[l].len() == s,
    ensures
        fixed_run_bytes(children, p, j).len() == (s + p) * j - p,
    decreases j,
{
    if j == 1 {
        assert((s + p) * 1 - p == s) by (nonlinear_arith);
    } else {
        lemma_fixed_run_len(children, s, p, j - 1);
        assert((s + p) * j - p == ((s + p) * (j - 1) - p) + p + s) by (nonlinear_arith);
    }
}

/// The struct body for `j` fields occupies exactly the struct-offset prefix
/// sum, when each field has its declared size.
pub proof fn lemma_struct_body_len(
    children: Seq<Seq<u8>>,
    sizes: Seq<usize>,
    paddings: Seq<usize>,
    j: int,
)
    requires
        0 <= j <= children.len(),
        j <= sizes.len(),
        j <= paddings.len(),
        forall|l: int| 0 <= l < j ==> #[trigger] children[l].len() == sizes[l],
    ensures
        struct_body_bytes(children, paddings, j).len() == struct_offset(sizes, paddings, j),
    decreases j,
{
    if j > 0 {
        lemma_struct_body_len(children, sizes, paddings, j - 1);
    }
}

/// Append all of `src` to `dst`.
fn append_bytes(dst: &mut Vec<u8>, src: &[u8])
    requires
        old(dst)@.len() + src@.len() <= usize::MAX,
    ensures
        final(dst)@ == old(dst)@ + src@,
{
    let n = src.len();
    let mut k: usize = 0;
    while k < n
        invariant
            0 <= k <= n,
            n == src@.len(),
            dst@ == old(dst)@ + src@.take(k as int),
            old(dst)@.len() + n <= usize::MAX,
        decreases n - k,
    {
        dst.push(*vstd::slice::slice_index_get(src, k));
        proof {
            assert(dst@ =~= old(dst)@ + src@.take(k + 1));
        }
        k = k + 1;
    }
    proof {
        assert(src@.take(n as int) =~= src@);
    }
}

/// The views of a list of byte vectors.
pub open spec fn views_of(items: Seq<Vec<u8>>) -> Seq<Seq<u8>> {
    items.map_values(|v: Vec<u8>| v@)
}

/// Serialize a union value: header `[total, item id]`, then the inner
/// bytes, exactly as chosen.
pub fn build_union(ast: &Ast, i: usize, item_id: usize, inner: &[u8]) -> (r: Vec<u8>)
    requires
        ast.wf(),
        i < ast.decls@.len(),
        ast.decls@[i as int] is Union,
        item_id < ast.decls@[i as int]->Union_items@.len(),
        8 + inner@.len() <= u32::MAX,
    ensures
        r@ == build_union_spec(item_id as int, inner@),
{
    let total = 8 + inner.len();
    let mut content = crate::create_content(total);
    let total_bytes = crate::pack_number(total as u32);
    append_bytes(&mut content, total_bytes.as_slice());
    let id_bytes = crate::pack_number(item_id as u32);
    append_bytes(&mut content, id_bytes.as_slice());
    append_bytes(&mut content, inner);
    proof {
        assert(content@ =~= build_union_spec(item_id as int, inner@));
    }
    content
}

/// Serialize an array value: the items in order, `item_padding` zero bytes
/// between consecutive items.
pub fn build_array(ast: &Ast, i: usize, items: &Vec<Vec<u8>>) -> (r: Vec<u8>)
    requires
        ast.wf(),
        i < ast.decls@.len(),
        ast.decls@[i as int] is Array,
        items@.len() == ast.decls@[i as int]->Array_item_count,
        forall|j: int|
            0 <= j < items@.len() ==> #[trigger] items@[j]@.len() == ast.decls@[
                i as int
            ]->Array_item_size,
    ensures
        r@ == build_array_spec(views_of(items@), ast.decls@[i as int]->Array_item_padding as int),
{
    let ghost d = ast.decls@;
    let ghost kids = views_of(items@);
    proof {
        assert(decl_wf(d, i as int));
    }
    let (s, p, k) = match &ast.decls[i] {
        TopDecl::Array { item_size, item_padding, item_count, .. } => (
            *item_size,
            *item_padding,
            *item_count,
        ),
        _ => {
            proof {
                assert(false);
            }
            (0, 0, 0)
        },
    };
    proof {
        crate::wire::lemma_array_total_bounds(s as int, p as int, k as int);
    }
    let mut content = crate::create_content(s * k + p * (k - 1));
    let mut j: usize = 0;
    while j < k
        invariant
            ast.wf(),
            d == ast.decls@,
            i < d.len(),
            kids == views_of(items@),
            d[i as int] is Array,
            d[i as int]->Array_item_size == s,
            d[i as int]->Array_item_padding == p,
            d[i as int]->Array_item_count == k,
            items@.len() == k,
            k >= 1,
            s >= 1,
            (s + p) * k - p <= u32::MAX,
            forall|l: int| 0 <= l < k ==> #[trigger] kids[l].len() == s,
            0 <= j <= k,
            content@ == fixed_run_bytes(kids, p as int, j as int),
        decreases k - j,
    {
        proof {
            assert(kids[j as int] == items@[j as int]@);
            crate::wire::lemma_fixed_run_bounds(s as int, p as int, k as int, j as int);
            if j >= 1 {
                lemma_fixed_run_len(kids, s as int, p as int, j as int);
            }
        }
        if j > 0 {
            crate::write_padding(&mut content, p);
        }
        append_bytes(&mut content, items[j].as_slice());
        proof {
            assert(content@ =~= fixed_run_bytes(kids, p as int, j + 1));
        }
        j = j + 1;
    }
    content
}

/// Serialize a fix-vector value: a count header, then (for a non-empty
/// vector) the header padding and the items laid out as in an array.
pub fn build_fix_vec(ast: &Ast, i: usize, items: &Vec<Vec<u8>>) -> (r: Vec<u8>)
    requires
        ast.wf(),
        i < ast.decls@.len(),
        ast.decls@[i as int] is FixVec,
        items@.len() <= u32::MAX,
        forall|j: int|
            0 <= j < items@.len() ==> #[trigger] items@[j]@.len() == ast.decls@[
                i as int
            ]->FixVec_item_size,
        4 + ast.decls@[i as int]->FixVec_header_padding + (ast.decls@[i as int]->FixVec_item_size
            + ast.decls@[i as int]->FixVec_item_padding) * items@.len() - ast.decls@[
            i as int
        ]->FixVec_item_padding <= u32::MAX,
    ensures
        r@ == build_fixvec_spec(
            views_of(items@),
            ast.decls@[i as int]->FixVec_item_padding as int,
            ast.decls@[i as int]->FixVec_header_padding as int,
        ),
{
    let ghost d = ast.decls@;
    let ghost kids = views_of(items@);
    proof {
        assert(decl_wf(d, i as int));
    }
    let (s, p, hp) = match &ast.decls[i] {
        TopDecl::FixVec { item_size, item_padding, header_padding, .. } => (
            *item_size,
            *item_padding,
            *header_padding,
        ),
        _ => {
            proof {
                assert(false);
            }
            (0, 0, 0)
        },
    };
    let k = items.len();
    let mut content = crate::create_content(4);
    let count_bytes = crate::pack_number(k as u32);
    append_bytes(&mut content, count_bytes.as_slice());
    if k == 0 {
        proof {
            assert(content@ =~= build_fixvec_spec(kids, p as int, hp as int));
        }
        return content;
    }
    crate::write_padding(&mut content, hp);
    let ghost header = spec_number_bytes(k as u32) + zeros(hp as nat);
    let mut j: usize = 0;
    while j < k
        invariant
            ast.wf(),
            d == ast.decls@,
            i < d.len(),
            kids == views_of(items@),
            d[i as int] is FixVec,
            d[i as int]->FixVec_item_size == s,
            d[i as int]->FixVec_item_padding == p,
            d[i as int]->FixVec_header_padding == hp,
            items@.len() == k,
            1 <= k <= u32::MAX,
            s >= 1,
            4 + hp + (s + p) * k - p <= u32::MAX,
            forall|l: int| 0 <= l < k ==> #[trigger] kids[l].len() == s,
            0 <= j <= k,
            header == spec_number_bytes(k as u32) + zeros(hp as nat),
            header.len() == 4 + hp,
            content@ == header + fixed_run_bytes(kids, p as int, j as int),
        decreases k - j,
    {
        proof {
            assert(kids[j as int] == items@[j as int]@);
            crate::wire::lemma_fixed_run_bounds(s as int, p as int, k as int, j as int);
            if j >= 1 {
                lemma_fixed_run_len(kids, s as int, p as int, j as int);
            }
        }
        if j > 0 {
            crate::write_padding(&mut content, p);
        }
        append_bytes(&mut content, items[j].as_slice());
        proof {
            assert(content@ =~= header + fixed_run_bytes(kids, p as int, j + 1));
        }
        j = j + 1;
    }
    proof {
        assert(content@ =~= build_fixvec_spec(kids, p as int, hp as int));
    }
    content
}

/// Serialize a struct value: the fields in order, each preceded by its
/// per-field padding.
pub fn build_struct(ast: &Ast, i: usize, fields: &Vec<Vec<u8>>) -> (r: Vec<u8>)
    requires
        ast.wf(),
        i < ast.decls@.len(),
        ast.decls@[i as int] is Struct,
        fields@.len() == ast.decls@[i as int]->Struct_fields@.len(),
        forall|j: int|
            0 <= j < fields@.len() ==> #[trigger] fields@[j]@.len() == ast.decls@[
                i as int
            ]->Struct_field_sizes@[j],
    ensures
        r@ == build_struct_spec(
            views_of(fields@),
            ast.decls@[i as int]->Struct_field_paddings@,
        ),
{
    let ghost d = ast.decls@;
    let ghost kids = views_of(fields@);
    proof {
        assert(decl_wf(d, i as int));
    }
    match &ast.decls[i] {
        TopDecl::Struct { field_sizes, field_paddings, .. } => {
            let ghost sz = field_sizes@;
            let ghost pd = field_paddings@;
            let n = fields.len();
            let mut content = crate::create_content(0);
            let mut j: usize = 0;
            while j < n
                invariant
                    ast.wf(),
                    d == ast.decls@,
                    i < d.len(),
                    kids == views_of(fields@),
                    d[i as int] is Struct,
                    d[i as int]->Struct_field_sizes == *field_sizes,
                    d[i as int]->Struct_field_paddings == *field_paddings,
                    sz == field_sizes@,
                    pd == field_paddings@,
                    fields@.len() == n,
                    n == sz.len(),
                    n == pd.len(),
                    n == d[i as int]->Struct_fields@.len(),
                    struct_offset(sz, pd, n as int) <= u32::MAX,
                    forall|l: int| 0 <= l < n ==> #[trigger] kids[l].len() == sz[l],
                    0 <= j <= n,
                    content@ == struct_body_bytes(kids, pd, j as int),
                decreases n - j,
            {
                proof {
                    assert(kids[j as int] == fields@[j as int]@);
                    lemma_struct_body_len(kids, sz, pd, j as int);
                    crate::wire::lemma_struct_offset_mono(sz, pd, j + 1, n as int);
                }
                crate::write_padding(&mut content, field_paddings[j]);
                append_bytes(&mut content, fields[j].as_slice());
                proof {
                    assert(content@ =~= struct_body_bytes(kids, pd, j + 1));
                }
                j = j + 1;
            }
            content
        },
        _ => {
            proof {
                assert(false);
            }
            Vec::new()
        },
    }
}

/// Serialize a non-empty offset-table run: compute offsets in a forward
/// pass, then write the header, the offset table, and the padded children.
fn build_run(aligns: &Vec<Alignment>, children: &Vec<Vec<u8>>) -> (r: Vec<u8>)
    requires
        children@.len() >= 1,
        aligns@.len() == children@.len(),
        run_end(
            aligns@,
            views_of(children@),
            4 * (2 + children@.len() as int),
            children@.len() as int,
        ) <= u32::MAX,
    ensures
        r@ == build_run_spec(aligns@, views_of(children@)),
{
    let ghost kids = views_of(children@);
    let ghost al = aligns@;
    let n = children.len();
    let ghost hs_g = 4 * (2 + n as int);
    proof {
        lemma_run_end_mono(al, kids, hs_g, 0, n as int);
    }
    let hs: usize = 4 * (2 + n);
    // Forward pass: compute each child's padding and recorded offset.
    let mut offsets: Vec<u32> = Vec::new();
    let mut paddings: Vec<usize> = Vec::new();
    let mut cursor: usize = hs;
    let mut j: usize = 0;
    while j < n
        invariant
            kids == views_of(children@),
            al == aligns@,
            n == children@.len(),
            n == aligns@.len(),
            hs == hs_g,
            run_end(al, kids, hs_g, n as int) <= u32::MAX,
            0 <= j <= n,
            cursor == run_end(al, kids, hs_g, j as int),
            offsets@.len() == j,
            paddings@.len() == j,
            forall|l: int|
                0 <= l < j ==> #[trigger] offsets@[l] as int == run_offset(al, kids, hs_g, l),
            forall|l: int|
                0 <= l < j ==> #[trigger] paddings@[l] as int == pad_len(
                    al[l],
                    kids[l].len() as int,
                    run_end(al, kids, hs_g, l),
                ),
        decreases n - j,
    {
        proof {
            lemma_run_end_mono(al, kids, hs_g, j + 1, n as int);
        }
        let child_len = children[j].len();
        let pad: usize = if child_len == 0 {
            0
        } else {
            aligns[j].calc_padding(cursor)
        };
        paddings.push(pad);
        let off = cursor + pad;
        offsets.push(off as u32);
        cursor = off + child_len;
        j = j + 1;
    }
    // Write pass: header, offset table, padded children.
    let total = cursor;
    let mut content = crate::create_content(total);
    let total_bytes = crate::pack_number(total as u32);
    append_bytes(&mut content, total_bytes.as_slice());
    let count_bytes = crate::pack_number(n as u32);
    append_bytes(&mut content, count_bytes.as_slice());
    proof {
        assert(content@ =~= header_spec(run_end(al, kids, hs_g, n as int), n as int));
    }
    let ghost header = header_spec(run_end(al, kids, hs_g, n as int), n as int);
    let mut j: usize = 0;
    while j < n
        invariant
            kids == views_of(children@),
            al == aligns@,
            n == children@.len(),
            hs == hs_g,
            hs_g == 4 * (2 + n as int),
            run_end(al, kids, hs_g, n as int) <= u32::MAX,
            header == header_spec(run_end(al, kids, hs_g, n as int), n as int),
            header.len() == 8,
            offsets@.len() == n,
            forall|l: int|
                0 <= l < n ==> #[trigger] offsets@[l] as int == run_offset(al, kids, hs_g, l),
            0 <= j <= n,
            content@ == header + run_offsets_bytes(al, kids, hs_g, j as int),
        decreases n - j,
    {
        proof {
            lemma_run_offsets_len(al, kids, hs_g, j as int);
            lemma_run_end_mono(al, kids, hs_g, 0, n as int);
        }
        let off_bytes = crate::pack_number(offsets[j]);
        append_bytes(&mut content, off_bytes.as_slice());
        proof {
            assert(content@ =~= header + run_offsets_bytes(al, kids, hs_g, j + 1));
        }
        j = j + 1;
    }
    let ghost prefix = header + run_offsets_bytes(al, kids, hs_g, n as int);
    proof {
        lemma_run_offsets_len(al, kids, hs_g, n as int);
    }
    let mut j: usize = 0;
    while j < n
        invariant
            kids == views_of(children@),
            al == aligns@,
            n == children@.len(),
            hs == hs_g,
            hs_g == 4 * (2 + n as int),
            run_end(al, kids, hs_g, n as int) <= u32::MAX,
            prefix == header_spec(run_end(al, kids, hs_g, n as int), n as int)
                + run_offsets_bytes(al, kids, hs_g, n as int),
            prefix.len() == hs_g,
            paddings@.len() == n,
            forall|l: int|
                0 <= l < n ==> #[trigger] paddings@[l] as int == pad_len(
                    al[l],
                    kids[l].len() as int,
                    run_end(al, kids, hs_g, l),
                ),
            0 <= j <= n,
            content@ == prefix + run_body(al, kids, hs_g, j as int),
        decreases n - j,
    {
        proof {
            assert(kids[j as int] == children@[j as int]@);
            lemma_run_body_len(al, kids, hs_g, j as int);
            lemma_run_end_mono(al, kids, hs_g, j as int, n as int);
            lemma_run_end_mono(al, kids, hs_g, j + 1, n as int);
        }
        crate::write_padding(&mut content, paddings[j]);
        append_bytes(&mut content, children[j].as_slice());
        proof {
            assert(content@ =~= prefix + run_body(al, kids, hs_g, j + 1));
        }
        j = j + 1;
    }
    proof {
        assert(content@ =~= build_run_spec(al, kids));
    }
    content
}

/// Serialize a dyn-vector value: an `[total, count]` header and, for a
/// non-empty vector, the offset table and the padded items.
pub fn build_dyn_vec(ast: &Ast, i: usize, items: &Vec<Vec<u8>>) -> (r: Vec<u8>)
    requires
        ast.wf(),
        i < ast.decls@.len(),
        ast.decls@[i as int] is DynVec,
        items@.len() == 0 || run_end(
            Seq::new(items@.len(), |j: int| ast.decls@[i as int]->DynVec_item_alignment),
            views_of(items@),
            4 * (2 + items@.len() as int),
            items@.len() as int,
        ) <= u32::MAX,
    ensures
        r@ == build_dynvec_spec(ast.decls@[i as int]->DynVec_item_alignment, views_of(items@)),
{
    let ghost d = ast.decls@;
    proof {
        assert(decl_wf(d, i as int));
    }
    let a = match &ast.decls[i] {
        TopDecl::DynVec { item_alignment, .. } => *item_alignment,
        _ => {
            proof {
                assert(false);
            }
            Alignment::Byte1
        },
    };
    let n = items.len();
    if n == 0 {
        let mut content = crate::create_content(8);
        let total_bytes = crate::pack_number(8);
        append_bytes(&mut content, total_bytes.as_slice());
        let count_bytes = crate::pack_number(0);
        append_bytes(&mut content, count_bytes.as_slice());
        proof {
            assert(content@ =~= header_spec(8, 0));
        }
        return content;
    }
    let mut aligns: Vec<Alignment> = Vec::new();
    let mut j: usize = 0;
    while j < n
        invariant
            0 <= j <= n,
            aligns@.len() == j,
            forall|l: int| 0 <= l < j ==> #[trigger] aligns@[l] == a,
        decreases n - j,
    {
        aligns.push(a);
        j = j + 1;
    }
    proof {
        assert(aligns@ =~= Seq::new(items@.len(), |j: int| a));
    }
    build_run(&aligns, items)
}

/// Serialize a table value: an `[total, field count]` header and, for a
/// table with fields, the offset table and the padded fields.
pub fn build_table(ast: &Ast, i: usize, fields: &Vec<Vec<u8>>) -> (r: Vec<u8>)
    requires
        ast.wf(),
        i < ast.decls@.len(),
        ast.decls@[i as int] is Table,
        fields@.len() == ast.decls@[i as int]->Table_fields@.len(),
        fields@.len() == 0 || run_end(
            ast.decls@[i as int]->Table_field_alignments@,
            views_of(fields@),
            4 * (2 + fields@.len() as int),
            fields@.len() as int,
        ) <= u32::MAX,
    ensures
        r@ == build_table_spec(
            ast.decls@[i as int]->Table_field_alignments@,
            views_of(fields@),
        ),
{
    let ghost d = ast.decls@;
    proof {
        assert(decl_wf(d, i as int));
    }
    match &ast.decls[i] {
        TopDecl::Table { field_alignments, .. } => {
            let n = fields.len();
            if n == 0 {
                let mut content = crate::create_content(8);
                let total_bytes = crate::pack_number(8);
                append_bytes(&mut content, total_bytes.as_slice());
                let count_bytes = crate::pack_number(0);
                append_bytes(&mut content, count_bytes.as_slice());
                proof {
                    assert(content@ =~= header_spec(8, 0));
                }
                return content;
            }
            build_run(field_alignments, fields)
        },
        _ => {
            proof {
                assert(false);
            }
            Vec::new()
        },
    }
}

/// Item and padding regions of a fixed-size run, read back out of the run's
/// bytes.
pub proof fn lemma_fixed_run_index(children: Seq<Seq<u8>>, s: int, p: int, k: int, j: int)
    requires
        1 <= k <= children.len(),
        0 <= j < k,
        s >= 1,
        p >= 0,
        forall|l: int| 0 <= l < k ==> #[trigger] children[l].len() == s,
    ensures
        fixed_run_bytes(children, p, k).subrange((s + p) * j, (s + p) * j + s) == children[j],
        j >= 1 ==> all_zero(fixed_run_bytes(children, p, k).subrange((s + p) * j - p, (s + p) * j)),
    decreases k,
{
    lemma_fixed_run_len(children, s, p, k);
    crate::wire::lemma_fixed_run_bounds(s, p, k, j);
    if j == k - 1 {
        if k == 1 {
            assert(fixed_run_bytes(children, p, k).subrange((s + p) * j, (s + p) * j + s)
                =~= children[j]);
        } else {
            lemma_fixed_run_len(children, s, p, k - 1);
            assert(fixed_run_bytes(children, p, k).subrange((s + p) * j, (s + p) * j + s)
                =~= children[j]);
            assert(fixed_run_bytes(children, p, k).subrange((s + p) * j - p, (s + p) * j)
                =~= zeros(p as nat));
        }
    } else {
        lemma_fixed_run_index(children, s, p, k - 1, j);
        lemma_fixed_run_len(children, s, p, k - 1);
        crate::wire::lemma_fixed_run_bounds(s, p, k - 1, j);
        assert(fixed_run_bytes(children, p, k).subrange((s + p) * j, (s + p) * j + s)
            =~= fixed_run_bytes(children, p, k - 1).subrange((s + p) * j, (s + p) * j + s));
        if j >= 1 {
            assert(fixed_run_bytes(children, p, k).subrange((s + p) * j - p, (s + p) * j)
                =~= fixed_run_bytes(children, p, k - 1).subrange((s + p) * j - p, (s + p) * j));
        }
    }
}

/// Field and padding regions of a struct body, read back out of its bytes.
pub proof fn lemma_struct_body_index(
    children: Seq<Seq<u8>>,
    sizes: Seq<usize>,
    paddings: Seq<usize>,
    n: int,
    j: int,
)
    requires
        0 <= j < n <= children.len(),
        n <= sizes.len(),
        n <= paddings.len(),
        forall|l: int| 0 <= l < n ==> #[trigger] children[l].len() == sizes[l],
    ensures
        all_zero(
            struct_body_bytes(children, paddings, n).subrange(
                struct_offset(sizes, paddings, j),
                struct_offset(sizes, paddings, j) + paddings[j],
            ),
        ),
        struct_body_bytes(children, paddings, n).subrange(
            struct_offset(sizes, paddings, j) + paddings[j],
            struct_offset(sizes, paddings, j) + paddings[j] + sizes[j],
        ) == children[j],
    decreases n,
{
    lemma_struct_body_len(children, sizes, paddings, n);
    crate::wire::lemma_struct_offset_mono(sizes, paddings, 0, j);
    if j == n - 1 {
        lemma_struct_body_len(children, sizes, paddings, n - 1);
        assert(struct_body_bytes(children, paddings, n).subrange(
            struct_offset(sizes, paddings, j),
            struct_offset(sizes, paddings, j) + paddings[j],
        ) =~= zeros(paddings[j] as nat));
        assert(struct_body_bytes(children, paddings, n).subrange(
            struct_offset(sizes, paddings, j) + paddings[j],
            struct_offset(sizes, paddings, j) + paddings[j] + sizes[j],
        ) =~= children[j]);
    } else {
        lemma_struct_body_index(children, sizes, paddings, n - 1, j);
        lemma_struct_body_len(children, sizes, paddings, n - 1);
        crate::wire::lemma_struct_offset_mono(sizes, paddings, j + 1, n - 1);
        assert(struct_body_bytes(children, paddings, n).subrange(
            struct_offset(sizes, paddings, j),
            struct_offset(sizes, paddings, j) + paddings[j],
        ) =~= struct_body_bytes(children, paddings, n - 1).subrange(
            struct_offset(sizes, paddings, j),
            struct_offset(sizes, paddings, j) + paddings[j],
        ));
        assert(struct_body_bytes(children, paddings, n).subrange(
            struct_offset(sizes, paddings, j) + paddings[j],
            struct_offset(sizes, paddings, j) + paddings[j] + sizes[j],
        ) =~= struct_body_bytes(children, paddings, n - 1).subrange(
            struct_offset(sizes, paddings, j) + paddings[j],
            struct_offset(sizes, paddings, j) + paddings[j] + sizes[j],
        ));
    }
}

/// Offset-table entry `l`, read back out of the concatenated offset bytes.
pub proof fn lemma_run_offsets_index(
    aligns: Seq<Alignment>,
    children: Seq<Seq<u8>>,
    hs: int,
    n: int,
    l: int,
)
    requires
        0 <= l < n,
    ensures
        run_offsets_bytes(aligns, children, hs, n).subrange(4 * l, 4 * l + 4) == spec_number_bytes(
            run_offset(aligns, children, hs, l) as u32,
        ),
    decreases n,
{
    lemma_run_offsets_len(aligns, children, hs, n);
    crate::lemma_number_roundtrip(run_offset(aligns, children, hs, n - 1) as u32);
    if l == n - 1 {
        lemma_run_offsets_len(aligns, children, hs, n - 1);
        assert(run_offsets_bytes(aligns, children, hs, n).subrange(4 * l, 4 * l + 4)
            =~= spec_number_bytes(run_offset(aligns, children, hs, l) as u32));
    } else {
        lemma_run_offsets_index(aligns, children, hs, n - 1, l);
        lemma_run_offsets_len(aligns, children, hs, n - 1);
        assert(run_offsets_bytes(aligns, children, hs, n).subrange(4 * l, 4 * l + 4)
            =~= run_offsets_bytes(aligns, children, hs, n - 1).subrange(4 * l, 4 * l + 4));
    }
}

/// Child and padding regions of an offset-table body, read back out of its
/// bytes, positioned relative to the header's end.
pub proof fn lemma_run_body_index(
    aligns: Seq<Alignment>,
    children: Seq<Seq<u8>>,
    hs: int,
    n: int,
    l: int,
)
    requires
        0 <= l < n <= children.len(),
    ensures
        all_zero(
            run_body(aligns, children, hs, n).subrange(
                run_end(aligns, children, hs, l) - hs,
                run_offset(aligns, children, hs, l) - hs,
            ),
        ),
        run_body(aligns, children, hs, n).subrange(
            run_offset(aligns, children, hs, l) - hs,
            run_offset(aligns, children, hs, l) - hs + children[l].len(),
        ) == children[l],
    decreases n,
{
    lemma_run_body_len(aligns, children, hs, n);
    lemma_run_end_mono(aligns, children, hs, 0, l);
    if l == n - 1 {
        lemma_run_body_len(aligns, children, hs, n - 1);
        assert(run_body(aligns, children, hs, n).subrange(
            run_end(aligns, children, hs, l) - hs,
            run_offset(aligns, children, hs, l) - hs,
        ) =~= zeros(
            pad_len(aligns[l], children[l].len() as int, run_end(aligns, children, hs, l)) as nat,
        ));
        assert(run_body(aligns, children, hs, n).subrange(
            run_offset(aligns, children, hs, l) - hs,
            run_offset(aligns, children, hs, l) - hs + children[l].len(),
        ) =~= children[l]);
    } else {
        lemma_run_body_index(aligns, children, hs, n - 1, l);
        lemma_run_body_len(aligns, children, hs, n - 1);
        lemma_run_end_mono(aligns, children, hs, l + 1, n - 1);
        assert(run_body(aligns, children, hs, n).subrange(
            run_end(aligns, children, hs, l) - hs,
            run_offset(aligns, children, hs, l) - hs,
        ) =~= run_body(aligns, children, hs, n - 1).subrange(
            run_end(aligns, children, hs, l) - hs,
            run_offset(aligns, children, hs, l) - hs,
        ));
        assert(run_body(aligns, children, hs, n).subrange(
            run_offset(aligns, children, hs, l) - hs,
            run_offset(aligns, children, hs, l) - hs + children[l].len(),
        ) =~= run_body(aligns, children, hs, n - 1).subrange(
            run_offset(aligns, children, hs, l) - hs,
            run_offset(aligns, children, hs, l) - hs + children[l].len(),
        ));
    }
}

/// Everything a verifier reads out of a built offset-table run: its length
/// and header, each recorded offset, each child's bytes, and the zero
/// padding before each child.
pub proof fn lemma_build_run_index(aligns: Seq<Alignment>, children: Seq<Seq<u8>>, l: int)
    requires
        children.len() >= 1,
        0 <= l < children.len(),
        run_end(
            aligns,
            children,
            4 * (2 + children.len() as int),
            children.len() as int,
        ) <= u32::MAX,
    ensures
        ({
            let n = children.len() as int;
            let hs = 4 * (2 + n);
            let total = run_end(aligns, children, hs, n);
            let b = build_run_spec(aligns, children);
            &&& b.len() == total
            &&& crate::spec_read_number(b, 0) as int == total
            &&& crate::spec_read_number(b, 4) as int == n
            &&& crate::wire::dv_off(b, l) == run_offset(aligns, children, hs, l)
            &&& b.subrange(
                run_offset(aligns, children, hs, l),
                run_offset(aligns, children, hs, l) + children[l].len(),
            ) == children[l]
            &&& all_zero(
                b.subrange(
                    run_end(aligns, children, hs, l),
                    run_offset(aligns, children, hs, l),
                ),
            )
        }),
{
    let n = children.len() as int;
    let hs = 4 * (2 + n);
    let total = run_end(aligns, children, hs, n);
    let b = build_run_spec(aligns, children);
    lemma_run_offsets_len(aligns, children, hs, n);
    lemma_run_body_len(aligns, children, hs, n);
    crate::lemma_number_roundtrip(total as u32);
    crate::lemma_number_roundtrip(n as u32);
    lemma_run_end_mono(aligns, children, hs, 0, n);
    assert(b.subrange(0, 4) =~= spec_number_bytes(total as u32));
    assert(b.subrange(4, 8) =~= spec_number_bytes(n as u32));
    assert(spec_number_bytes(total as u32).subrange(0, 4) =~= spec_number_bytes(total as u32));
    assert(spec_number_bytes(n as u32).subrange(0, 4) =~= spec_number_bytes(n as u32));
    lemma_run_offsets_index(aligns, children, hs, n, l);
    assert(b.subrange(8 + 4 * l, 8 + 4 * l + 4) =~= run_offsets_bytes(
        aligns,
        children,
        hs,
        n,
    ).subrange(4 * l, 4 * l + 4));
    crate::lemma_number_roundtrip(run_offset(aligns, children, hs, l) as u32);
    lemma_run_end_mono(aligns, children, hs, 0, l);
    lemma_run_end_mono(aligns, children, hs, l + 1, n);
    assert(run_end(aligns, children, hs, l + 1) == run_offset(aligns, children, hs, l)
        + children[l].len());
    assert(0 <= run_offset(aligns, children, hs, l) <= total);
    assert(spec_number_bytes(run_offset(aligns, children, hs, l) as u32).subrange(0, 4)
        =~= spec_number_bytes(run_offset(aligns, children, hs, l) as u32));
    assert(crate::wire::dv_off(b, l) == run_offset(aligns, children, hs, l));
    lemma_run_body_index(aligns, children, hs, n, l);
    assert(b.subrange(
        run_offset(aligns, children, hs, l),
        run_offset(aligns, children, hs, l) + children[l].len(),
    ) =~= run_body(aligns, children, hs, n).subrange(
        run_offset(aligns, children, hs, l) - hs,
        run_offset(aligns, children, hs, l) - hs + children[l].len(),
    ));
    assert(b.subrange(
        run_end(aligns, children, hs, l),
        run_offset(aligns, children, hs, l),
    ) =~= run_body(aligns, children, hs, n).subrange(
        run_end(aligns, children, hs, l) - hs,
        run_offset(aligns, children, hs, l) - hs,
    ));
    assert(b.len() == total);
    assert(crate::spec_read_number(b, 0) as int == total);
    assert(crate::spec_read_number(b, 4) as int == n);
    assert(b.subrange(
        run_offset(aligns, children, hs, l),
        run_offset(aligns, children, hs, l) + children[l].len(),
    ) == children[l]);
    assert(all_zero(
        b.subrange(run_end(aligns, children, hs, l), run_offset(aligns, children, hs, l)),
    ));
}

/// The length [`build_run`] would emit, without materializing anything:
/// `None` when it cannot fit in a wire number.
fn run_expected_length(aligns: &Vec<Alignment>, children: &Vec<Vec<u8>>) -> (r: Option<usize>)
    requires
        children@.len() >= 1,
        aligns@.len() == children@.len(),
    ensures
        ({
            let total = run_end(
                aligns@,
                views_of(children@),
                4 * (2 + children@.len() as int),
                children@.len() as int,
            );
            match r {
                Some(v) => v == total && total <= u32::MAX,
                None => total > u32::MAX,
            }
        }),
{
    let ghost kids = views_of(children@);
    let ghost al = aligns@;
    let n = children.len();
    let ghost hs_g = 4 * (2 + n as int);
    proof {
        lemma_run_end_mono(al, kids, hs_g, 0, n as int);
    }
    if n >= 0x3FFF_FFFEusize {
        proof {
            lemma_run_end_mono(al, kids, hs_g, 0, n as int);
        }
        return None;
    }
    let mut cursor: usize = 4 * (2 + n);
    let mut j: usize = 0;
    while j < n
        invariant
            kids == views_of(children@),
            al == aligns@,
            n == children@.len(),
            n == aligns@.len(),
            hs_g == 4 * (2 + n as int),
            0 <= j <= n,
            cursor == run_end(al, kids, hs_g, j as int),
            cursor <= u32::MAX,
        decreases n - j,
    {
        proof {
            assert(kids[j as int] == children@[j as int]@);
        }
        let child_len = children[j].len();
        let pad: usize = if child_len == 0 {
            0
        } else {
            aligns[j].calc_padding(cursor)
        };
        let next128: u128 = (cursor as u128) + (pad as u128) + (child_len as u128);
        if next128 > 0xFFFF_FFFFu128 {
            proof {
                lemma_run_end_mono(al, kids, hs_g, j + 1, n as int);
            }
            return None;
        }
        cursor = next128 as usize;
        j = j + 1;
    }
    Some(cursor)
}

/// The length [`build_table`] would emit for these fields; `None` when it
/// cannot fit in a wire number.
pub fn table_expected_length(ast: &Ast, i: usize, fields: &Vec<Vec<u8>>) -> (r: Option<usize>)
    requires
        ast.wf(),
        i < ast.decls@.len(),
        ast.decls@[i as int] is Table,
        fields@.len() == ast.decls@[i as int]->Table_fields@.len(),
    ensures
        ({
            let total = run_end(
                ast.decls@[i as int]->Table_field_alignments@,
                views_of(fields@),
                4 * (2 + fields@.len() as int),
                fields@.len() as int,
            );
            match r {
                Some(v) => fields@.len() == 0 && v == 8 || fields@.len() > 0 && v == total && total
                    <= u32::MAX,
                None => fields@.len() > 0 && total > u32::MAX,
            }
        }),
{
    proof {
        assert(crate::ast::decl_wf(ast.decls@, i as int));
    }
    match &ast.decls[i] {
        TopDecl::Table { field_alignments, .. } => {
            if fields.len() == 0 {
                Some(8)
            } else {
                run_expected_length(field_alignments, fields)
            }
        },
        _ => {
            proof {
                assert(false);
            }
            None
        },
    }
}

/// The length [`build_dyn_vec`] would emit for these items; `None` when it
/// cannot fit in a wire number.
pub fn dynvec_expected_length(ast: &Ast, i: usize, items: &Vec<Vec<u8>>) -> (r: Option<usize>)
    requires
        ast.wf(),
        i < ast.decls@.len(),
        ast.decls@[i as int] is DynVec,
    ensures
        ({
            let total = run_end(
                Seq::new(items@.len(), |j: int| ast.decls@[i as int]->DynVec_item_alignment),
                views_of(items@),
                4 * (2 + items@.len() as int),
                items@.len() as int,
            );
            match r {
                Some(v) => items@.len() == 0 && v == 8 || items@.len() > 0 && v == total && total
                    <= u32::MAX,
                None => items@.len() > 0 && total > u32::MAX,
            }
        }),
{
    proof {
        assert(crate::ast::decl_wf(ast.decls@, i as int));
    }
    let a = match &ast.decls[i] {
        TopDecl::DynVec { item_alignment, .. } => *item_alignment,
        _ => {
            proof {
                assert(false);
            }
            Alignment::Byte1
        },
    };
    let n = items.len();
    if n == 0 {
        return Some(8);
    }
    let mut aligns: Vec<Alignment> = Vec::new();
    let mut j: usize = 0;
    while j < n
        invariant
            0 <= j <= n,
            aligns@.len() == j,
            forall|l: int| 0 <= l < j ==> #[trigger] aligns@[l] == a,
        decreases n - j,
    {
        aligns.push(a);
        j = j + 1;
    }
    proof {
        assert(aligns@ =~= Seq::new(items@.len(), |j: int| a));
    }
    run_expected_length(&aligns, items)
}

/// The length [`build_fix_vec`] would emit for these items; `None` when it
/// cannot fit in a wire number.
pub fn fixvec_expected_length(ast: &Ast, i: usize, count: usize) -> (r: Option<usize>)
    requires
        ast.wf(),
        i < ast.decls@.len(),
        ast.decls@[i as int] is FixVec,
        count <= u32::MAX,
    ensures
        ({
            let s = ast.decls@[i as int]->FixVec_item_size as int;
            let p = ast.decls@[i as int]->FixVec_item_padding as int;
            let hp = ast.decls@[i as int]->FixVec_header_padding as int;
            let total = if count == 0 {
                4int
            } else {
                4 + hp + (s + p) * count - p
            };
            match r {
                Some(v) => v == total && total <= u32::MAX,
                None => total > u32::MAX,
            }
        }),
{
    let ghost d = ast.decls@;
    proof {
        assert(crate::ast::decl_wf(d, i as int));
    }
    match &ast.decls[i] {
        TopDecl::FixVec { typ, item_size, item_padding, header_padding, item_alignment, .. } => {
            if count == 0 {
                return Some(4);
            }
            proof {
                crate::wire::lemma_fixed_size_bounds(d, *typ as int);
                crate::lemma_padding_bound(item_alignment.spec_size(), *item_size as nat);
                crate::lemma_padding_bound(item_alignment.spec_size(), 4);
                assert(((*item_size as u128) + (*item_padding as u128)) * (count as u128)
                    <= 0x1_0000_0006u128 * 0xFFFF_FFFFu128 && ((*item_size as u128) + (
                *item_padding as u128)) * (count as u128) >= (*item_size as u128) + (
                *item_padding as u128)) by (nonlinear_arith)
                    requires
                        1 <= (*item_size as u128) + (*item_padding as u128) <= 0x1_0000_0006u128,
                        1 <= (count as u128) <= 0xFFFF_FFFFu128,
                ;
            }
            let total128: u128 = 4 + (*header_padding as u128) + ((*item_size as u128) + (
            *item_padding as u128)) * (count as u128) - (*item_padding as u128);
            if total128 > 0xFFFF_FFFFu128 {
                None
            } else {
                Some(total128 as usize)
            }
        },
        _ => {
            proof {
                assert(false);
            }
            None
        },
    }
}

/// The length [`build_union`] would emit for an inner value of `inner_len`
/// bytes; `None` when it cannot fit in a wire number.
pub fn union_expected_length(inner_len: usize) -> (r: Option<usize>)
    ensures
        match r {
            Some(v) => v == 8 + inner_len && 8 + inner_len <= u32::MAX,
            None => 8 + inner_len > u32::MAX,
        },
{
    let total128: u128 = 8 + (inner_len as u128);
    if total128 > 0xFFFF_FFFFu128 {
        None
    } else {
        Some(total128 as usize)
    }
}

} // verus!
