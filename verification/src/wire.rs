//! The canonical wire format, stated over the resolved arena.
//!
//! [`valid_encoding`] is the ground truth the verifier is proved against:
//! it says exactly which byte sequences are well-formed encodings of a
//! resolved type.  [`peek_spec`] gives the length a well-formed value claims
//! for itself, read from its header alone.

use crate::ast::{ast_wf, fixed_size_of, struct_offset, FieldDecl, TopDecl};
use crate::{all_zero, spec_padding, spec_read_number};
use vstd::prelude::*;

verus! {

/// Guard under which the recursive format functions unfold: the arena is
/// well-formed and `i` is in range.
pub open spec fn wire_wf(d: Seq<TopDecl>, i: int) -> bool {
    ast_wf(d) && 0 <= i < d.len()
}

/// The length the value starting at `b`'s origin claims for itself,
/// computed from its header alone.  Fixed-size shapes know it from the
/// schema; an option is empty or defers to its inner type; every other
/// shape reads it from its header.  `None` when `b` is too short to hold
/// the header.
pub open spec fn peek_spec(d: Seq<TopDecl>, i: int, b: Seq<u8>) -> Option<int>
    decreases i, 0int,
        when wire_wf(d, i)
        via peek_spec_decreases
{
    match d[i] {
        TopDecl::Atom { .. } => Some(1int),
        TopDecl::Option_ { typ, .. } => if b.len() == 0 {
            Some(0int)
        } else {
            peek_spec(d, typ as int, b)
        },
        TopDecl::Union { .. } => if b.len() >= 8 {
            Some(spec_read_number(b, 0) as int)
        } else {
            None
        },
        TopDecl::Array { .. } => fixed_size_of(d, i),
        TopDecl::Struct { .. } => fixed_size_of(d, i),
        TopDecl::FixVec { item_size, item_padding, header_padding, .. } => if b.len() >= 4 {
            let c = spec_read_number(b, 0) as int;
            if c == 0 {
                Some(4int)
            } else {
                Some(4 + header_padding + (item_size + item_padding) * c - item_padding)
            }
        } else {
            None
        },
        TopDecl::DynVec { .. } => if b.len() >= 4 {
            Some(spec_read_number(b, 0) as int)
        } else {
            None
        },
        TopDecl::Table { .. } => if b.len() >= 4 {
            Some(spec_read_number(b, 0) as int)
        } else {
            None
        },
    }
}

#[via_fn]
proof fn peek_spec_decreases(d: Seq<TopDecl>, i: int, b: Seq<u8>) {
    assert(crate::ast::decl_wf(d, i));
}

/// [`peek_spec`], defaulting to 0 where no header can be read.
pub open spec fn peek_val(d: Seq<TopDecl>, i: int, b: Seq<u8>) -> int {
    match peek_spec(d, i, b) {
        Some(n) => n,
        None => 0int,
    }
}

/// The bytes of item `j` in a run of fixed-size items of size `s` with
/// inter-item padding `p`, the run starting at `base`.
pub open spec fn fixed_item_at(b: Seq<u8>, base: int, s: int, p: int, j: int) -> Seq<u8> {
    b.subrange(base + (s + p) * j, base + (s + p) * j + s)
}

/// The padding bytes before item `j` (for `j >= 1`) in such a run.
pub open spec fn fixed_pad_at(b: Seq<u8>, base: int, s: int, p: int, j: int) -> Seq<u8> {
    b.subrange(base + (s + p) * j - p, base + (s + p) * j)
}

/// The `j`-th offset-table entry of a dyn-vector or table slice.
pub open spec fn dv_off(b: Seq<u8>, j: int) -> int {
    spec_read_number(b, 8 + 4 * j) as int
}

/// The exclusive extent handed to item `j` while scanning: the next offset,
/// or the end of the slice for the last entry of the offset table.
pub open spec fn dv_ext_end(b: Seq<u8>, count: int, j: int) -> int {
    if j == count - 1 {
        b.len() as int
    } else {
        dv_off(b, j + 1)
    }
}

/// Where the previous dyn-vector item ended: the header's end for item 0,
/// otherwise the previous item's offset plus its claimed length.
pub open spec fn dv_prev_end(d: Seq<TopDecl>, t: int, b: Seq<u8>, count: int, j: int) -> int
    decreases j,
{
    if j <= 0 {
        8 + 4 * count
    } else {
        let s = dv_off(b, j - 1);
        s + peek_val(d, t, b.subrange(s, dv_ext_end(b, count, j - 1)))
    }
}

/// Item `j` of a dyn-vector of item type `t`, except for the recursion into
/// the item itself: the gap since the previous item is zero padding, the
/// item's header is readable, and the last item stays inside the slice.
pub open spec fn dv_item_frame(d: Seq<TopDecl>, t: int, b: Seq<u8>, count: int, j: int) -> bool {
    let start = dv_off(b, j);
    let next = dv_ext_end(b, count, j);
    let pe = dv_prev_end(d, t, b, count, j);
    let pk = peek_val(d, t, b.subrange(start, next));
    &&& pe <= start
    &&& all_zero(b.subrange(pe, start))
    &&& peek_spec(d, t, b.subrange(start, next)) is Some
    &&& (j == count - 1 ==> start + pk <= b.len())
}

/// The bytes of item `j` of a dyn-vector, trimmed to its claimed length.
pub open spec fn dv_item_slice(d: Seq<TopDecl>, t: int, b: Seq<u8>, count: int, j: int) -> Seq<
    u8,
> {
    let start = dv_off(b, j);
    let pk = peek_val(d, t, b.subrange(start, dv_ext_end(b, count, j)));
    b.subrange(start, start + pk)
}

/// Where the previous table field ended: `hs0` (the header's end) for field
/// 0, otherwise the previous field's offset plus its claimed length.
pub open spec fn tb_prev_end(
    d: Seq<TopDecl>,
    fields: Seq<FieldDecl>,
    b: Seq<u8>,
    fc: int,
    hs0: int,
    j: int,
) -> int
    decreases j,
{
    if j <= 0 {
        hs0
    } else {
        let s = dv_off(b, j - 1);
        s + peek_val(d, fields[j - 1].typ as int, b.subrange(s, dv_ext_end(b, fc, j - 1)))
    }
}

/// Declared field `j` of a table whose wire header carries `fc` offsets,
/// except for the recursion into the field itself: the gap since the
/// previous field is zero padding, the field's header is readable, and the
/// last declared field stays inside the slice.
pub open spec fn tb_item_frame(
    d: Seq<TopDecl>,
    fields: Seq<FieldDecl>,
    b: Seq<u8>,
    fc: int,
    hs0: int,
    j: int,
) -> bool {
    let t = fields[j].typ as int;
    let start = dv_off(b, j);
    let next = dv_ext_end(b, fc, j);
    let pe = tb_prev_end(d, fields, b, fc, hs0, j);
    let pk = peek_val(d, t, b.subrange(start, next));
    &&& pe <= start
    &&& all_zero(b.subrange(pe, start))
    &&& peek_spec(d, t, b.subrange(start, next)) is Some
    &&& (j == fields.len() - 1 ==> start + pk <= b.len())
}

/// The bytes of declared field `j` of a table, trimmed to the field's
/// claimed length.
pub open spec fn tb_item_slice(
    d: Seq<TopDecl>,
    fields: Seq<FieldDecl>,
    b: Seq<u8>,
    fc: int,
    j: int,
) -> Seq<u8> {
    let t = fields[j].typ as int;
    let start = dv_off(b, j);
    let pk = peek_val(d, t, b.subrange(start, dv_ext_end(b, fc, j)));
    b.subrange(start, start + pk)
}

/// Items `j` onward of a dyn-vector of item type `t` are in order: each
/// satisfies its frame conditions and is itself a valid encoding.
pub open spec fn dv_items_valid(
    d: Seq<TopDecl>,
    t: int,
    b: Seq<u8>,
    count: int,
    j: int,
    compatible: bool,
) -> bool
    decreases t, 2int, count - j,
        when wire_wf(d, t) && 0 <= j <= count
{
    if j >= count {
        true
    } else {
        &&& dv_item_frame(d, t, b, count, j)
        &&& valid_encoding(d, t, dv_item_slice(d, t, b, count, j), compatible)
        &&& dv_items_valid(d, t, b, count, j + 1, compatible)
    }
}

/// Declared fields `j` onward of a table at arena index `i` are in order:
/// each satisfies its frame conditions and is itself a valid encoding.
pub open spec fn tb_items_valid(
    d: Seq<TopDecl>,
    i: int,
    fields: Seq<FieldDecl>,
    b: Seq<u8>,
    fc: int,
    hs0: int,
    j: int,
    compatible: bool,
) -> bool
    decreases i, 0int, fields.len() - j,
        when ast_wf(d) && 0 <= i < d.len() && 0 <= j <= fields.len() && (forall|l: int|
            0 <= l < fields.len() ==> 0 <= #[trigger] fields[l].typ < i)
{
    if j >= fields.len() {
        true
    } else {
        &&& tb_item_frame(d, fields, b, fc, hs0, j)
        &&& valid_encoding(d, fields[j].typ as int, tb_item_slice(d, fields, b, fc, j), compatible)
        &&& tb_items_valid(d, i, fields, b, fc, hs0, j + 1, compatible)
    }
}

/// `b` is a well-formed encoding of arena entry `i`.  With `compatible`
/// set, a table accepts a wire field count above its declared one.
pub open spec fn valid_encoding(d: Seq<TopDecl>, i: int, b: Seq<u8>, compatible: bool) -> bool
    decreases i, 1int, 0int,
        when wire_wf(d, i)
        via valid_encoding_decreases
{
    match d[i] {
        TopDecl::Atom { .. } => b.len() == 1,
        TopDecl::Option_ { typ, .. } => b.len() == 0 || valid_encoding(
            d,
            typ as int,
            b,
            compatible,
        ),
        TopDecl::Union { items, .. } => {
            &&& b.len() >= 8
            &&& spec_read_number(b, 0) as int == b.len()
            &&& (spec_read_number(b, 4) as int) < items@.len()
            &&& valid_encoding(
                d,
                items@[spec_read_number(b, 4) as int] as int,
                b.skip(8),
                compatible,
            )
        },
        TopDecl::Array { typ, item_size, item_padding, item_count, .. } => {
            let s = item_size as int;
            let p = item_padding as int;
            let k = item_count as int;
            &&& b.len() == (s + p) * k - p
            &&& forall|j: int|
                0 <= j < k ==> valid_encoding(
                    d,
                    typ as int,
                    #[trigger] fixed_item_at(b, 0, s, p, j),
                    compatible,
                )
            &&& forall|j: int| 1 <= j < k ==> all_zero(#[trigger] fixed_pad_at(b, 0, s, p, j))
        },
        TopDecl::Struct { fields, field_sizes, field_paddings, .. } => {
            let n = fields@.len() as int;
            &&& b.len() == struct_offset(field_sizes@, field_paddings@, n)
            &&& forall|j: int|
                0 <= j < n ==> all_zero(
                    b.subrange(
                        struct_offset(field_sizes@, field_paddings@, j),
                        struct_offset(field_sizes@, field_paddings@, j) + field_paddings@[j],
                    ),
                )
            &&& forall|j: int|
                0 <= j < n ==> valid_encoding(
                    d,
                    #[trigger] fields@[j].typ as int,
                    b.subrange(
                        struct_offset(field_sizes@, field_paddings@, j) + field_paddings@[j],
                        struct_offset(field_sizes@, field_paddings@, j) + field_paddings@[j]
                            + field_sizes@[j],
                    ),
                    compatible,
                )
        },
        TopDecl::FixVec { typ, item_size, item_padding, header_padding, .. } => {
            let s = item_size as int;
            let p = item_padding as int;
            let hp = header_padding as int;
            &&& b.len() >= 4
            &&& {
                let c = spec_read_number(b, 0) as int;
                if c == 0 {
                    b.len() == 4
                } else {
                    &&& b.len() == 4 + hp + (s + p) * c - p
                    &&& all_zero(b.subrange(4, 4 + hp))
                    &&& forall|j: int|
                        0 <= j < c ==> valid_encoding(
                            d,
                            typ as int,
                            #[trigger] fixed_item_at(b, 4 + hp, s, p, j),
                            compatible,
                        )
                    &&& forall|j: int|
                        1 <= j < c ==> all_zero(#[trigger] fixed_pad_at(b, 4 + hp, s, p, j))
                }
            }
        },
        TopDecl::DynVec { typ, .. } => {
            &&& b.len() >= 8
            &&& spec_read_number(b, 0) as int == b.len()
            &&& {
                let c = spec_read_number(b, 4) as int;
                if c == 0 {
                    b.len() == 8
                } else {
                    &&& b.len() >= 8 + 4 * c
                    &&& forall|j: int| 0 <= j < c ==> #[trigger] dv_off(b, j) <= dv_ext_end(b, c, j)
                    &&& dv_items_valid(d, typ as int, b, c, 0, compatible)
                }
            }
        },
        TopDecl::Table { fields, .. } => {
            let n = fields@.len() as int;
            if n == 0 {
                &&& b.len() >= 8
                &&& spec_read_number(b, 0) as int == b.len()
                &&& (compatible || spec_read_number(b, 4) as int == 0)
            } else {
                &&& b.len() >= 4 * (2 + n)
                &&& spec_read_number(b, 0) as int == b.len()
                &&& {
                    let fc = spec_read_number(b, 4) as int;
                    &&& fc >= n
                    &&& (compatible || fc == n)
                    &&& b.len() >= 4 * (2 + fc)
                    &&& forall|j: int|
                        0 <= j < fc ==> #[trigger] dv_off(b, j) <= dv_ext_end(b, fc, j)
                    &&& tb_items_valid(d, i, fields@, b, fc, 4 * (2 + fc), 0, compatible)
                }
            }
        },
    }
}

#[via_fn]
proof fn valid_encoding_decreases(d: Seq<TopDecl>, i: int, b: Seq<u8>, compatible: bool) {
    assert(crate::ast::decl_wf(d, i));
}

/// Bounds for the start and end of item `j` in a run of `k` fixed-size
/// items.
pub proof fn lemma_fixed_run_bounds(s: int, p: int, k: int, j: int)
    requires
        s >= 1,
        p >= 0,
        0 <= j < k,
    ensures
        0 <= (s + p) * j,
        (s + p) * j + s <= (s + p) * k - p,
        (s + p) * (j + 1) == (s + p) * j + s + p,
        j >= 1 ==> (s + p) * j >= s + p,
{
    assert(0 <= (s + p) * j) by (nonlinear_arith)
        requires
            s >= 1,
            p >= 0,
            j >= 0,
    ;
    if j >= 1 {
        assert((s + p) * j >= s + p) by (nonlinear_arith)
            requires
                s >= 1,
                p >= 0,
                j >= 1,
        ;
    }
    assert((s + p) * j + s + p <= (s + p) * k) by (nonlinear_arith)
        requires
            s >= 1,
            p >= 0,
            j < k,
    ;
    assert((s + p) * (j + 1) == (s + p) * j + s + p) by (nonlinear_arith);
}

/// In a slice whose offset table is monotone with the slice's end as
/// sentinel, every offset stays within the slice.
pub proof fn lemma_dv_off_le_len(b: Seq<u8>, c: int, j: int)
    requires
        forall|l: int| 0 <= l < c ==> dv_off(b, l) <= dv_ext_end(b, c, l),
        0 <= j < c,
    ensures
        dv_off(b, j) <= b.len(),
    decreases c - j,
{
    if j == c - 1 {
        assert(dv_off(b, j) <= dv_ext_end(b, c, j));
    } else {
        lemma_dv_off_le_len(b, c, j + 1);
        assert(dv_off(b, j) <= dv_ext_end(b, c, j));
    }
}

/// The fixed size of a fixed-size declaration lies between 1 and the
/// largest wire number.
pub proof fn lemma_fixed_size_bounds(d: Seq<TopDecl>, t: int)
    requires
        ast_wf(d),
        0 <= t < d.len(),
        fixed_size_of(d, t) is Some,
    ensures
        1 <= fixed_size_of(d, t).unwrap() <= u32::MAX as int,
{
    assert(crate::ast::decl_wf(d, t));
    match d[t] {
        TopDecl::Atom { .. } => {},
        TopDecl::Array { item_size, item_padding, item_count, .. } => {
            lemma_array_total_bounds(item_size as int, item_padding as int, item_count as int);
        },
        TopDecl::Struct { field_sizes, field_paddings, .. } => {
            let n = field_sizes@.len() as int;
            assert(struct_offset(field_sizes@, field_paddings@, 1) >= 1);
            lemma_struct_offset_mono(field_sizes@, field_paddings@, 1, n);
        },
        _ => {},
    }
}

/// A claimed length is never astronomical: whatever the bytes say, the
/// value read from a header stays below 2^65.
pub proof fn lemma_peek_bound(d: Seq<TopDecl>, i: int, b: Seq<u8>)
    requires
        wire_wf(d, i),
        peek_spec(d, i, b) is Some,
    ensures
        0 <= peek_spec(d, i, b).unwrap() < 0x2_0000_0000_0000_0000,
    decreases i,
{
    assert(crate::ast::decl_wf(d, i));
    match d[i] {
        TopDecl::Option_ { typ, .. } => {
            if b.len() != 0 {
                lemma_peek_bound(d, typ as int, b);
            }
        },
        TopDecl::Array { .. } => {
            lemma_fixed_size_bounds(d, i);
        },
        TopDecl::Struct { .. } => {
            lemma_fixed_size_bounds(d, i);
        },
        TopDecl::FixVec { typ, item_size, item_padding, header_padding, item_alignment, .. } => {
            let c = spec_read_number(b, 0) as int;
            if b.len() >= 4 && c != 0 {
                lemma_fixed_size_bounds(d, typ as int);
                crate::lemma_padding_bound(item_alignment.spec_size(), item_size as nat);
                crate::lemma_padding_bound(item_alignment.spec_size(), 4);
                assert((item_size + item_padding) * c <= 0x1_0000_0006 * 0xFFFF_FFFF)
                    by (nonlinear_arith)
                    requires
                        0 <= item_size + item_padding <= 0x1_0000_0006,
                        0 <= c <= 0xFFFF_FFFF,
                ;
            }
        },
        _ => {},
    }
}

/// Items that each satisfy their frame conditions and verify, taken
/// together, form a valid item chain.
pub proof fn lemma_dv_items_fold(
    d: Seq<TopDecl>,
    t: int,
    b: Seq<u8>,
    count: int,
    j: int,
    compatible: bool,
)
    requires
        wire_wf(d, t),
        0 <= j <= count,
        forall|l: int| j <= l < count ==> #[trigger] dv_item_frame(d, t, b, count, l),
        forall|l: int|
            j <= l < count ==> valid_encoding(
                d,
                t,
                #[trigger] dv_item_slice(d, t, b, count, l),
                compatible,
            ),
    ensures
        dv_items_valid(d, t, b, count, j, compatible),
    decreases count - j,
{
    if j < count {
        lemma_dv_items_fold(d, t, b, count, j + 1, compatible);
    }
}

/// From a valid item chain, every single item satisfies its frame
/// conditions and verifies.
pub proof fn lemma_dv_items_index(
    d: Seq<TopDecl>,
    t: int,
    b: Seq<u8>,
    count: int,
    l: int,
    j: int,
    compatible: bool,
)
    requires
        wire_wf(d, t),
        0 <= l <= j < count,
        dv_items_valid(d, t, b, count, l, compatible),
    ensures
        dv_item_frame(d, t, b, count, j),
        valid_encoding(d, t, dv_item_slice(d, t, b, count, j), compatible),
    decreases j - l,
{
    if l < j {
        lemma_dv_items_index(d, t, b, count, l + 1, j, compatible);
    }
}

/// A dyn-vector slice with a failing item is not a valid encoding.
pub proof fn lemma_dynvec_invalid_item(
    d: Seq<TopDecl>,
    i: int,
    b: Seq<u8>,
    c: int,
    j: int,
    compatible: bool,
)
    requires
        wire_wf(d, i),
        d[i] is DynVec,
        spec_read_number(b, 4) as int == c,
        0 <= j < c,
        !dv_item_frame(d, d[i]->DynVec_typ as int, b, c, j) || !valid_encoding(
            d,
            d[i]->DynVec_typ as int,
            dv_item_slice(d, d[i]->DynVec_typ as int, b, c, j),
            compatible,
        ),
    ensures
        !valid_encoding(d, i, b, compatible),
{
    assert(crate::ast::decl_wf(d, i));
    if valid_encoding(d, i, b, compatible) {
        lemma_dv_items_index(d, d[i]->DynVec_typ as int, b, c, 0, j, compatible);
    }
}

/// A dyn-vector slice whose offset table fails the monotonicity check is
/// not a valid encoding.
pub proof fn lemma_dynvec_invalid_offset(
    d: Seq<TopDecl>,
    i: int,
    b: Seq<u8>,
    c: int,
    j: int,
    compatible: bool,
)
    requires
        wire_wf(d, i),
        d[i] is DynVec,
        spec_read_number(b, 4) as int == c,
        0 <= j < c,
        !(dv_off(b, j) <= dv_ext_end(b, c, j)),
    ensures
        !valid_encoding(d, i, b, compatible),
{
    if valid_encoding(d, i, b, compatible) {
        assert(dv_off(b, j) <= dv_ext_end(b, c, j));
    }
}

/// Declared fields that each satisfy their frame conditions and verify,
/// taken together, form a valid field chain.
pub proof fn lemma_tb_items_fold(
    d: Seq<TopDecl>,
    i: int,
    fields: Seq<FieldDecl>,
    b: Seq<u8>,
    fc: int,
    hs0: int,
    j: int,
    compatible: bool,
)
    requires
        wire_wf(d, i),
        forall|l: int| 0 <= l < fields.len() ==> 0 <= #[trigger] fields[l].typ < i,
        0 <= j <= fields.len(),
        forall|l: int| j <= l < fields.len() ==> #[trigger] tb_item_frame(d, fields, b, fc, hs0, l),
        forall|l: int|
            j <= l < fields.len() ==> valid_encoding(
                d,
                fields[l].typ as int,
                #[trigger] tb_item_slice(d, fields, b, fc, l),
                compatible,
            ),
    ensures
        tb_items_valid(d, i, fields, b, fc, hs0, j, compatible),
    decreases fields.len() - j,
{
    if j < fields.len() {
        lemma_tb_items_fold(d, i, fields, b, fc, hs0, j + 1, compatible);
    }
}

/// From a valid field chain, every single declared field satisfies its
/// frame conditions and verifies.
pub proof fn lemma_tb_items_index(
    d: Seq<TopDecl>,
    i: int,
    fields: Seq<FieldDecl>,
    b: Seq<u8>,
    fc: int,
    hs0: int,
    l: int,
    j: int,
    compatible: bool,
)
    requires
        wire_wf(d, i),
        forall|k: int| 0 <= k < fields.len() ==> 0 <= #[trigger] fields[k].typ < i,
        0 <= l <= j < fields.len(),
        tb_items_valid(d, i, fields, b, fc, hs0, l, compatible),
    ensures
        tb_item_frame(d, fields, b, fc, hs0, j),
        valid_encoding(d, fields[j].typ as int, tb_item_slice(d, fields, b, fc, j), compatible),
    decreases j - l,
{
    if l < j {
        lemma_tb_items_index(d, i, fields, b, fc, hs0, l + 1, j, compatible);
    }
}

/// A table slice with a failing declared field is not a valid encoding.
pub proof fn lemma_table_invalid_item(
    d: Seq<TopDecl>,
    i: int,
    b: Seq<u8>,
    fc: int,
    j: int,
    compatible: bool,
)
    requires
        wire_wf(d, i),
        d[i] is Table,
        d[i]->Table_fields@.len() >= 1,
        spec_read_number(b, 4) as int == fc,
        0 <= j < d[i]->Table_fields@.len(),
        !tb_item_frame(d, d[i]->Table_fields@, b, fc, 4 * (2 + fc), j) || !valid_encoding(
            d,
            d[i]->Table_fields@[j].typ as int,
            tb_item_slice(d, d[i]->Table_fields@, b, fc, j),
            compatible,
        ),
    ensures
        !valid_encoding(d, i, b, compatible),
{
    assert(crate::ast::decl_wf(d, i));
    if valid_encoding(d, i, b, compatible) {
        lemma_tb_items_index(
            d,
            i,
            d[i]->Table_fields@,
            b,
            fc,
            4 * (2 + fc),
            0,
            j,
            compatible,
        );
    }
}

/// A table slice whose offset table fails the monotonicity check is not a
/// valid encoding.
pub proof fn lemma_table_invalid_offset(
    d: Seq<TopDecl>,
    i: int,
    b: Seq<u8>,
    fc: int,
    j: int,
    compatible: bool,
)
    requires
        wire_wf(d, i),
        d[i] is Table,
        d[i]->Table_fields@.len() >= 1,
        spec_read_number(b, 4) as int == fc,
        0 <= j < fc,
        !(dv_off(b, j) <= dv_ext_end(b, fc, j)),
    ensures
        !valid_encoding(d, i, b, compatible),
{
    if valid_encoding(d, i, b, compatible) {
        assert(dv_off(b, j) <= dv_ext_end(b, fc, j));
    }
}

/// The struct-offset prefix sums are non-negative and monotone.
pub proof fn lemma_struct_offset_mono(sizes: Seq<usize>, paddings: Seq<usize>, a: int, b: int)
    requires
        0 <= a <= b,
    ensures
        0 <= struct_offset(sizes, paddings, a) <= struct_offset(sizes, paddings, b),
    decreases b,
{
    if b > 0 {
        if a == b {
            lemma_struct_offset_mono(sizes, paddings, 0, b - 1);
        } else {
            lemma_struct_offset_mono(sizes, paddings, a, b - 1);
        }
    }
}

/// An array's total size, rewritten without the subtraction, with the
/// bounds the executable arithmetic needs.
pub proof fn lemma_array_total_bounds(s: int, p: int, k: int)
    requires
        s >= 1,
        p >= 0,
        k >= 1,
    ensures
        (s + p) * k - p == s * k + p * (k - 1),
        s * k >= s,
        p * (k - 1) >= 0,
        (s + p) * k - p >= s,
        forall|j: int| 0 <= j <= k ==> 0 <= #[trigger] ((s + p) * j) <= (s + p) * k,
{
    assert((s + p) * k - p == s * k + p * (k - 1)) by (nonlinear_arith);
    assert(s * k >= s) by (nonlinear_arith)
        requires
            s >= 1,
            k >= 1,
    ;
    assert(p * (k - 1) >= 0) by (nonlinear_arith)
        requires
            p >= 0,
            k >= 1,
    ;
    assert forall|j: int| 0 <= j <= k implies 0 <= #[trigger] ((s + p) * j) <= (s + p) * k by {
        assert(0 <= (s + p) * j <= (s + p) * k) by (nonlinear_arith)
            requires
                s >= 1,
                p >= 0,
                0 <= j <= k,
        ;
    }
}

/// A verified slice's claimed length is exactly its length: `peek` on a
/// valid encoding returns the slice's own length, so the prefix it selects
/// is the whole slice.
pub proof fn lemma_peek_of_valid(d: Seq<TopDecl>, i: int, b: Seq<u8>, compatible: bool)
    requires
        wire_wf(d, i),
        valid_encoding(d, i, b, compatible),
    ensures
        peek_spec(d, i, b) == Some(b.len() as int),
    decreases i,
{
    assert(crate::ast::decl_wf(d, i));
    match d[i] {
        TopDecl::Option_ { typ, .. } => {
            if b.len() != 0 {
                lemma_peek_of_valid(d, typ as int, b, compatible);
            }
        },
        _ => {},
    }
}

/// A claimed length read from a valid value does not change when trailing
/// bytes are appended: `peek` looks only at the header.
pub proof fn lemma_peek_extend(d: Seq<TopDecl>, t: int, c: Seq<u8>, ext: Seq<u8>, compatible: bool)
    requires
        wire_wf(d, t),
        valid_encoding(d, t, c, compatible),
        ext.len() >= c.len(),
        ext.subrange(0, c.len() as int) == c,
        c.len() >= 1 || ext.len() == 0,
    ensures
        peek_spec(d, t, ext) == Some(c.len() as int),
    decreases t,
{
    assert(crate::ast::decl_wf(d, t));
    lemma_peek_of_valid(d, t, c, compatible);
    if c.len() >= 4 {
        assert(ext.subrange(0, 4) =~= c.subrange(0, 4));
        assert(spec_read_number(ext, 0) == spec_read_number(c, 0));
    }
    match d[t] {
        TopDecl::Option_ { typ, .. } => {
            if c.len() != 0 {
                lemma_peek_extend(d, typ as int, c, ext, compatible);
            }
        },
        _ => {},
    }
}

/// Whatever the strict mode accepts, the compatible mode accepts too.
pub proof fn lemma_valid_widen(d: Seq<TopDecl>, i: int, b: Seq<u8>)
    requires
        wire_wf(d, i),
        valid_encoding(d, i, b, false),
    ensures
        valid_encoding(d, i, b, true),
    decreases i, 1int, 0int,
{
    assert(crate::ast::decl_wf(d, i));
    match d[i] {
        TopDecl::Atom { .. } => {},
        TopDecl::Option_ { typ, .. } => {
            if b.len() != 0 {
                lemma_valid_widen(d, typ as int, b);
            }
        },
        TopDecl::Union { items, .. } => {
            lemma_valid_widen(d, items@[spec_read_number(b, 4) as int] as int, b.skip(8));
        },
        TopDecl::Array { typ, item_size, item_padding, item_count, .. } => {
            let s = item_size as int;
            let p = item_padding as int;
            let k = item_count as int;
            assert forall|j: int| 0 <= j < k implies valid_encoding(
                d,
                typ as int,
                #[trigger] fixed_item_at(b, 0, s, p, j),
                true,
            ) by {
                lemma_valid_widen(d, typ as int, fixed_item_at(b, 0, s, p, j));
            }
        },
        TopDecl::Struct { fields, field_sizes, field_paddings, .. } => {
            let n = fields@.len() as int;
            let sz = field_sizes@;
            let pd = field_paddings@;
            assert forall|j: int| 0 <= j < n implies valid_encoding(
                d,
                #[trigger] fields@[j].typ as int,
                b.subrange(
                    struct_offset(sz, pd, j) + pd[j],
                    struct_offset(sz, pd, j) + pd[j] + sz[j],
                ),
                true,
            ) by {
                lemma_valid_widen(
                    d,
                    fields@[j].typ as int,
                    b.subrange(
                        struct_offset(sz, pd, j) + pd[j],
                        struct_offset(sz, pd, j) + pd[j] + sz[j],
                    ),
                );
            }
        },
        TopDecl::FixVec { typ, item_size, item_padding, header_padding, .. } => {
            let s = item_size as int;
            let p = item_padding as int;
            let hp = header_padding as int;
            let c = spec_read_number(b, 0) as int;
            if c != 0 {
                assert forall|j: int| 0 <= j < c implies valid_encoding(
                    d,
                    typ as int,
                    #[trigger] fixed_item_at(b, 4 + hp, s, p, j),
                    true,
                ) by {
                    lemma_valid_widen(d, typ as int, fixed_item_at(b, 4 + hp, s, p, j));
                }
            }
        },
        TopDecl::DynVec { typ, .. } => {
            let c = spec_read_number(b, 4) as int;
            if c != 0 {
                lemma_dv_items_widen(d, typ as int, b, c, 0);
            }
        },
        TopDecl::Table { fields, .. } => {
            let n = fields@.len() as int;
            if n != 0 {
                let fc = spec_read_number(b, 4) as int;
                lemma_tb_items_widen(d, i, fields@, b, fc, 4 * (2 + fc), 0);
            }
        },
    }
}

/// [`lemma_valid_widen`], item chain of a dyn-vector.
proof fn lemma_dv_items_widen(d: Seq<TopDecl>, t: int, b: Seq<u8>, count: int, j: int)
    requires
        wire_wf(d, t),
        0 <= j <= count,
        dv_items_valid(d, t, b, count, j, false),
    ensures
        dv_items_valid(d, t, b, count, j, true),
    decreases t, 2int, count - j,
{
    if j < count {
        lemma_valid_widen(d, t, dv_item_slice(d, t, b, count, j));
        lemma_dv_items_widen(d, t, b, count, j + 1);
    }
}

/// [`lemma_valid_widen`], field chain of a table.
proof fn lemma_tb_items_widen(
    d: Seq<TopDecl>,
    i: int,
    fields: Seq<FieldDecl>,
    b: Seq<u8>,
    fc: int,
    hs0: int,
    j: int,
)
    requires
        wire_wf(d, i),
        forall|l: int| 0 <= l < fields.len() ==> 0 <= #[trigger] fields[l].typ < i,
        0 <= j <= fields.len(),
        tb_items_valid(d, i, fields, b, fc, hs0, j, false),
    ensures
        tb_items_valid(d, i, fields, b, fc, hs0, j, true),
    decreases i, 0int, fields.len() - j,
{
    if j < fields.len() {
        lemma_valid_widen(d, fields[j].typ as int, tb_item_slice(d, fields, b, fc, j));
        lemma_tb_items_widen(d, i, fields, b, fc, hs0, j + 1);
    }
}

} // verus!
