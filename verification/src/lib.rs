//! Schema-driven, zero-copy binary serialization.
//!
//! A schema declares algebraic types (atoms, arrays, structs, vectors,
//! options, unions, tables).  This crate resolves such declarations into a
//! layout-annotated graph ([`ast`], [`resolve`]), defines the canonical wire
//! format over that graph ([`wire`]), and provides verified algorithms for
//! producing default contents ([`defaults`]), validating untrusted byte
//! slices ([`verify`]), locating sub-components without copying
//! ([`decode`]), and rendering composed values to bytes ([`builder`]).
//!
//! This module holds the shared primitives: the wire integer type, the
//! alignment lattice, and the padding arithmetic everything else is built
//! from.

pub mod ast;
pub mod builder;
pub mod decode;
pub mod defaults;
pub mod entity;
pub mod error;
pub mod laws;
pub mod resolve;
pub mod verify;
pub mod wire;

use vstd::bytes::{spec_u32_from_le_bytes, spec_u32_to_le_bytes, u32_from_le_bytes, u32_to_le_bytes};
use vstd::prelude::*;
use vstd::slice::slice_subrange;

verus! {

/// Wire integer: unsigned 32-bit, little-endian on the wire.  Encodes sizes,
/// offsets, item counts and union tags.
pub type Number = u32;

/// Bytes a [`Number`] occupies on the wire.
pub const NUMBER_SIZE: usize = 4;

/// The byte used for all padding on the wire.
pub const PADDING_CHAR: u8 = 0x00;

/// An alignment: a power of two in {1, 2, 4, 8}.
#[derive(Debug, Clone, Copy, PartialEq, Eq, Structural)]
pub enum Alignment {
    Byte1,
    Byte2,
    Byte4,
    Byte8,
}

impl Alignment {
    /// The alignment as a number of bytes.
    pub open spec fn spec_size(self) -> nat {
        match self {
            Alignment::Byte1 => 1,
            Alignment::Byte2 => 2,
            Alignment::Byte4 => 4,
            Alignment::Byte8 => 8,
        }
    }

    /// The alignment derived from a raw byte count: 1 for 1, 2 for 2, 4 for
    /// 3 or 4, and 8 for anything larger.
    pub open spec fn spec_for_size(size: nat) -> Alignment {
        if size == 1 {
            Alignment::Byte1
        } else if size == 2 {
            Alignment::Byte2
        } else if size == 3 || size == 4 {
            Alignment::Byte4
        } else {
            Alignment::Byte8
        }
    }

    /// The larger of two alignments.
    pub open spec fn spec_max(a: Alignment, b: Alignment) -> Alignment {
        if a.spec_size() >= b.spec_size() {
            a
        } else {
            b
        }
    }

    pub fn as_usize(self) -> (n: usize)
        ensures
            n == self.spec_size(),
    {
        match self {
            Alignment::Byte1 => 1,
            Alignment::Byte2 => 2,
            Alignment::Byte4 => 4,
            Alignment::Byte8 => 8,
        }
    }

    pub fn for_size(size: usize) -> (r: Alignment)
        ensures
            r == Alignment::spec_for_size(size as nat),
    {
        match size {
            1 => Alignment::Byte1,
            2 => Alignment::Byte2,
            3 | 4 => Alignment::Byte4,
            _ => Alignment::Byte8,
        }
    }

    /// The larger of two alignments.
    pub fn max_with(self, other: Alignment) -> (r: Alignment)
        ensures
            r == Alignment::spec_max(self, other),
    {
        if self.as_usize() >= other.as_usize() {
            self
        } else {
            other
        }
    }

    /// Zero bytes needed after `size` bytes so that the next offset is a
    /// multiple of this alignment.
    pub fn calc_padding(self, size: usize) -> (r: usize)
        ensures
            r == spec_padding(self.spec_size(), size as nat),
            r < self.spec_size(),
    {
        let alignment_size = self.as_usize();
        let extra_size = size % alignment_size;
        if extra_size == 0 {
            0
        } else {
            alignment_size - extra_size
        }
    }

    /// `size` rounded up to the next multiple of this alignment.
    pub fn calc_full_size(self, size: usize) -> (r: usize)
        requires
            size + 8 <= usize::MAX,
        ensures
            r == spec_full_size(self.spec_size(), size as nat),
    {
        size + self.calc_padding(size)
    }
}

/// `(align - size mod align) mod align`: the padding needed after `size`
/// bytes to reach an `align`-aligned offset.
pub open spec fn spec_padding(align: nat, size: nat) -> nat
    recommends
        align > 0,
{
    if size % align == 0 {
        0
    } else {
        (align - size % align) as nat
    }
}

/// Padding never reaches a full alignment step.
pub proof fn lemma_padding_bound(align: nat, size: nat)
    requires
        1 <= align,
    ensures
        spec_padding(align, size) < align,
{
}

/// `size` plus the padding to reach an `align`-aligned offset.
pub open spec fn spec_full_size(align: nat, size: nat) -> nat {
    size + spec_padding(align, size)
}

/// A sequence of `n` zero bytes.
pub open spec fn zeros(n: nat) -> Seq<u8> {
    Seq::new(n, |i: int| 0u8)
}

/// Every byte of `b` is the padding byte.
pub open spec fn all_zero(b: Seq<u8>) -> bool {
    forall|k: int| 0 <= k < b.len() ==> b[k] == 0u8
}

/// The wire number stored little-endian at `b[pos..pos + 4]`.
pub open spec fn spec_read_number(b: Seq<u8>, pos: int) -> Number
    recommends
        0 <= pos,
        pos + 4 <= b.len(),
{
    spec_u32_from_le_bytes(b.subrange(pos, pos + 4))
}

/// The canonical 4-byte little-endian encoding of `num`.
pub open spec fn spec_number_bytes(num: Number) -> Seq<u8> {
    spec_u32_to_le_bytes(num)
}

/// Reading back the 4 bytes written for a number yields that number, and the
/// encoding is 4 bytes long.
pub proof fn lemma_number_roundtrip(num: Number)
    ensures
        spec_number_bytes(num).len() == 4,
        spec_read_number(spec_number_bytes(num), 0) == num,
{
    vstd::bytes::lemma_auto_spec_u32_to_from_le_bytes();
    assert(spec_number_bytes(num).subrange(0, 4) =~= spec_number_bytes(num));
}

/// Decode the wire number at the front of `slice`.
pub fn unpack_number(slice: &[u8]) -> (n: Number)
    requires
        slice@.len() >= 4,
    ensures
        n == spec_read_number(slice@, 0),
{
    let four = slice_subrange(slice, 0, 4);
    u32_from_le_bytes(four)
}

/// Decode the wire number stored at byte offset `pos` of `slice`.
pub fn read_number_at(slice: &[u8], pos: usize) -> (n: Number)
    requires
        pos + 4 <= slice@.len(),
    ensures
        n == spec_read_number(slice@, pos as int),
{
    let len = slice.len();
    proof {
        assert(pos + 4 <= len);
    }
    let sub = slice_subrange(slice, pos, pos + 4);
    let n = u32_from_le_bytes(sub);
    proof {
        assert(sub@ =~= slice@.subrange(pos as int, pos as int + 4));
    }
    n
}

/// Encode `num` as its 4 little-endian wire bytes.
pub fn pack_number(num: Number) -> (r: Vec<u8>)
    ensures
        r@ == spec_number_bytes(num),
        r@.len() == 4,
{
    u32_to_le_bytes(num)
}

/// True exactly when every byte of `slice` is the padding byte.
pub fn check_padding(slice: &[u8]) -> (r: bool)
    ensures
        r == all_zero(slice@),
{
    let len = slice.len();
    let mut k: usize = 0;
    while k < len
        invariant
            0 <= k <= len,
            len == slice@.len(),
            forall|j: int| 0 <= j < k ==> slice@[j] == 0u8,
        decreases len - k,
    {
        if *vstd::slice::slice_index_get(slice, k) != PADDING_CHAR {
            return false;
        }
        k = k + 1;
    }
    true
}

/// An empty output buffer with room for `size` bytes.
pub fn create_content(size: usize) -> (r: Vec<u8>)
    ensures
        r@.len() == 0,
{
    Vec::with_capacity(size)
}

/// Append `size` padding bytes to `writer`.
pub fn write_padding(writer: &mut Vec<u8>, size: usize) -> (r: ())
    requires
        old(writer)@.len() + size <= usize::MAX,
    ensures
        final(writer)@ == old(writer)@ + zeros(size as nat),
{
    let mut k: usize = 0;
    while k < size
        invariant
            0 <= k <= size,
            writer@.len() == old(writer)@.len() + k,
            writer@ == old(writer)@ + zeros(k as nat),
            old(writer)@.len() + size <= usize::MAX,
        decreases size - k,
    {
        writer.push(PADDING_CHAR);
        proof {
            assert(writer@ =~= old(writer)@ + zeros((k + 1) as nat));
        }
        k = k + 1;
    }
}

} // verus!
