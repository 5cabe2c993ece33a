//! Typed access to serialized values: readers borrow a verified slice,
//! entities own their bytes.
//!
//! [`Molecule`] is the contract every serialized type offers: a
//! specification of its well-formed byte sequences and a checker proved
//! against it.  [`Reader`] wraps a borrowed slice, [`Entity`] an owned
//! buffer backed by [`bytes::Bytes`].

use crate::error::{VerificationError, VerificationResult};
use core::marker::PhantomData;
use vstd::prelude::*;

verus! {

/// A serialized type: a specification of its well-formed byte sequences,
/// and a checker that accepts exactly those.
pub trait Molecule: Sized {
    /// The byte sequences that are well-formed encodings of this type.
    spec fn valid(slice: Seq<u8>) -> bool;

    /// Check an untrusted byte slice.
    fn verify(slice: &[u8]) -> (r: VerificationResult<()>)
        ensures
            r is Ok <==> Self::valid(slice@),
    ;
}

/// The atom: any single byte.
impl Molecule for u8 {
    open spec fn valid(slice: Seq<u8>) -> bool {
        slice.len() == 1
    }

    fn verify(slice: &[u8]) -> (r: VerificationResult<()>) {
        if slice.len() == 1 {
            Ok(())
        } else {
            Err(VerificationError::TotalSizeNotMatch("u8".to_owned(), 1, slice.len()))
        }
    }
}

#[verifier::external_type_specification]
#[verifier::external_body]
pub struct ExBytes(bytes::Bytes);

/// What a [`bytes::Bytes`] buffer holds.
pub uninterp spec fn bytes_content(b: bytes::Bytes) -> Seq<u8>;

/// Relies on `bytes::Bytes::copy_from_slice`: the new buffer holds a copy
/// of the given slice.
#[verifier::external_body]
fn bytes_copy_from_slice(s: &[u8]) -> (r: bytes::Bytes)
    ensures
        bytes_content(r) == s@,
{
    bytes::Bytes::copy_from_slice(s)
}

/// Relies on the `Deref` impl of `bytes::Bytes`: a slice view of exactly
/// the buffer's contents.
#[verifier::external_body]
fn bytes_as_slice(b: &bytes::Bytes) -> (r: &[u8])
    ensures
        r@ == bytes_content(*b),
{
    &b[..]
}

/// A non-owning, typed view over a byte slice.
pub struct Reader<'r, M: Molecule>(&'r [u8], PhantomData<M>);

impl<'r, M: Molecule> Reader<'r, M> {
    /// The viewed bytes.
    pub closed spec fn spec_slice(&self) -> Seq<u8> {
        self.0@
    }

    /// Wrap a slice without checking it.  The caller vouches that the
    /// bytes were verified through the same type.
    pub fn new_unchecked(slice: &'r [u8]) -> (r: Self)
        ensures
            r.spec_slice() == slice@,
    {
        Reader(slice, PhantomData)
    }

    /// Wrap a slice after verifying it: `Ok` exactly on well-formed bytes.
    pub fn from_slice(slice: &'r [u8]) -> (r: VerificationResult<Self>)
        ensures
            r is Ok <==> M::valid(slice@),
            r matches Ok(rd) ==> rd.spec_slice() == slice@,
    {
        match M::verify(slice) {
            Ok(()) => Ok(Reader(slice, PhantomData)),
            Err(e) => Err(e),
        }
    }

    /// The viewed bytes.
    pub fn as_slice(&self) -> (r: &'r [u8])
        ensures
            r@ == self.spec_slice(),
    {
        self.0
    }

    /// Copy the viewed bytes into an owned entity.
    pub fn to_entity(&self) -> (r: Entity<M>)
        ensures
            r.spec_bytes() == self.spec_slice(),
    {
        Entity(bytes_copy_from_slice(self.0), PhantomData)
    }
}

/// An owned, immutable byte buffer with a declared type.
pub struct Entity<M: Molecule>(bytes::Bytes, PhantomData<M>);

impl<M: Molecule> Entity<M> {
    /// The owned bytes.
    pub closed spec fn spec_bytes(&self) -> Seq<u8> {
        bytes_content(self.0)
    }

    /// Wrap a buffer without checking it.  The caller vouches that the
    /// bytes were verified through the same type.
    pub fn new_unchecked(data: bytes::Bytes) -> (r: Self)
        ensures
            r.spec_bytes() == bytes_content(data),
    {
        Entity(data, PhantomData)
    }

    /// Copy and own a slice after verifying it.
    pub fn from_slice(slice: &[u8]) -> (r: VerificationResult<Self>)
        ensures
            r is Ok <==> M::valid(slice@),
            r matches Ok(e) ==> e.spec_bytes() == slice@,
    {
        match Reader::<M>::from_slice(slice) {
            Ok(reader) => Ok(reader.to_entity()),
            Err(e) => Err(e),
        }
    }

    /// The owned bytes.
    pub fn as_slice(&self) -> (r: &[u8])
        ensures
            r@ == self.spec_bytes(),
    {
        bytes_as_slice(&self.0)
    }

    /// A borrowing view of the owned bytes.
    pub fn as_reader(&self) -> (r: Reader<'_, M>)
        ensures
            r.spec_slice() == self.spec_bytes(),
    {
        Reader(bytes_as_slice(&self.0), PhantomData)
    }

    /// The owned bytes spelled in lowercase hex, for diagnostics.
    pub fn hex_repr(&self) -> (r: String)
        requires
            self.spec_bytes().len() * 2 <= usize::MAX,
        ensures
            r@ == hex_of(self.spec_bytes()),
    {
        hex_string_of(bytes_as_slice(&self.0))
    }
}

/// The lowercase hex digit for a nibble.
pub open spec fn hex_digit(v: u8) -> char {
    if v < 10 {
        (('0' as u8) + v) as char
    } else {
        (('a' as u8) + (v - 10)) as char
    }
}

/// The hex spelling of a byte sequence: two lowercase digits per byte, the
/// high nibble first.
pub open spec fn hex_of(b: Seq<u8>) -> Seq<char>
    decreases b.len(),
{
    if b.len() == 0 {
        Seq::empty()
    } else {
        hex_of(b.drop_last()).push(hex_digit(b.last() / 16)).push(hex_digit(b.last() % 16))
    }
}

/// Relies on `faster_hex::hex_string`: each byte becomes two lowercase
/// hex digits, high nibble first, in input order.
#[verifier::external_body]
fn hex_string_of(slice: &[u8]) -> (r: String)
    requires
        slice@.len() * 2 <= usize::MAX,
    ensures
        r@ == hex_of(slice@),
{
    faster_hex::hex_string(slice)
}

/// The hex spelling of a slice, for diagnostics.
pub fn hex_repr_of(slice: &[u8]) -> (r: String)
    requires
        slice@.len() * 2 <= usize::MAX,
    ensures
        r@ == hex_of(slice@),
{
    hex_string_of(slice)
}

} // verus!
