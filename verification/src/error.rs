//! The two error surfaces: fatal schema errors raised while resolving
//! declarations, and recoverable verification errors raised while checking
//! an untrusted byte slice against a resolved type.

use vstd::prelude::*;

verus! {

/// A fatal error in the schema author's input, detected during resolution.
#[derive(Debug, Clone, PartialEq, Eq)]
pub enum SchemaError {
    /// A declaration uses one of the reserved atom names.
    NameReserved(String),
    /// Two declarations share a name.
    NameDuplicated(String),
    /// After a full pass with no progress, these names remain unresolved.
    UnresolvedTypes(Vec<String>),
    /// An array item type or struct field type is not fixed-size; carries
    /// the parent's name and the offending inner name.
    InnerNotFixedSize(String, String),
    /// A union with no items.
    EmptyUnion(String),
    /// An array with zero items.
    EmptyArray(String),
    /// A struct whose fields sum to zero bytes.
    ZeroSizeStruct(String),
    /// A computed size or header does not fit in a wire number.
    SizeOverflow(String),
}

/// A recoverable error in an untrusted byte slice.  Every variant carries
/// the name of the type being verified; counted variants carry the expected
/// and the actual quantity.
#[derive(Debug, Clone, PartialEq, Eq)]
pub enum VerificationError {
    TotalSizeNotMatch(String, usize, usize),
    HeaderIsBroken(String, usize, usize),
    UnknownItem(String, usize, usize),
    OffsetsNotMatch(String),
    FieldCountNotMatch(String, usize, usize),
    DataIsShort(String, usize, usize),
    BytesNotPadded(String),
}

pub type VerificationResult<T> = Result<T, VerificationError>;

} // verus!
