//! The closed error taxonomy of the decoder.
//!
//! Every failing operation reports exactly one of these kinds; no partial
//! value is ever returned alongside an error.

use vstd::prelude::*;

verus! {

/// The kind of an ASN.1 decoding failure.
///
/// - `Eof`: the buffer was exhausted in the middle of a TLV, or a
///   long-form length accumulator overflowed.
/// - `Extra`: bytes remained after a bounded decode finished.
/// - `Invalid`: a structural violation, such as a wrong tag, a wrong
///   primitive/constructed bit, a non-minimal encoding, the reserved
///   length octet 0xFF, an indefinite length in DER, or a malformed
///   object identifier.
/// - `IntegerOverflow`: a tag number, OID subidentifier, or integer
///   payload exceeded its representable range.
/// - `StackOverflow`: the nesting depth limit would be exceeded.
#[derive(Debug, Clone, Copy, PartialEq, Eq, Structural, Hash)]
pub enum ASN1ErrorKind {
    Eof,
    Extra,
    IntegerOverflow,
    StackOverflow,
    Invalid,
}

/// An ASN.1 decoding failure, identified by its kind alone.
///
/// Position information is intentionally not part of the error surface.
#[derive(Debug, Clone, Copy, PartialEq, Eq, Structural, Hash)]
pub struct ASN1Error {
    pub kind: ASN1ErrorKind,
}

impl ASN1Error {
    /// Constructs an error of the given kind.
    pub fn new(kind: ASN1ErrorKind) -> (r: ASN1Error)
        ensures
            r.kind == kind,
    {
        ASN1Error { kind }
    }

    /// The kind of this error.
    pub fn kind(&self) -> (r: ASN1ErrorKind)
        ensures
            r == self.kind,
    {
        self.kind
    }
}

/// The result type used by every decoding operation.
pub type ASN1Result<T> = Result<T, ASN1Error>;

} // verus!
