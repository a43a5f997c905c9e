//! A decoder for ASN.1 values encoded under the Basic Encoding Rules (BER)
//! and their canonical subset, the Distinguished Encoding Rules (DER).
//!
//! The heart of the crate is the streaming tag/length/value reader in
//! `reader`: callers hand it a byte buffer and a mode, and compose
//! per-type decoders over nested sub-buffer windows while the engine
//! enforces buffer bounds, recursion depth, and end-of-contents markers.
//! The byte-level meaning of every decoding step is stated by the spec
//! functions in `model`, and each reader operation carries a contract
//! relating it to that model.

mod basics;
mod error;
mod model;
mod reader;

pub use basics::BitString;
pub use basics::ObjectIdentifier;
pub use basics::PrintableString;
pub use basics::SetOf;
pub use basics::Tag;
pub use basics::TagClass;
pub use basics::UtcTime;
pub use basics::printable_byte;
pub use error::ASN1Error;
pub use error::ASN1ErrorKind;
pub use error::ASN1Result;
pub use model::PC;
pub use reader::BERMode;
pub use reader::BERReader;
pub use reader::BERReaderSeq;
pub use reader::FromBER;
pub use reader::parse_ber;
pub use reader::parse_ber_general;
pub use reader::parse_der;
pub use reader::BERReaderImpl;
