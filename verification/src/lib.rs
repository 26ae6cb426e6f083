//! A codec for a length-prefixed, self-describing binary format with four
//! node kinds: unsigned integers, byte strings, lists, and dictionaries.
//!
//! The wire grammar is stated as specification functions over byte
//! sequences; the executable decoder and encoder are verified against it.

use vstd::prelude::*;

pub mod grammar;
mod digits;
pub mod laws;
pub mod value;
pub mod decode;
pub mod encode;

pub use decode::{decode_value, Deserializer};
pub use encode::{encode_value, Serializer};
pub use value::Value;

verus! {

/// The closed set of failure kinds shared by the decode and encode engines.
///
/// Every failure is returned as a value; the engines never abort the
/// process. `InvalidText`, `UnsupportedPrimitive` and `TargetShapeMismatch`
/// arise only in bindings that map decoded nodes onto caller-defined target
/// shapes; the node-level engines in this crate report the other four.
#[derive(Clone, Copy, Debug, PartialEq, Eq, Structural)]
pub enum Error {
    /// Integer or byte-string grammar violated: a missing marker or
    /// separator, a non-digit where a digit was expected, a leading zero,
    /// or a length-prefixed payload that claims more bytes than remain.
    MalformedPrimitive,
    /// A digit run exceeds the unsigned 64-bit range.
    IntegerOverflow,
    /// The lookahead byte matches no node kind expected at that position,
    /// or the input ends where a node or an end marker was expected.
    UnexpectedStructure,
    /// A byte string that a target required to be text is not valid text.
    InvalidText,
    /// A target requested a primitive the format cannot represent.
    UnsupportedPrimitive,
    /// Unconsumed input remains after a complete top-level decode.
    TrailingBytes,
    /// The grammar-level decode succeeded but the target rejected the shape.
    TargetShapeMismatch,
}

impl Error {
    /// A short description of the failure kind, for callers that report
    /// errors as text.
    pub fn message(&self) -> &'static str {
        match self {
            Error::MalformedPrimitive => "malformed integer or byte-string primitive",
            Error::IntegerOverflow => "integer overflow",
            Error::UnexpectedStructure => "unexpected structure",
            Error::InvalidText => "byte string is not valid text",
            Error::UnsupportedPrimitive => "primitive is unsupported by the format",
            Error::TrailingBytes => "trailing bytes",
            Error::TargetShapeMismatch => "target type rejected the decoded shape",
        }
    }
}

} // verus!
