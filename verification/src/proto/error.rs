//! Errors of the protocol layer.

use vstd::prelude::*;
use crate::common::error::{CategorizedError, ErrorCategory};
use crate::value::TypeError;

verus! {

/// Errors raised by the protocol layer: the input was malformed, oversized, or
/// outside the grammar.
#[derive(Debug, PartialEq, Eq)]
#[non_exhaustive]
#[allow(inconsistent_fields)]
pub enum ProtoError {
    /// An error from the type/encoding layer.
    Type(TypeError),
    /// The message exceeds the configured size cap.
    MessageTooLarge {
        /// The message length.
        len: usize,
        /// The enforced limit.
        max: usize,
    },
    /// The bytes end mid-value.
    Truncated,
    /// Bytes left over after the message.
    TrailingBytes {
        /// How many bytes were left.
        count: usize,
    },
    /// Nesting beyond the configured depth cap.
    TooDeep {
        /// The enforced limit.
        max: usize,
    },
    /// More nodes than the configured node cap.
    TooManyNodes,
    /// An unsigned integer too large for `i64`.
    IntOutOfRange {
        /// The value found on the wire.
        found: u64,
    },
    /// A str payload that is not valid UTF-8.
    InvalidUtf8,
    /// An ext-family value (never part of the protocol).
    ExtNotAllowed,
    /// The reserved head byte `0xC1`.
    ReservedByte,
    /// A map key that is not a string.
    NonStringKey,
    /// The same key twice in one map.
    DuplicateKey {
        /// The repeated key.
        key: String,
    },
    /// A node name outside the grammar (unknown op, stage, or expression).
    UnknownNode {
        /// Where the node appeared (e.g. "request", "stage", "expression").
        context: &'static str,
        /// The unrecognized name.
        name: String,
    },
    /// A map field not defined for the node.
    UnknownField {
        /// The node carrying the field.
        node: &'static str,
        /// The unrecognized field name.
        name: String,
    },
    /// A required field is absent.
    MissingField {
        /// The node missing the field.
        node: &'static str,
        /// The required field name.
        field: &'static str,
    },
    /// A field whose value has the wrong shape.
    WrongShape {
        /// The node carrying the field.
        node: &'static str,
        /// The field name.
        field: &'static str,
        /// The shape the grammar requires.
        expected: &'static str,
        /// The shape found on the wire.
        found: &'static str,
    },
    /// A field whose value is the right shape but outside the allowed set.
    InvalidValue {
        /// The node carrying the field.
        node: &'static str,
        /// The field name.
        field: &'static str,
        /// The offending value, rendered.
        found: String,
    },
    /// A protocol version this build does not speak.
    UnsupportedVersion {
        /// The version found on the wire.
        found: i64,
    },
    /// A cursor token that fails its integrity check.
    BadCursorToken,
}

/// What a [`ProtoError`] says.
#[allow(inconsistent_fields)]
pub enum ProtoErrorV {
    Type(TypeError),
    MessageTooLarge { len: nat, max: nat },
    Truncated,
    TrailingBytes { count: nat },
    TooDeep { max: nat },
    TooManyNodes,
    IntOutOfRange { found: nat },
    InvalidUtf8,
    ExtNotAllowed,
    ReservedByte,
    NonStringKey,
    DuplicateKey { key: Seq<char> },
    UnknownNode { context: Seq<char>, name: Seq<char> },
    UnknownField { node: Seq<char>, name: Seq<char> },
    MissingField { node: Seq<char>, field: Seq<char> },
    WrongShape { node: Seq<char>, field: Seq<char>, expected: Seq<char>, found: Seq<char> },
    InvalidValue { node: Seq<char>, field: Seq<char>, found: Seq<char> },
    UnsupportedVersion { found: int },
    BadCursorToken,
}

impl View for ProtoError {
    type V = ProtoErrorV;

    open spec fn view(&self) -> ProtoErrorV {
        match self {
            ProtoError::Type(e) => ProtoErrorV::Type(*e),
            ProtoError::MessageTooLarge { len, max } => ProtoErrorV::MessageTooLarge {
                len: *len as nat,
                max: *max as nat,
            },
            ProtoError::Truncated => ProtoErrorV::Truncated,
            ProtoError::TrailingBytes { count } => ProtoErrorV::TrailingBytes {
                count: *count as nat,
            },
            ProtoError::TooDeep { max } => ProtoErrorV::TooDeep { max: *max as nat },
            ProtoError::TooManyNodes => ProtoErrorV::TooManyNodes,
            ProtoError::IntOutOfRange { found } => ProtoErrorV::IntOutOfRange {
                found: *found as nat,
            },
            ProtoError::InvalidUtf8 => ProtoErrorV::InvalidUtf8,
            ProtoError::ExtNotAllowed => ProtoErrorV::ExtNotAllowed,
            ProtoError::ReservedByte => ProtoErrorV::ReservedByte,
            ProtoError::NonStringKey => ProtoErrorV::NonStringKey,
            ProtoError::DuplicateKey { key } => ProtoErrorV::DuplicateKey { key: key@ },
            ProtoError::UnknownNode { context, name } => ProtoErrorV::UnknownNode {
                context: context@,
                name: name@,
            },
            ProtoError::UnknownField { node, name } => ProtoErrorV::UnknownField {
                node: node@,
                name: name@,
            },
            ProtoError::MissingField { node, field } => ProtoErrorV::MissingField {
                node: node@,
                field: field@,
            },
            ProtoError::WrongShape { node, field, expected, found } => ProtoErrorV::WrongShape {
                node: node@,
                field: field@,
                expected: expected@,
                found: found@,
            },
            ProtoError::InvalidValue { node, field, found } => ProtoErrorV::InvalidValue {
                node: node@,
                field: field@,
                found: found@,
            },
            ProtoError::UnsupportedVersion { found } => ProtoErrorV::UnsupportedVersion {
                found: *found as int,
            },
            ProtoError::BadCursorToken => ProtoErrorV::BadCursorToken,
        }
    }
}

impl CategorizedError for ProtoError {
    open spec fn category_of(&self) -> ErrorCategory {
        match self {
            ProtoError::Type(e) => e.category_of(),
            _ => ErrorCategory::Validation,
        }
    }

    fn category(&self) -> ErrorCategory {
        match self {
            ProtoError::Type(e) => e.category(),
            // Everything else is malformed/oversized input.
            _ => ErrorCategory::Validation,
        }
    }
}

/// Result alias for protocol operations.
pub type Result<T> = std::result::Result<T, ProtoError>;

/// Whatever a client got wrong is invalid; an error of a type stays what it is there.
pub proof fn categories_blame_the_client(e: ProtoError)
    ensures
        !(e is Type) ==> e.category_of() == ErrorCategory::Validation,
        e matches ProtoError::Type(x) ==> e.category_of() == x.category_of(),
{
}

} // verus!
