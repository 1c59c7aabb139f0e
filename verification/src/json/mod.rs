//! grpc-gateway's JSON side: error classes, codec options, and the pieces of
//! Go's standard library whose exact behaviour reaches a response.
pub mod go;
pub mod names;
pub mod stream;
pub mod token;
pub mod well_known;
pub mod wire;

use vstd::prelude::*;
use vstd::string::StringSliceAdditionalSpecFns;

verus! {

/// What went wrong, coarsely; the message is for people.
#[derive(Debug, Clone, Copy, PartialEq, Eq, Structural)]
pub enum JsonErrorKind {
    /// Not JSON, or not the JSON grammar protojson reads.
    Syntax,
    /// The input ended inside a value.
    UnexpectedEof,
    /// Valid JSON that does not fit the message.
    InvalidValue,
    /// An `Any` type URL or an extension name that cannot be resolved.
    Unresolvable,
    /// Messages nested deeper than the recursion limit.
    RecursionLimit,
    /// A message that cannot be written as JSON.
    Marshal,
    /// A shape grpc-gateway's generated code does not support either.
    Unsupported,
}

/// A JSON decoding or encoding failure.
#[derive(Debug, Clone, PartialEq, Eq)]
pub struct JsonError {
    kind: JsonErrorKind,
    message: Vec<u8>,
}

impl JsonError {
    pub closed spec fn kind_v(&self) -> JsonErrorKind {
        self.kind
    }

    pub closed spec fn message_v(&self) -> Seq<u8> {
        self.message@
    }

    /// An error of a class, with its text.
    pub fn new(kind: JsonErrorKind, message: Vec<u8>) -> (r: JsonError)
        ensures
            r.kind_v() == kind,
            r.message_v() == message@,
    {
        JsonError { kind, message }
    }

    /// The input ended inside a value.
    pub fn eof() -> (r: JsonError)
        ensures
            r.kind_v() == JsonErrorKind::UnexpectedEof,
            r.message_v() == "unexpected EOF".spec_bytes(),
    {
        let m = crate::bytes::copy_bytes("unexpected EOF".as_bytes());
        JsonError { kind: JsonErrorKind::UnexpectedEof, message: m }
    }

    /// The class of the failure.
    pub fn kind(&self) -> (r: JsonErrorKind)
        ensures
            r == self.kind_v(),
    {
        self.kind
    }

    /// The text of the failure.
    pub fn message(&self) -> (r: &[u8])
        ensures
            r@ == self.message_v(),
    {
        self.message.as_slice()
    }
}

/// `protojson.MarshalOptions`, less what grpc-gateway never sets.
#[derive(Debug, Clone, Copy, PartialEq, Eq, Structural)]
pub struct MarshalOptions {
    /// Write unset fields.
    pub emit_unpopulated: bool,
    /// Like `emit_unpopulated` without the `null`s.
    pub emit_default_values: bool,
    /// Field names as in the `.proto` instead of lowerCamelCase.
    pub use_proto_names: bool,
    /// Enum values as numbers instead of names.
    pub use_enum_numbers: bool,
}

/// `protojson.UnmarshalOptions`.
#[derive(Debug, Clone, Copy, PartialEq, Eq, Structural)]
pub struct UnmarshalOptions {
    /// Skip unknown fields and unknown enum names instead of failing.
    pub discard_unknown: bool,
    /// Deepest message nesting accepted.
    pub recursion_limit: u32,
}

/// The default message nesting limit.
pub const DEFAULT_RECURSION_LIMIT: u32 = 100;

} // verus!
