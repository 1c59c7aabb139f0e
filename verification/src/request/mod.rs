//! Turning an HTTP request into the pieces a gRPC call needs, with Go's
//! grammars: integers, escapes, query strings, media types and times.
pub mod duration;
pub mod field_mask;
pub mod fields;
pub mod float_text;
pub mod form;
pub mod gotime;
pub mod json;
pub mod binding;
pub mod convert;
pub mod mux;
pub mod path_params;
pub mod populate;
pub mod strconv;

use vstd::prelude::*;
use vstd::string::StringSliceAdditionalSpecFns;
use crate::error::{Status, CODE_INTERNAL, CODE_INVALID_ARGUMENT};

verus! {

/// Who wrote the text of a [`RequestError`].
#[derive(Debug, Clone, Copy, PartialEq, Eq, Structural)]
pub enum ErrorOrigin {
    /// grpc-gateway, or the Go standard library under it (`strconv`, `time`,
    /// `net/url`, `mime`).
    Gateway,
    /// The JSON codec: the code is grpc-gateway's, the text is the codec's.
    Decoder,
}

/// Why a request could not become a request message; answered by
/// grpc-gateway's error handler with [`RequestError::status`].
#[derive(Debug, PartialEq, Eq)]
pub struct RequestError {
    code: i32,
    message: Vec<u8>,
    origin: ErrorOrigin,
}

impl Clone for RequestError {
    fn clone(&self) -> (r: Self)
        ensures
            r.code_v() == self.code_v(),
            r.message_v() == self.message_v(),
            r.origin_v() == self.origin_v(),
    {
        proof {
            use_type_invariant(self);
        }
        RequestError { code: self.code, message: self.message.clone(), origin: self.origin }
    }
}

impl RequestError {
    /// Every request error is an `InvalidArgument` or an `Internal`.
    #[verifier::type_invariant]
    spec fn code_is_known(self) -> bool {
        self.code == CODE_INVALID_ARGUMENT || self.code == CODE_INTERNAL
    }

    pub closed spec fn code_v(&self) -> i32 {
        self.code
    }

    pub closed spec fn message_v(&self) -> Seq<u8> {
        self.message@
    }

    pub closed spec fn origin_v(&self) -> ErrorOrigin {
        self.origin
    }

    /// An `InvalidArgument` whose text grpc-gateway or Go wrote.
    pub fn invalid(message: Vec<u8>) -> (r: RequestError)
        ensures
            r.code_v() == CODE_INVALID_ARGUMENT,
            r.message_v() == message@,
            r.origin_v() == ErrorOrigin::Gateway,
    {
        RequestError { code: CODE_INVALID_ARGUMENT, message, origin: ErrorOrigin::Gateway }
    }

    /// An `InvalidArgument` whose text the codec wrote.
    pub fn decoder(message: Vec<u8>) -> (r: RequestError)
        ensures
            r.code_v() == CODE_INVALID_ARGUMENT,
            r.message_v() == message@,
            r.origin_v() == ErrorOrigin::Decoder,
    {
        RequestError { code: CODE_INVALID_ARGUMENT, message, origin: ErrorOrigin::Decoder }
    }

    /// The same error, its text credited to `origin`.
    pub fn with_origin(self, origin: ErrorOrigin) -> (r: RequestError)
        ensures
            r.code_v() == self.code_v(),
            r.message_v() == self.message_v(),
            r.origin_v() == origin,
    {
        proof {
            use_type_invariant(&self);
        }
        RequestError { code: self.code, message: self.message, origin }
    }

    /// A string field holding bytes that are not UTF-8: the gRPC client
    /// refuses to marshal it, with `Internal`.
    pub fn invalid_utf8() -> (r: RequestError)
        ensures
            r.code_v() == CODE_INTERNAL,
            r.message_v() == "grpc: error while marshaling: string field contains invalid UTF-8".spec_bytes(),
            r.origin_v() == ErrorOrigin::Gateway,
    {
        RequestError {
            code: CODE_INTERNAL,
            message: crate::bytes::copy_bytes(
                "grpc: error while marshaling: string field contains invalid UTF-8".as_bytes(),
            ),
            origin: ErrorOrigin::Gateway,
        }
    }

    pub fn code(&self) -> (r: i32)
        ensures
            r == self.code_v(),
            r == CODE_INVALID_ARGUMENT || r == CODE_INTERNAL,
    {
        proof {
            use_type_invariant(self);
        }
        self.code
    }

    pub fn message(&self) -> (r: &[u8])
        ensures
            r@ == self.message_v(),
    {
        self.message.as_slice()
    }

    pub fn origin(&self) -> (r: ErrorOrigin)
        ensures
            r == self.origin_v(),
    {
        self.origin
    }

    /// A failure of the JSON codec, its text as the codec wrote it.
    pub fn codec(error: &crate::json::JsonError) -> (r: RequestError)
        ensures
            r.code_v() == CODE_INVALID_ARGUMENT,
            r.message_v() == error.message_v(),
            r.origin_v() == ErrorOrigin::Decoder,
    {
        RequestError::decoder(crate::bytes::copy_bytes(error.message()))
    }

    /// The status grpc-gateway's `HTTPError` receives.
    pub fn status(&self) -> (r: Status)
        ensures
            r.code == self.code_v(),
            r.message@ == self.message_v(),
            r.details@.len() == 0,
            r.code == CODE_INVALID_ARGUMENT || r.code == CODE_INTERNAL,
    {
        proof {
            use_type_invariant(self);
        }
        Status::new(self.code, crate::bytes::copy_bytes(self.message.as_slice()))
    }
}

} // verus!
