//! Errors on their way up from setting a field, before the caller wraps
//! them into a [`RequestError`].
use vstd::prelude::*;
use vstd::string::StringSliceAdditionalSpecFns;
use crate::bytes::{copy_bytes, push_all};
use crate::error::CODE_INVALID_ARGUMENT;
use crate::request::{ErrorOrigin, RequestError};

verus! {

/// An error on its way up, before the caller wraps it.
#[derive(Debug, Clone, PartialEq, Eq)]
pub struct FieldError {
    pub message: Vec<u8>,
    pub origin: ErrorOrigin,
}

impl FieldError {
    /// An error whose text grpc-gateway (or Go under it) wrote.
    pub fn gateway(message: Vec<u8>) -> (r: FieldError)
        ensures
            r.message@ == message@,
            r.origin == ErrorOrigin::Gateway,
    {
        FieldError { message, origin: ErrorOrigin::Gateway }
    }

    /// The same error, its text after `prefix`.
    pub fn wrap(self, prefix: &[u8]) -> (r: FieldError)
        ensures
            r.message@ == prefix@ + self.message@,
            r.origin == self.origin,
    {
        let mut m = copy_bytes(prefix);
        push_all(&mut m, self.message.as_slice());
        FieldError { message: m, origin: self.origin }
    }

    /// The `InvalidArgument` the caller answers with.
    pub fn into_request_error(self) -> (r: RequestError)
        ensures
            r.code_v() == CODE_INVALID_ARGUMENT,
            r.message_v() == self.message@,
            r.origin_v() == self.origin,
    {
        RequestError::invalid(self.message).with_origin(self.origin)
    }
}

/// The error past the recursion limit of a field path.
pub fn too_deep() -> (e: FieldError)
    ensures
        e.message@ == "exceeded max recursion depth".spec_bytes(),
        e.origin == ErrorOrigin::Gateway,
{
    FieldError::gateway(copy_bytes("exceeded max recursion depth".as_bytes()))
}

} // verus!
