//! What stands between a routed HTTP request and the gRPC call: the metadata
//! the call carries.
pub mod gateway;
pub mod metadata;
