//! HTTP path templates and routing, behaviour-compatible with grpc-gateway v2.
pub mod template;
pub mod pattern;
pub mod router;
