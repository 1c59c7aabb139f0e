//! REST/JSON gateway core for gRPC services: path templates and routing,
//! request parsing with Go's grammars, and error rendering.
pub mod bytes;
pub mod codegen;
pub mod error;
pub mod json;
pub mod path;
pub mod request;
pub mod service;
