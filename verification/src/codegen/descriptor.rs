//! The slice of `descriptor.proto` and `google/api/http.proto` the generator
//! reads, as plain values; decoding the wire format is the caller's part.
use vstd::prelude::*;

verus! {

#[derive(Debug)]
pub struct FileDescriptorSet {
    pub file: Vec<FileDescriptorProto>,
}

#[derive(Debug)]
pub struct FileDescriptorProto {
    pub name: Option<String>,
    pub package: Option<String>,
    pub service: Vec<ServiceDescriptorProto>,
}

#[derive(Debug)]
pub struct ServiceDescriptorProto {
    pub name: Option<String>,
    pub method: Vec<MethodDescriptorProto>,
}

#[derive(Debug)]
pub struct MethodDescriptorProto {
    pub name: Option<String>,
    pub input_type: Option<String>,
    pub output_type: Option<String>,
    pub options: Option<MethodOptions>,
    pub client_streaming: Option<bool>,
    pub server_streaming: Option<bool>,
}

#[derive(Debug)]
pub struct MethodOptions {
    /// `google.api.http`, extension 72295728 of `MethodOptions`.
    pub http: Option<HttpRule>,
}

#[derive(Debug)]
pub struct HttpRule {
    pub selector: String,
    pub pattern: Option<Pattern>,
    pub body: String,
    pub response_body: String,
    pub additional_bindings: Vec<HttpRule>,
}

#[derive(Debug)]
pub enum Pattern {
    Get(String),
    Put(String),
    Post(String),
    Delete(String),
    Patch(String),
    Custom(CustomHttpPattern),
}

#[derive(Debug)]
pub struct CustomHttpPattern {
    pub kind: String,
    pub path: String,
}

} // verus!
