//! Code generation input: the HTTP bindings a descriptor set declares.
pub mod descriptor;
pub mod rules;
