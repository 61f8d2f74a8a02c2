//! Core logic of a TensorFlow Lite inference service: request validation,
//! the interpreter cache, JSON/tensor shape handling, model listing and the
//! small text parsers the service relies on.

pub mod error;
pub mod text;
pub mod proc_stats;
pub mod cache;
pub mod paths;
pub mod json;
pub mod tensor;
pub mod invoke;
pub mod models;
