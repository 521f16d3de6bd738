//! Shared resources: the error type.
pub mod errors;
