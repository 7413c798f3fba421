//! Resolution of declarative test-case descriptions for an 8-bit CPU test
//! harness into a normalized, address-resolved model.

pub mod address;
pub mod error;
pub mod memory;
pub mod registers;
pub mod validate;
pub mod classify;
pub mod config;
pub mod document;
pub mod pipeline;
