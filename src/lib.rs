//! Verified core of a language server backend: live document text, a
//! position-indexed symbol table, edit synthesis from a reformatting pass,
//! and flattening of linter diagnostics into per-document lists.

pub mod diagnostic;
pub mod document;
pub mod edit;
pub mod error;
pub mod lines;
pub mod position;
pub mod symbol;
