//! Syntax-aware search: finds a literal pattern or a structural query in the
//! syntax tree of a source file and reports where each occurrence lies.

pub mod text;
pub mod lines;
pub mod tree;
pub mod classify;
pub mod matcher;
pub mod position;
pub mod search;
pub mod query;
pub mod symbol;
pub mod report;
