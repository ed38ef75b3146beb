//! Compiler option reconstruction from a compilation database, and filtered
//! traversal of a syntax tree.
pub mod scan;
pub mod flags;
pub mod opts;
pub mod args;
pub mod ast;
