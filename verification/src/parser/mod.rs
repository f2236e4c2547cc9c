//! The syntax tree nodes of annotations.

pub mod ast;
