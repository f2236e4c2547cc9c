//! Nodes of the syntax tree that the annotations are built from.

pub mod annotation;
pub mod types;
