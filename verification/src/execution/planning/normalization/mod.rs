//! Normalized rules, programs and annotations.

pub mod atom;
pub mod generator;
pub mod global_annotation;
pub mod operation;
pub mod program;
pub mod rule;
pub mod rule_annotation;
pub mod termination_annotation;
pub mod type_annotation;
