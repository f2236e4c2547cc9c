//! Components of a rule program.

pub mod atom;
pub mod global_annotation;
pub mod input_annotation;
pub mod operation_kind;
pub mod rule_annotation;
pub mod tag;
pub mod term;
pub mod termination_annotation;
pub mod type_annotation;
pub mod validation;
pub mod variable;
