//! Static analysis of annotated Datalog programs: value annotations on
//! predicates and rules, range restrictions, propagation of positions that
//! only carry database values, and the preparation of termination checks.

pub mod execution;
pub mod parser;
pub mod rule_model;
