//! Static verification of annotated programs.

pub mod annotation_analysis;
pub mod clauses;
pub mod completion;
pub mod edb_analysis;
pub mod restriction;
pub mod rule_verification;
pub mod rule_verifier;
pub mod smt;
pub mod smt_builder;
pub mod termination_verification;
pub mod type_verification;
