//! Planning and static verification of the execution of a program.

pub mod planning;
pub mod verification_parameters;
