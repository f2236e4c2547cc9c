//! Normalized programs and their static analysis.

pub mod normalization;
pub mod verification;
