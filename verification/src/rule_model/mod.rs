//! The logical model of rules, terms and annotations.

pub mod components;
