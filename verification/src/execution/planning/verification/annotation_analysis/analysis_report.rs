//! Module defines report of static analysis

use vstd::prelude::*;

verus! {

/// Describes the type of error occuring during type analysis
#[derive(Debug, Copy, Clone, PartialEq, Eq, Structural)]
pub enum AnalysisErrorKind {
    /// A fact does not satisfy a global assertion of its predicate
    GlobalAssertFactMismatch,
    /// A global assertion is not matched
    NonMatchGlobalAssert,
    /// A rule assertion is not matched
    NonMatchRuleAssert,
}

/// An error found by the static analysis
#[derive(Debug)]
pub struct AnalysisError {
    /// The kind of the error
    pub kind: AnalysisErrorKind,
    /// A description of the error
    pub text: String,
}

impl AnalysisError {
    /// Creates a new [AnalysisError]
    pub fn new(kind: AnalysisErrorKind, text: String) -> (error: Self)
        ensures
            error.kind == kind,
            error.text@ == text@,
    {
        AnalysisError { kind, text }
    }

    /// The text that displays the error; only a mismatch between a fact and a
    /// global assertion has one
    pub fn to_string(&self) -> (text: String)
        requires
            self.kind == AnalysisErrorKind::GlobalAssertFactMismatch,
        ensures
            text@ == "foo"@,
    {
        String::from_str("foo")
    }
}

} // verus!
