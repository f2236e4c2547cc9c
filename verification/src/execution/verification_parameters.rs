//! This module defines [VerificationParameters].

use vstd::prelude::*;

verus! {

/// Externally modify the export statements of the program
#[derive(Debug, Clone, Copy, PartialEq, Eq, Structural)]
pub enum ValueAnnotationParameters {
    /// No verification
    NoVerification,
    /// Verify without propagation
    NoProp,
    /// Verify with propagation
    Prop,
}

impl Default for ValueAnnotationParameters {
    fn default() -> (parameters: Self)
        ensures
            parameters == ValueAnnotationParameters::NoVerification,
    {
        ValueAnnotationParameters::NoVerification
    }
}

///Cli arguments for verification
#[derive(Debug, Copy, Clone, PartialEq, Eq, Structural)]
pub struct VerificationParameters {
    ///Check value annotation
    pub annotation_setting: ValueAnnotationParameters,
    ///Check termination
    pub ct: bool,
}

impl Default for VerificationParameters {
    fn default() -> (parameters: Self)
        ensures
            parameters.annotation_setting == ValueAnnotationParameters::NoVerification,
            !parameters.ct,
    {
        Self { annotation_setting: ValueAnnotationParameters::NoVerification, ct: false }
    }
}

impl VerificationParameters {
    /// Create a new [VerificationParameters] object
    pub fn new(ct: bool, annotation_setting: ValueAnnotationParameters) -> (parameters: Self)
        ensures
            parameters.annotation_setting == annotation_setting,
            parameters.ct == ct,
    {
        Self { annotation_setting, ct }
    }
}

} // verus!
