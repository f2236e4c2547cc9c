//! This module defines [AnnotationKind].

use vstd::prelude::*;

verus! {

/// Types of Annotations
#[derive(Debug, Copy, Clone, PartialEq, Eq, Structural)]
pub enum AnnotationKind {
    /// Requires Annotation
    Requires,
    /// Ensure Annotation
    Ensure,
}

} // verus!
