//! This module defines [OperationKind], the functions and relations that may
//! appear in operations.

use vstd::prelude::*;

verus! {

/// Supported operations
#[derive(Debug, Clone, Copy, PartialEq, Eq, Structural, Hash)]
pub enum OperationKind {
    /// Equality
    Equal,
    /// Inequality
    Unequals,
    /// Sum of numeric values
    NumericSum,
    /// Subtraction between two numeric values
    NumericSubtraction,
    /// Product of numeric values
    NumericProduct,
    /// Division between two numeric values
    NumericDivision,
    /// Logarithm of a numeric value to some numeric base
    NumericLogarithm,
    /// Numeric value raised to another numeric value
    NumericPower,
    /// Remainder of a division between two numeric values
    NumericRemainder,
    /// Numeric greater than or equals comparison
    NumericGreaterthaneq,
    /// Numeric greater than comparison
    NumericGreaterthan,
    /// Numeric less than or equals comparison
    NumericLessthaneq,
    /// Numeric less than comparison
    NumericLessthan,
    /// Lexicographic comparison between strings
    StringCompare,
    /// Check whether string is contained in another
    StringContains,
    /// Check whether a string matches a regular expression
    StringRegex,
    /// String starting at some start position
    StringSubstring,
    /// First part of a string split by some other string
    StringBefore,
    /// Second part of a string split by some other string
    StringAfter,
    /// Whether string starts with a certain string
    StringStarts,
    /// Whether string ends with a certain string
    StringEnds,
    /// Levenshtein distance between two strings
    StringLevenshtein,
    /// Boolean negation
    BooleanNegation,
    /// Cast to double
    CastToDouble,
    /// Cast to float
    CastToFloat,
    /// Cast to integer
    CastToInteger,
    /// Cast to IRI
    CastToIRI,
    /// Canonical string representation of a value
    CanonicalString,
    /// Check if value is an integer
    CheckIsInteger,
    /// Check if value is a float
    CheckIsFloat,
    /// Check if value is a double
    CheckIsDouble,
    /// Check if value is an iri
    CheckIsIri,
    /// Check if value is numeric
    CheckIsNumeric,
    /// Check if value is null
    CheckIsNull,
    /// Check if value is string
    CheckIsString,
    /// Get datatype of a value
    Datatype,
    /// Get language tag of a languaged tagged string
    LanguageString,
    /// Language tag of a language tagged string
    LanguageTag,
    /// Absolute value of a numeric value
    NumericAbsolute,
    /// Cosine of a numeric value
    NumericCosine,
    /// Rounding up of a numeric value
    NumericCeil,
    /// Rounding down of a numeric value
    NumericFloor,
    /// Additive inverse of a numeric value
    NumericNegation,
    /// Rounding of a numeric value
    NumericRound,
    /// Sine of a numeric value
    NumericSine,
    /// Square root of a numeric value
    NumericSquareroot,
    /// Tangent of a numeric value
    NumericTangent,
    /// Length of a string value
    StringLength,
    /// Reverse of a string value
    StringReverse,
    /// String converted to lowercase letters
    StringLowercase,
    /// String converted to uppercase letters
    StringUppercase,
    /// Percent-encoding of a string
    StringUriEncode,
    /// Percent-decoding of a string
    StringUriDecode,
    /// Bitwise and operation
    BitAnd,
    /// Bitwise or operation
    BitOr,
    /// Bitwise xor operation
    BitXor,
    /// Bitwise shift left
    BitShl,
    /// Bitwise unsigned shift right
    BitShru,
    /// Bitwise shift right
    BitShr,
    /// Conjunction of boolean values
    BooleanConjunction,
    /// Disjunction of boolean values
    BooleanDisjunction,
    /// Minimum of numeric values
    NumericMinimum,
    /// Maximum of numeric values
    NumericMaximum,
    /// Lukasiewicz norm of numeric values
    NumericLukasiewicz,
    /// Concatenation of two string values
    StringConcatenation,
    /// Lexical value
    LexicalValue,
}

impl OperationKind {
    /// Whether the kind is one of the four numeric order comparisons.
    pub open spec fn spec_is_order_comparison(self) -> bool {
        self == OperationKind::NumericGreaterthaneq || self == OperationKind::NumericGreaterthan
            || self == OperationKind::NumericLessthaneq || self == OperationKind::NumericLessthan
    }
}

} // verus!
