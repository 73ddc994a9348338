//! Errors of the morphing pipeline.
use vstd::prelude::*;

verus! {

/// Why a distribution description was refused.
#[derive(Debug, Clone, Copy, PartialEq, Eq, Structural)]
pub enum ParseFault {
    /// The description is neither `Name/params` nor a value/probability table.
    Shape,
    /// The family name is not one of the known ones.
    UnknownName,
    /// The family was given the wrong number of parameters.
    Arity,
    /// A token is not a number of the expected kind.
    Token,
    /// A value/probability table holds an odd number of tokens, or none.
    Table,
}

/// The errors of the morphing pipeline.
#[derive(Debug, Clone, PartialEq, Eq)]
pub enum MorphError {
    /// A distribution description is malformed.
    Parse(ParseFault),
    /// No draw reached the floor within the retry budget; holds the
    /// distribution's name.
    SamplingExhausted(String),
    /// The sampler refused the distribution's parameters; holds its name.
    InvalidParameters(String),
    /// The deterministic bounds are inconsistent.
    InvalidRange,
}

} // verus!
