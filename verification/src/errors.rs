use vstd::prelude::*;

verus! {

/// The input equation does not match the term grammar, or a coefficient
/// cannot be represented exactly within the supported range.
#[derive(Debug, Clone, Copy, PartialEq, Eq, Structural)]
pub struct BadFormat;

impl BadFormat {
    /// The user-facing description of the error.
    pub fn message(&self) -> (r: &'static str)
        ensures
            r@ == "Argument uncorectly formated."@,
    {
        "Argument uncorectly formated."
    }
}

/// No equation was supplied on the command line.
#[derive(Debug, Clone, Copy, PartialEq, Eq, Structural)]
pub struct MissingArgument;

impl MissingArgument {
    /// The user-facing description of the error.
    pub fn message(&self) -> (r: &'static str)
        ensures
            r@ == "No argument have been passed."@,
    {
        "No argument have been passed."
    }
}

/// More than one equation was supplied on the command line.
#[derive(Debug, Clone, Copy, PartialEq, Eq, Structural)]
pub struct TooManyArguments;

impl TooManyArguments {
    /// The user-facing description of the error.
    pub fn message(&self) -> (r: &'static str)
        ensures
            r@ == "Too many arguments have been passed. Only one is allowed."@,
    {
        "Too many arguments have been passed. Only one is allowed."
    }
}

} // verus!
