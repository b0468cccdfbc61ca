use vstd::prelude::*;

verus! {

/// Everything that can go wrong while parsing, compiling, inferring stack
/// effects or running a program.
#[derive(Debug, Clone, PartialEq, Eq)]
pub enum Error {
    /// parsing: input ended before a delimiter was found
    EndOfInput,
    /// parsing: a closing delimiter appeared where none was expected
    UnexpectedDelimiter(Vec<char>),
    /// parsing: a stack effect was expected
    ExpectedStackEffect,
    /// parsing: a module path could not be resolved
    PathError,
    /// stack effects: two effects cannot be combined
    IncompatibleStackEffects,
    /// stack effects: the unification did not settle
    InfiniteSubstitution,
    /// a token is both a literal and a word
    AmbiguousWord(Vec<char>),
    /// a token is neither a literal nor a word
    UnknownWord(Vec<char>),
    /// pop from an empty stack
    StackUnderflow,
    /// a value has the wrong type
    TypeError(Vec<char>),
    /// a value cannot be mutated in place
    OwnershipError,
    /// an attribute is missing
    AttributeError(Vec<char>),
    /// index out of range: (index, length)
    IndexError(usize, usize),
    /// any other failure at run time
    RuntimeError(Vec<char>),
}

} // verus!
