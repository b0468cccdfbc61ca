//! Errors grouped by where they arise, each with a short description and a
//! message.
use vstd::prelude::*;
use crate::text::{append_chars, chars_of, string_of};

verus! {

/// An error of parsing, of stack effects, of the stack or of types.
#[derive(Debug, PartialEq)]
pub enum Error {
    ParseError(ParseError),
    StackEffectError(StackEffectError),
    StackError(StackError),
    TypeError(TypeError),
}

/// Errors while reading source text.
#[derive(Debug, PartialEq)]
pub enum ParseError {
    EndOfInput,
    UnexpectedDelimiter(&'static str),
    GeneralExpectation(&'static str),
    UnknownWord(String),
    AmbiguousWord(String),
}

/// Errors of stack effects.
#[derive(Debug, PartialEq)]
pub enum StackEffectError {
    ParseError(ParseError),
    Incompatible,
}

/// Errors of types.
#[derive(Debug, PartialEq)]
pub enum TypeError {
    General(String),
    ExpectationError(String, String),
    ConversionError(String, String),
    RcUnwrapError,
    MutationError,
}

/// Errors of the stack.
#[derive(Debug, PartialEq)]
pub enum StackError {
    StackUnderflow,
}

/// The characters of `a` followed by those of `b`.
fn joined(a: &str, b: &str) -> (r: Vec<char>)
    ensures
        r@ == a@ + b@,
{
    let mut out = chars_of(a);
    let more = chars_of(b);
    append_chars(&mut out, more.as_slice());
    out
}

impl Error {
    /// What kind of thing went wrong.
    pub fn description(&self) -> (r: &'static str)
        ensures
            r@ == match self {
                Error::ParseError(_) => "something went wrong during parsing"@,
                Error::StackEffectError(_) => "something went wrong with a stack effect"@,
                Error::StackError(_) => "something went wrong with the stack"@,
                Error::TypeError(_) => "something went wrong in the type system"@,
            },
    {
        match self {
            Error::ParseError(_) => "something went wrong during parsing",
            Error::StackEffectError(_) => "something went wrong with a stack effect",
            Error::StackError(_) => "something went wrong with the stack",
            Error::TypeError(_) => "something went wrong in the type system",
        }
    }

    /// The message of the error it holds.
    pub fn message(&self) -> (r: String)
        ensures
            r@ == match self {
                Error::ParseError(e) => e.spec_message(),
                Error::StackEffectError(e) => e.spec_message(),
                Error::StackError(e) => e.spec_message(),
                Error::TypeError(e) => e.spec_message(),
            },
    {
        match self {
            Error::ParseError(e) => e.message(),
            Error::StackEffectError(e) => e.message(),
            Error::StackError(e) => e.message(),
            Error::TypeError(e) => e.message(),
        }
    }
}

impl ParseError {
    /// The short description of the error.
    pub open spec fn spec_description(&self) -> Seq<char> {
        match self {
            ParseError::EndOfInput => "unexpected end of input"@,
            ParseError::UnexpectedDelimiter(_) => "found unexpected delimiter"@,
            ParseError::GeneralExpectation(_) => "expected something else"@,
            ParseError::UnknownWord(_) => "unknown word"@,
            ParseError::AmbiguousWord(_) => "ambiguous word"@,
        }
    }

    /// The message of the error, with what it is about.
    pub open spec fn spec_message(&self) -> Seq<char> {
        match self {
            ParseError::UnexpectedDelimiter(s) => "unexpected delimiter: "@ + s@,
            ParseError::GeneralExpectation(s) => "expected "@ + s@,
            ParseError::UnknownWord(s) => "unknown word: "@ + s@,
            ParseError::AmbiguousWord(s) => "ambiguous word: "@ + s@,
            _ => self.spec_description(),
        }
    }

    /// The short description of the error.
    pub fn description(&self) -> (r: &'static str)
        ensures
            r@ == self.spec_description(),
    {
        match self {
            ParseError::EndOfInput => "unexpected end of input",
            ParseError::UnexpectedDelimiter(_) => "found unexpected delimiter",
            ParseError::GeneralExpectation(_) => "expected something else",
            ParseError::UnknownWord(_) => "unknown word",
            ParseError::AmbiguousWord(_) => "ambiguous word",
        }
    }

    /// The message of the error, with what it is about.
    pub fn message(&self) -> (r: String)
        ensures
            r@ == self.spec_message(),
    {
        let cs = match self {
            ParseError::UnexpectedDelimiter(s) => joined("unexpected delimiter: ", s),
            ParseError::GeneralExpectation(s) => joined("expected ", s),
            ParseError::UnknownWord(s) => joined("unknown word: ", s.as_str()),
            ParseError::AmbiguousWord(s) => joined("ambiguous word: ", s.as_str()),
            _ => chars_of(self.description()),
        };
        string_of(cs.as_slice())
    }
}

impl StackEffectError {
    /// The short description of the error.
    pub open spec fn spec_description(&self) -> Seq<char> {
        match self {
            StackEffectError::ParseError(_) => "error during stack effect parsing"@,
            StackEffectError::Incompatible => "attempted to combine incompatible stack effects"@,
        }
    }

    /// The message of the error.
    pub open spec fn spec_message(&self) -> Seq<char> {
        self.spec_description()
    }

    /// The short description of the error.
    pub fn description(&self) -> (r: &'static str)
        ensures
            r@ == self.spec_description(),
    {
        match self {
            StackEffectError::ParseError(_) => "error during stack effect parsing",
            StackEffectError::Incompatible => "attempted to combine incompatible stack effects",
        }
    }

    /// The message of the error.
    pub fn message(&self) -> (r: String)
        ensures
            r@ == self.spec_message(),
    {
        let cs = chars_of(self.description());
        string_of(cs.as_slice())
    }
}

impl TypeError {
    /// The short description of the error.
    pub open spec fn spec_description(&self) -> Seq<char> {
        match self {
            TypeError::General(_) => "general type error"@,
            TypeError::ExpectationError(_, _) => "wrong type"@,
            TypeError::ConversionError(_, _) => "cannot convert type"@,
            TypeError::RcUnwrapError => "cannot unwrap Rc (likely there are other references)"@,
            TypeError::MutationError => "cannot mutate value"@,
        }
    }

    /// The message of the error: for an expectation, the expected type
    /// (the second) comes first.
    pub open spec fn spec_message(&self) -> Seq<char> {
        match self {
            TypeError::General(m) => "type error: "@ + m@,
            TypeError::ExpectationError(a, b) => "expected type "@ + b@ + " but got "@ + a@,
            TypeError::ConversionError(a, b) => "cannot convert "@ + a@ + " to "@ + b@,
            _ => self.spec_description(),
        }
    }

    /// The short description of the error.
    pub fn description(&self) -> (r: &'static str)
        ensures
            r@ == self.spec_description(),
    {
        match self {
            TypeError::General(_) => "general type error",
            TypeError::ExpectationError(_, _) => "wrong type",
            TypeError::ConversionError(_, _) => "cannot convert type",
            TypeError::RcUnwrapError => "cannot unwrap Rc (likely there are other references)",
            TypeError::MutationError => "cannot mutate value",
        }
    }

    /// The message of the error.
    pub fn message(&self) -> (r: String)
        ensures
            r@ == self.spec_message(),
    {
        let cs = match self {
            TypeError::General(m) => joined("type error: ", m.as_str()),
            TypeError::ExpectationError(a, b) => {
                let mut cs = joined("expected type ", b.as_str());
                let mid = joined(" but got ", a.as_str());
                append_chars(&mut cs, mid.as_slice());
                cs
            },
            TypeError::ConversionError(a, b) => {
                let mut cs = joined("cannot convert ", a.as_str());
                let mid = joined(" to ", b.as_str());
                append_chars(&mut cs, mid.as_slice());
                cs
            },
            _ => chars_of(self.description()),
        };
        string_of(cs.as_slice())
    }
}

impl StackError {
    /// The short description of the error.
    pub open spec fn spec_description(&self) -> Seq<char> {
        match self {
            StackError::StackUnderflow => "stack underflow"@,
        }
    }

    /// The message of the error.
    pub open spec fn spec_message(&self) -> Seq<char> {
        self.spec_description()
    }

    /// The short description of the error.
    pub fn description(&self) -> (r: &'static str)
        ensures
            r@ == self.spec_description(),
    {
        match self {
            StackError::StackUnderflow => "stack underflow",
        }
    }

    /// The message of the error.
    pub fn message(&self) -> (r: String)
        ensures
            r@ == self.spec_message(),
    {
        let cs = chars_of(self.description());
        string_of(cs.as_slice())
    }
}

impl From<ParseError> for Error {
    fn from(err: ParseError) -> (r: Self) {
        Error::ParseError(err)
    }
}

impl vstd::std_specs::convert::FromSpecImpl<ParseError> for Error {
    open spec fn obeys_from_spec() -> bool {
        true
    }

    open spec fn from_spec(v: ParseError) -> Self {
        Error::ParseError(v)
    }
}

impl From<StackEffectError> for Error {
    fn from(err: StackEffectError) -> (r: Self) {
        Error::StackEffectError(err)
    }
}

impl vstd::std_specs::convert::FromSpecImpl<StackEffectError> for Error {
    open spec fn obeys_from_spec() -> bool {
        true
    }

    open spec fn from_spec(v: StackEffectError) -> Self {
        Error::StackEffectError(v)
    }
}

impl From<ParseError> for StackEffectError {
    fn from(err: ParseError) -> (r: Self) {
        StackEffectError::ParseError(err)
    }
}

impl vstd::std_specs::convert::FromSpecImpl<ParseError> for StackEffectError {
    open spec fn obeys_from_spec() -> bool {
        true
    }

    open spec fn from_spec(v: ParseError) -> Self {
        StackEffectError::ParseError(v)
    }
}

impl From<TypeError> for Error {
    fn from(err: TypeError) -> (r: Self) {
        Error::TypeError(err)
    }
}

impl vstd::std_specs::convert::FromSpecImpl<TypeError> for Error {
    open spec fn obeys_from_spec() -> bool {
        true
    }

    open spec fn from_spec(v: TypeError) -> Self {
        Error::TypeError(v)
    }
}

impl From<StackError> for Error {
    fn from(err: StackError) -> (r: Self) {
        Error::StackError(err)
    }
}

impl vstd::std_specs::convert::FromSpecImpl<StackError> for Error {
    open spec fn obeys_from_spec() -> bool {
        true
    }

    open spec fn from_spec(v: StackError) -> Self {
        Error::StackError(v)
    }
}

} // verus!
