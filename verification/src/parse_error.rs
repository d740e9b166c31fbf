//! The error model: a closed taxonomy of compile-time template errors and
//! match-time failures, each carrying enough context for diagnostics.

use vstd::prelude::*;

verus! {

/// An error found while compiling a template string.
///
/// Compile errors are always surfaced immediately: a malformed template
/// cannot be partially used.  They are never produced at match time.
#[derive(Debug, Clone, Copy, PartialEq, Eq, Structural)]
pub enum CompileError {
    /// A `}` outside a placeholder that does not open an escape pair `}}`.
    UnexpectedClose,
    /// A `{` inside a placeholder that does not open an escape pair `{{`.
    UnexpectedOpen,
    /// A `{` opened a placeholder that never closes.
    UnclosedPlaceholder,
    /// Two captures with no literal text in between: the matcher could not
    /// tell where one capture ends and the next begins.
    AmbiguousAdjacentCaptures,
    /// A placeholder with a separator part but no second `:` to end it.
    InvalidSeparator,
    /// A multi-value count that is not a decimal number between 0 and 255.
    InvalidArity,
    /// A variable part that is neither empty, a position, nor an identifier.
    InvalidVariable,
    /// Explicit positions that do not densely cover `0..count`, or are mixed
    /// with implied captures.
    InvalidPositional,
}

/// The mathematical value of a [`ParseError`]: strings become character
/// sequences.
pub enum ParseErrorModel {
    Int,
    Bool,
    Char,
    Float,
    Addr,
    Literal { expected: Seq<char>, found: Seq<char> },
    Multi { expected: u8, found: u8 },
    Other(Seq<char>),
}

/// An error found while matching an input string against a compiled
/// template, or while converting a captured region to a typed value.
#[derive(Debug)]
pub enum ParseError {
    /// An integer conversion failed.
    Int,
    /// A boolean conversion failed.
    Bool,
    /// A character conversion failed.
    Char,
    /// A floating-point conversion failed.
    Float,
    /// A network-address conversion failed.
    Addr,
    /// A required literal was not found; `found` carries the remaining
    /// unmatched input for diagnostics.
    Literal { expected: String, found: String },
    /// A fixed-size multi-value capture saw a different number of elements
    /// than declared.
    Multi { expected: u8, found: u8 },
    /// An error of a user-supplied conversion, wrapped uniformly.
    Other(String),
}

impl View for ParseError {
    type V = ParseErrorModel;

    open spec fn view(&self) -> ParseErrorModel {
        match self {
            ParseError::Int => ParseErrorModel::Int,
            ParseError::Bool => ParseErrorModel::Bool,
            ParseError::Char => ParseErrorModel::Char,
            ParseError::Float => ParseErrorModel::Float,
            ParseError::Addr => ParseErrorModel::Addr,
            ParseError::Literal { expected, found } => ParseErrorModel::Literal {
                expected: expected@,
                found: found@,
            },
            ParseError::Multi { expected, found } => ParseErrorModel::Multi {
                expected: *expected,
                found: *found,
            },
            ParseError::Other(m) => ParseErrorModel::Other(m@),
        }
    }
}

impl ParseError {
    /// Creates an error that wraps a printable message of a user-supplied
    /// conversion into the `Other` variant.
    pub fn new(message: &str) -> (r: Self)
        ensures
            r@ == ParseErrorModel::Other(message@),
    {
        ParseError::Other(String::from_str(message))
    }
}

impl PartialEq for ParseError {
    fn eq(&self, other: &Self) -> bool {
        match (self, other) {
            (ParseError::Int, ParseError::Int) => true,
            (ParseError::Bool, ParseError::Bool) => true,
            (ParseError::Char, ParseError::Char) => true,
            (ParseError::Float, ParseError::Float) => true,
            (ParseError::Addr, ParseError::Addr) => true,
            (
                ParseError::Literal { expected: le, found: lf },
                ParseError::Literal { expected: re, found: rf },
            ) => crate::text::str_eq(le.as_str(), re.as_str()) && crate::text::str_eq(
                lf.as_str(),
                rf.as_str(),
            ),
            (
                ParseError::Multi { expected: le, found: lf },
                ParseError::Multi { expected: re, found: rf },
            ) => *le == *re && *lf == *rf,
            (ParseError::Other(l), ParseError::Other(r)) => crate::text::str_eq(
                l.as_str(),
                r.as_str(),
            ),
            _ => false,
        }
    }
}

impl vstd::std_specs::cmp::PartialEqSpecImpl for ParseError {
    open spec fn obeys_eq_spec() -> bool {
        true
    }

    open spec fn eq_spec(&self, other: &Self) -> bool {
        self@ == other@
    }
}

} // verus!
