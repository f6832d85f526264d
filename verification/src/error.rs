//! Errors raised while turning BNF source into a grammar.

use vstd::prelude::*;
use vstd::string::*;

verus! {

/// Errors that can occur while converting BNF source into the grammar DOM.
#[derive(Debug)]
pub enum ParseError {
    /// A node had a different kind than required.
    UnexpectedNodeType {
        /// The node kind that was required at this position.
        expected: String,
        /// The node kind that was actually encountered.
        got: String,
    },
    /// A node kind was not recognised.
    UnknownNodeKind(String),
    /// The left-hand side of a production rule was not a non-terminal.
    MalformedProduction,
    /// The source text contains syntax errors.
    SyntaxError,
    /// The parser returned no tree for the input.
    ParseFailed,
    /// `%include` was used but the source has no associated file path.
    IncludeFromStdin,
    /// The path in a `%include` directive could not be read.
    IncludeNotFound(String),
    /// A `%include` chain forms a cycle.
    IncludeCycle(String),
}

/// The display form of a parse error.
pub open spec fn parse_error_text(e: ParseError) -> Seq<char> {
    match e {
        ParseError::UnexpectedNodeType { expected, got } =>
            "expected node type '"@ + expected@ + "', got '"@ + got@ + "'"@,
        ParseError::UnknownNodeKind(kind) => "unknown node kind '"@ + kind@ + "'"@,
        ParseError::MalformedProduction => "non-terminal expected on left-hand side of production"@,
        ParseError::SyntaxError => "input contains syntax errors"@,
        ParseError::ParseFailed => "parser returned no tree"@,
        ParseError::IncludeFromStdin => "%include cannot be used when reading from stdin"@,
        ParseError::IncludeNotFound(path) => "included file not found: "@ + path@,
        ParseError::IncludeCycle(path) => "circular %include detected: "@ + path@,
    }
}

impl ParseError {
    /// The human-readable message of this error.
    pub fn to_text(&self) -> (r: String)
        ensures
            r@ == parse_error_text(*self),
    {
        match self {
            ParseError::UnexpectedNodeType { expected, got } => {
                let mut out = String::from_str("expected node type '");
                out.append(expected.as_str());
                out.append("', got '");
                out.append(got.as_str());
                out.append("'");
                out
            },
            ParseError::UnknownNodeKind(kind) => {
                let mut out = String::from_str("unknown node kind '");
                out.append(kind.as_str());
                out.append("'");
                out
            },
            ParseError::MalformedProduction => String::from_str(
                "non-terminal expected on left-hand side of production",
            ),
            ParseError::SyntaxError => String::from_str("input contains syntax errors"),
            ParseError::ParseFailed => String::from_str("parser returned no tree"),
            ParseError::IncludeFromStdin => String::from_str(
                "%include cannot be used when reading from stdin",
            ),
            ParseError::IncludeNotFound(path) => {
                let mut out = String::from_str("included file not found: ");
                out.append(path.as_str());
                out
            },
            ParseError::IncludeCycle(path) => {
                let mut out = String::from_str("circular %include detected: ");
                out.append(path.as_str());
                out
            },
        }
    }
}

} // verus!
