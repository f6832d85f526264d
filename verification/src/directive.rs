//! Directive entries (`%inline`, `%conflicts`, `%precedences`, …) with their
//! source locations.

use vstd::prelude::*;
use vstd::string::*;
use crate::text::{nat_decimal, u64_to_decimal};

verus! {

/// A name referenced in a grammar directive (`%inline`, `%supertypes`,
/// `%extras`, `%axiom`, `%word`), with the 1-based line of the directive.
#[derive(Debug, Clone, PartialEq, Eq)]
pub struct DirectiveItem {
    /// The rule name or pattern (for `%extras`).
    pub name: String,
    /// 1-based line number of the directive in the source file.
    pub line: usize,
    /// Source filename where this directive appears (empty if unknown).
    pub filename: String,
}

/// A conflict group declared with `%conflicts`.
#[derive(Debug, Clone, PartialEq, Eq)]
pub struct ConflictGroup {
    /// The rule names that form this conflict group.
    pub rules: Vec<String>,
    /// 1-based line number of the `%conflicts` directive.
    pub line: usize,
    /// Source filename where this directive appears (empty if unknown).
    pub filename: String,
}

/// A rule name or a quoted literal, as found in `%precedences`, `%externals`
/// and `%reserved`.
#[derive(Debug, Clone, PartialEq, Eq)]
pub enum NameOrLiteral {
    /// A rule-name reference.
    Name(String),
    /// A quoted string literal.
    Literal(String),
}

/// A precedences group declared with `%precedences`.
#[derive(Debug, Clone, PartialEq, Eq)]
pub struct PrecedenceGroup {
    /// The items of the group.
    pub items: Vec<NameOrLiteral>,
    /// 1-based line number of the `%precedences` directive.
    pub line: usize,
    /// Source filename where this directive appears (empty if unknown).
    pub filename: String,
}

/// A reserved-word set declared with `%reserved setName: [...]`.
#[derive(Debug, Clone, PartialEq, Eq)]
pub struct ReservedEntry {
    /// The name of the reserved-word set.
    pub set_name: String,
    /// The rule names and literals in the set.
    pub rule_names: Vec<NameOrLiteral>,
    /// 1-based line number of the `%reserved` directive.
    pub line: usize,
    /// Source filename where this directive appears (empty if unknown).
    pub filename: String,
}

/// The text of a name-or-literal item: the name or the literal as written.
pub open spec fn item_text(i: NameOrLiteral) -> Seq<char> {
    match i {
        NameOrLiteral::Name(n) => n@,
        NameOrLiteral::Literal(l) => l@,
    }
}

impl NameOrLiteral {
    /// The item's text, whether it is a name or a literal.
    pub fn text(&self) -> (r: &String)
        ensures
            r@ == item_text(*self),
    {
        match self {
            NameOrLiteral::Name(n) => n,
            NameOrLiteral::Literal(l) => l,
        }
    }
}

/// A source location for diagnostics: `"filename:line"`, or `"line N"`
/// when the filename is empty.
pub open spec fn loc_text(filename: Seq<char>, line: nat) -> Seq<char> {
    if filename.len() == 0 {
        "line "@ + nat_decimal(line)
    } else {
        filename + ":"@ + nat_decimal(line)
    }
}

/// Formats a source location: `"filename:line"` when `filename` is
/// non-empty, `"line N"` otherwise.
pub fn loc(filename: &str, line: usize) -> (r: String)
    ensures
        r@ == loc_text(filename@, line as nat),
{
    if filename.is_empty() {
        let mut out = String::from_str("line ");
        out.append(u64_to_decimal(line as u64).as_str());
        out
    } else {
        let mut out = String::from_str(filename);
        out.append(":");
        out.append(u64_to_decimal(line as u64).as_str());
        out
    }
}

/// Formats a source location like [`loc`], with a column appended.
pub fn loc_col(filename: &str, line: usize, col: usize) -> (r: String)
    ensures
        r@ == loc_text(filename@, line as nat) + ":"@ + nat_decimal(col as nat),
{
    let mut out = loc(filename, line);
    out.append(":");
    out.append(u64_to_decimal(col as u64).as_str());
    out
}

} // verus!
