//! A single named grammar rule.

use vstd::prelude::*;
use vstd::string::*;
use crate::nodes::{js, GrammarNode};

verus! {

/// A single named grammar rule (`name -> body`).
#[derive(Debug)]
pub struct Production {
    /// The rule name (left-hand side of `->`).
    pub name: String,
    /// The rule body (right-hand side of `->`).
    pub body: GrammarNode,
    /// 1-based line of the rule in its source file.
    pub line: usize,
    /// Source filename of the rule (empty if unknown).
    pub filename: String,
}

/// The display form of a production: `name -> <grammar.js body>`.
pub open spec fn production_text(p: Production) -> Seq<char> {
    p.name@ + " -> "@ + js(p.body)
}

impl Production {
    /// The display form, e.g. `expr -> $.a`.
    pub fn to_text(&self) -> (r: String)
        ensures
            r@ == production_text(*self),
    {
        let mut out = String::from_str(self.name.as_str());
        out.append(" -> ");
        out.append(self.body.to_js().as_str());
        out
    }
}

} // verus!
