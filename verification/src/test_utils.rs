//! Constructors of grammar fixtures with realistic defaults, shared by tests.

use vstd::prelude::*;
use vstd::string::*;
use crate::directive::{item_text, ConflictGroup, DirectiveItem, NameOrLiteral, PrecedenceGroup, ReservedEntry};
use crate::nodes::GrammarNode;
use crate::production::Production;
use crate::text::owned;

verus! {

/// Two items are the same kind of item with the same text.
pub open spec fn same_item(a: NameOrLiteral, b: NameOrLiteral) -> bool {
    match (a, b) {
        (NameOrLiteral::Name(x), NameOrLiteral::Name(y)) => x@ == y@,
        (NameOrLiteral::Literal(x), NameOrLiteral::Literal(y)) => x@ == y@,
        _ => false,
    }
}

/// Copies of `items`.
fn copy_items(items: &[NameOrLiteral]) -> (r: Vec<NameOrLiteral>)
    ensures
        r@.len() == items@.len(),
        forall|i: int| 0 <= i < items@.len() ==> same_item(items@[i], #[trigger] r@[i]),
{
    let mut out: Vec<NameOrLiteral> = Vec::new();
    let mut i: usize = 0;
    while i < items.len()
        invariant
            0 <= i <= items@.len(),
            out@.len() == i,
            forall|j: int| 0 <= j < i ==> same_item(items@[j], #[trigger] out@[j]),
        decreases items@.len() - i,
    {
        let item = match &items[i] {
            NameOrLiteral::Name(n) => NameOrLiteral::Name(owned(n.as_str())),
            NameOrLiteral::Literal(l) => NameOrLiteral::Literal(owned(l.as_str())),
        };
        out.push(item);
        i += 1;
    }
    out
}

/// A production with line 1 in file `test.bnf`.
pub fn p(name: &str, body: GrammarNode) -> (r: Production)
    ensures
        r.name@ == name@,
        r.body == body,
        r.line == 1,
        r.filename@ == "test.bnf"@,
{
    Production { name: owned(name), body, line: 1, filename: owned("test.bnf") }
}

/// A production with line 1 in the file `filename`.
pub fn p_named(name: &str, body: GrammarNode, filename: &str) -> (r: Production)
    ensures
        r.name@ == name@,
        r.body == body,
        r.line == 1,
        r.filename@ == filename@,
{
    Production { name: owned(name), body, line: 1, filename: owned(filename) }
}

/// A `%reserved` set with the given name, items and line, and no file name.
pub fn re(set_name: &str, rule_names: &[NameOrLiteral], line: usize) -> (r: ReservedEntry)
    ensures
        r.set_name@ == set_name@,
        r.rule_names@.len() == rule_names@.len(),
        forall|i: int| 0 <= i < rule_names@.len() ==> same_item(rule_names@[i], #[trigger] r.rule_names@[i]),
        r.line == line,
        r.filename@.len() == 0,
{
    let r = ReservedEntry { set_name: owned(set_name), rule_names: copy_items(rule_names), line, filename: String::new() };
    r
}

/// A directive item with the given name and line, and no file name.
pub fn di(name: &str, line: usize) -> (r: DirectiveItem)
    ensures
        r.name@ == name@,
        r.line == line,
        r.filename@.len() == 0,
{
    DirectiveItem { name: owned(name), line, filename: String::new() }
}

/// A non-terminal reference to `name`.
pub fn nt(name: &str) -> (r: GrammarNode)
    ensures
        r matches GrammarNode::NonTerminal(n) && n@ == name@,
{
    GrammarNode::NonTerminal(owned(name))
}

/// A `%conflicts` group of the given rules and line, and no file name.
pub fn cg(rules: &[&str], line: usize) -> (r: ConflictGroup)
    ensures
        r.rules@.len() == rules@.len(),
        forall|i: int| 0 <= i < rules@.len() ==> (#[trigger] r.rules@[i])@ == rules@[i]@,
        r.line == line,
        r.filename@.len() == 0,
{
    let mut names: Vec<String> = Vec::new();
    let mut i: usize = 0;
    while i < rules.len()
        invariant
            0 <= i <= rules@.len(),
            names@.len() == i,
            forall|j: int| 0 <= j < i ==> (#[trigger] names@[j])@ == rules@[j]@,
        decreases rules@.len() - i,
    {
        names.push(owned(rules[i]));
        i += 1;
    }
    ConflictGroup { rules: names, line, filename: String::new() }
}

/// A `%precedences` group of the given items and line, and no file name.
pub fn pg(items: &[NameOrLiteral], line: usize) -> (r: PrecedenceGroup)
    ensures
        r.items@.len() == items@.len(),
        forall|i: int| 0 <= i < items@.len() ==> same_item(items@[i], #[trigger] r.items@[i]),
        r.line == line,
        r.filename@.len() == 0,
{
    PrecedenceGroup { items: copy_items(items), line, filename: String::new() }
}

} // verus!
