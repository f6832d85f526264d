use ts_bnf_tool::assemble::{assemble_grammar, include_step, IncludeStep, TopLevelItem};
use ts_bnf_tool::nodes::GrammarNode::{Alias, NonTerminal, Sequence};
use ts_bnf_tool::test_utils::di;
use ts_bnf_tool::diagnostic::Severity;
use ts_bnf_tool::nameset::NameSet;
use ts_bnf_tool::nodes::GrammarNode::TerminalLiteral;
use ts_bnf_tool::test_utils::p;
use ts_bnf_tool::production::Production;
use ts_bnf_tool::types::Grammar;

fn rule(production: Production) -> TopLevelItem {
    TopLevelItem::Rule { production, prec_name_refs: vec![], reserved_set_refs: vec![] }
}

fn names(items: &[&str]) -> NameSet {
    let mut s = NameSet::new();
    for i in items {
        s.insert(i);
    }
    s
}

/// A rule read twice keeps its first place, takes the later body, and the
/// second definition is answered with a warning naming its location.
#[test]
fn add_rule_twice_keeps_later_body_and_warns() {
    let mut g = Grammar::new();
    g.add_rule(p("foo", TerminalLiteral("'a'".into())));
    g.add_rule(p("root", TerminalLiteral("'r'".into())));
    assert!(g.parse_diagnostics.is_empty());
    g.add_rule(p("foo", TerminalLiteral("'b'".into())));
    let keys: Vec<&String> = g.productions.keys().collect();
    assert_eq!(keys, vec!["foo", "root"]);
    assert!(matches!(&g.productions["foo"].body, TerminalLiteral(s) if s == "'b'"));
    assert_eq!(g.parse_diagnostics.len(), 1);
    assert_eq!(g.parse_diagnostics[0].severity, Severity::Warning);
    assert_eq!(
        g.parse_diagnostics[0].message,
        "rule 'foo' is defined more than once (test.bnf:1)"
    );
}

/// A new rule goes last, with no warning.
#[test]
fn add_rule_new_name_goes_last() {
    let mut g = Grammar::new();
    g.add_rule(p("b", TerminalLiteral("'b'".into())));
    g.add_rule(p("a", TerminalLiteral("'a'".into())));
    let keys: Vec<&String> = g.productions.keys().collect();
    assert_eq!(keys, vec!["b", "a"]);
    assert!(g.parse_diagnostics.is_empty());
}

/// A file on the chain being read is a cycle, even if also merged.
#[test]
fn include_step_open_file_is_a_cycle() {
    let open = names(&["/a.bnf", "/b.bnf"]);
    let merged = names(&["/b.bnf"]);
    assert_eq!(include_step(&open, &merged, Some("/b.bnf")), IncludeStep::Cycle);
}

/// A file merged already is skipped, so a diamond merges it once.
#[test]
fn include_step_merged_file_is_skipped() {
    let open = names(&["/a.bnf"]);
    let merged = names(&["/c.bnf"]);
    assert_eq!(include_step(&open, &merged, Some("/c.bnf")), IncludeStep::Skip);
}

/// Any other file is read, as is one with no canonical path.
#[test]
fn include_step_new_file_is_entered() {
    let open = names(&["/a.bnf"]);
    let merged = names(&["/c.bnf"]);
    assert_eq!(include_step(&open, &merged, Some("/d.bnf")), IncludeStep::Enter);
    assert_eq!(include_step(&open, &merged, None), IncludeStep::Enter);
}


/// A rule from an included file redefined by the includer is kept with the
/// includer's body, and the redefinition is warned about.
#[test]
fn assemble_included_rule_redefined_warns() {
    let included = Grammar::from_rules(vec![p("foo", TerminalLiteral("'b'".into()))]);
    let (g, diags) = assemble_grammar(vec![
        TopLevelItem::Included(included),
        rule(p("foo", TerminalLiteral("'a'".into()))),
        rule(p("root", NonTerminal("foo".into()))),
    ]);
    assert!(matches!(&g.productions["foo"].body, TerminalLiteral(s) if s == "'a'"));
    assert!(diags
        .iter()
        .any(|d| d.severity == Severity::Warning && d.message.contains("defined more than once")));
}

/// An included file's own `%axiom` is not a second declaration: the
/// includer's stays, with no error.
#[test]
fn assemble_included_axiom_is_not_a_duplicate() {
    let mut included = Grammar::from_rules(vec![p("b", TerminalLiteral("'y'".into()))]);
    assert!(included.declare_axiom(di("b", 1)).is_none());
    let (g, diags) = assemble_grammar(vec![
        TopLevelItem::Axiom(di("a", 1)),
        rule(p("a", TerminalLiteral("'x'".into()))),
        TopLevelItem::Included(included),
    ]);
    assert!(!diags.iter().any(|d| d.message.contains("%axiom declared more than once")));
    assert_eq!(g.root_rule(), Some("a"));
    assert_eq!(g.axiom_directive().map(|a| a.line), Some(1));
}

/// A second `%axiom` in the same source is an error and the first stays.
#[test]
fn assemble_second_axiom_is_an_error() {
    let (g, _) = assemble_grammar(vec![
        TopLevelItem::Axiom(di("a", 1)),
        TopLevelItem::Axiom(di("b", 2)),
        rule(p("a", TerminalLiteral("'x'".into()))),
        rule(p("b", TerminalLiteral("'y'".into()))),
    ]);
    assert_eq!(g.axiom_directive().map(|a| a.name.as_str()), Some("a"));
    assert_eq!(g.parse_diagnostics.len(), 1);
    assert_eq!(g.parse_diagnostics[0].severity, Severity::Error);
    assert_eq!(g.parse_diagnostics[0].message, "%axiom declared more than once (line 2)");
}

/// Directive items are appended in source order, across several lines.
#[test]
fn assemble_directives_are_appended_in_order() {
    let (g, _) = assemble_grammar(vec![
        TopLevelItem::Inline(vec![di("x", 1)]),
        rule(p("x", TerminalLiteral("'x'".into()))),
        TopLevelItem::Inline(vec![di("y", 3), di("z", 3)]),
    ]);
    let names: Vec<&str> = g.inline.iter().map(|i| i.name.as_str()).collect();
    assert_eq!(names, vec!["x", "y", "z"]);
}

/// A rule records the non-terminals its body names (not alias names) and
/// the references it made, so an undefined one is reported.
#[test]
fn assemble_rule_records_its_references() {
    let body = Sequence(vec![
        NonTerminal("missing".into()),
        Alias(Box::new(TerminalLiteral("'x'".into())), Box::new(NonTerminal("label".into()))),
    ]);
    let (g, diags) = assemble_grammar(vec![TopLevelItem::Rule {
        production: p("root", body),
        prec_name_refs: vec![di("'unary'", 1)],
        reserved_set_refs: vec![di("words", 1)],
    }]);
    let mut rhs: Vec<String> = (0..g.rhs_nonterminals.len()).map(|i| g.rhs_nonterminals.get(i).to_string()).collect();
    rhs.sort();
    assert_eq!(rhs, vec!["missing".to_string()]);
    assert_eq!(g.prec_name_refs.len(), 1);
    assert_eq!(g.reserved_set_refs[0].name, "words");
    assert!(diags.iter().any(|d| d.message.contains("'missing'")), "got {diags:?}");
}
