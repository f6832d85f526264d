use ts_bnf_tool::nodes::GrammarNode::TerminalLiteral;
use ts_bnf_tool::test_utils::{di, p};
use ts_bnf_tool::types::Grammar;

fn ab() -> Grammar {
    Grammar::from_rules(vec![p("a", TerminalLiteral("'x'".into())), p("b", TerminalLiteral("'y'".into()))])
}

#[test]
fn root_rule_is_axiom_when_defined() {
    let mut g = ab();
    g.declare_axiom(di("b", 1));
    assert_eq!(g.root_rule(), Some("b"));
}

#[test]
fn root_rule_falls_back_to_first_production_when_axiom_undefined() {
    let mut g = ab();
    g.declare_axiom(di("ghost", 1));
    assert_eq!(g.root_rule(), Some("a"));
}

#[test]
fn root_rule_is_first_production_without_axiom() {
    assert_eq!(ab().root_rule(), Some("a"));
}

#[test]
fn root_rule_is_none_for_empty_grammar() {
    assert_eq!(Grammar::new().root_rule(), None);
}

#[test]
fn declare_axiom_first_declaration_wins() {
    let mut g = ab();
    assert!(g.declare_axiom(di("a", 1)).is_none());
    let diag = g.declare_axiom(di("b", 2)).expect("duplicate must error");
    assert!(diag.message.contains("%axiom declared more than once"));
    assert_eq!(g.root_rule(), Some("a"));
}
