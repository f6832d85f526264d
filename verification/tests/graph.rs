use std::collections::HashSet;

use ts_bnf_tool::graph::{build_graph, emit_dot, emit_mermaid};
use ts_bnf_tool::nodes::GrammarNode::{Choice, NonTerminal, Sequence, TerminalLiteral};
use ts_bnf_tool::test_utils::{nt, p};
use ts_bnf_tool::nodes::GrammarNode;
use ts_bnf_tool::types::Grammar;

/// Convenience: build a two-rule grammar `root -> a ; a -> /x/ ;`.
fn two_rule_grammar() -> Grammar {
    Grammar::from_rules(vec![
        p("root", GrammarNode::NonTerminal("a".into())),
        p("a", GrammarNode::TerminalPattern("/x/".into())),
    ])
}

#[test]
/// Non-terminal references in rule bodies produce directed edges.
fn basic_edges() {
    let g = Grammar::from_rules(vec![
        p(
            "expr",
            GrammarNode::Sequence(vec![
                nt("term"),
                GrammarNode::TerminalLiteral("'+'".into()),
                nt("term"),
            ]),
        ),
        p("term", GrammarNode::TerminalPattern("/[0-9]+/".into())),
    ]);
    let (data, _) = build_graph(&g, None).unwrap();
    assert_eq!(data.edges, vec![("expr".to_string(), "term".to_string())]);
}

#[test]
/// A directly recursive rule emits a self-edge.
fn self_edge() {
    let g = Grammar::from_rules(vec![p(
        "expr",
        GrammarNode::Choice(vec![
            GrammarNode::Sequence(vec![
                nt("expr"),
                GrammarNode::TerminalLiteral("'+'".into()),
                GrammarNode::TerminalPattern("/[0-9]+/".into()),
            ]),
            GrammarNode::TerminalPattern("/[0-9]+/".into()),
        ]),
    )]);
    let (data, _) = build_graph(&g, None).unwrap();
    assert!(data
        .edges
        .contains(&("expr".to_string(), "expr".to_string())));
}

#[test]
/// The start symbol is the first production in declaration order.
fn start_symbol_is_first_production() {
    let (data, _) = build_graph(&two_rule_grammar(), None).unwrap();
    assert_eq!(data.start, "root");
}

#[test]
/// A non-terminal that is referenced but never defined appears in `undefined` with a warning.
fn undefined_reference_detected() {
    let g = Grammar::from_rules(vec![p("root", nt("extern_rule"))]);
    let (data, warnings) = build_graph(&g, None).unwrap();
    assert!(data.undefined.contains("extern_rule"));
    assert!(warnings.iter().any(|w| w.contains("extern_rule")));
}

#[test]
/// `--start` restricts the graph to rules reachable from the named rule.
fn start_filter_prunes_unreachable() {
    let g = Grammar::from_rules(vec![
        p("root", nt("a")),
        p("a", GrammarNode::TerminalPattern("/x/".into())),
        p("unreachable", GrammarNode::TerminalPattern("/y/".into())),
    ]);
    let (data, _) = build_graph(&g, Some("a")).unwrap();
    let lhs_set: HashSet<&str> = data.edges.iter().map(|(l, _)| l.as_str()).collect();
    assert!(!lhs_set.contains("unreachable"));
    assert_eq!(data.start, "a");
}

#[test]
/// `--start` with a rule name not in the grammar returns an error.
fn start_unknown_rule_returns_error() {
    let g = Grammar::from_rules(vec![p("root", GrammarNode::TerminalPattern("/x/".into()))]);
    assert!(build_graph(&g, Some("missing")).is_err());
}

#[test]
/// An empty grammar produces an empty graph without panicking.
fn empty_grammar_no_panic() {
    let (data, warnings) = build_graph(&Grammar::new(), None).unwrap();
    assert!(data.edges.is_empty());
    assert!(warnings.is_empty());
    assert!(emit_dot(&data).contains("digraph grammar {"));
}

#[test]
/// The start symbol node carries `shape=doublecircle` in DOT output.
fn dot_start_is_doublecircle() {
    let (data, _) = build_graph(&two_rule_grammar(), None).unwrap();
    assert!(emit_dot(&data).contains("root [shape=doublecircle]"));
}

#[test]
/// Undefined references carry `style=dashed` in DOT output.
fn dot_undefined_is_dashed() {
    let g = Grammar::from_rules(vec![p("root", nt("extern_rule"))]);
    let (data, _) = build_graph(&g, None).unwrap();
    assert!(emit_dot(&data).contains("extern_rule [style=dashed]"));
}

#[test]
/// The start symbol node carries the `★` suffix in Mermaid output.
fn mermaid_start_has_star() {
    let (data, _) = build_graph(&two_rule_grammar(), None).unwrap();
    let mermaid = emit_mermaid(&data);
    assert!(mermaid.contains("★"));
    assert!(mermaid.contains("root"));
}

#[test]
/// Undefined references carry the `⚠` suffix in Mermaid output.
fn mermaid_undefined_has_warning_symbol() {
    let g = Grammar::from_rules(vec![p("root", nt("extern_rule"))]);
    let (data, _) = build_graph(&g, None).unwrap();
    let mermaid = emit_mermaid(&data);
    assert!(mermaid.contains("⚠") && mermaid.contains("extern_rule"));
}


#[test]
fn dot_lists_isolated_rules_and_edges() {
    let g = Grammar::from_rules(vec![
        p("root", NonTerminal("a".into())),
        p("a", TerminalLiteral("'x'".into())),
        p("lonely", TerminalLiteral("'y'".into())),
    ]);
    let (data, _) = build_graph(&g, None).unwrap();
    assert_eq!(
        emit_dot(&data),
        "digraph grammar {\n  root [shape=doublecircle];\n  lonely;\n  root -> a;\n}\n"
    );
    assert_eq!(emit_mermaid(&data), "graph TD\n  root([\"root  ★\"])\n  lonely\n\n  root --> a\n");
}
