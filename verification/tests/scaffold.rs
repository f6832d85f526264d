use ts_bnf_tool::nodes::GrammarNode;
use ts_bnf_tool::nodes::GrammarNode::TerminalLiteral;
use ts_bnf_tool::scaffold::Scaffold;
use ts_bnf_tool::test_utils::{cg, di, p};
use ts_bnf_tool::types::Grammar;

#[test]
fn scaffold_scaffold_single_rule() {
    let g = Grammar::from_rules(vec![p("expr", TerminalLiteral("'x'".into()))]);
    assert_eq!(
        Scaffold { grammar: &g, name: "expr" }.to_text(),
        "module.exports = grammar({\n  name: \"expr\",\n\n  rules: {\n    expr: $ => 'x',\n  }\n});"
    );
}

#[test]
fn scaffold_scaffold_multi_rule() {
    let g = Grammar::from_rules(vec![
        p("a", TerminalLiteral("'x'".into())),
        p("b", GrammarNode::NonTerminal("a".into())),
    ]);
    let out = Scaffold {
        grammar: &g,
        name: "test",
    }.to_text();
    assert!(out.contains("    a: $ => 'x',"));
    assert!(out.contains("    b: $ => $.a,"));
    assert!(out.starts_with("module.exports = grammar({"));
    assert!(out.ends_with("});"));
}

#[test]
fn scaffold_scaffold_name_appears_in_output() {
    let g = Grammar::from_rules(vec![p("r", TerminalLiteral("'y'".into()))]);
    let out = Scaffold {
        grammar: &g,
        name: "mygrammar",
    }.to_text();
    assert!(out.contains("name: \"mygrammar\""));
}

#[test]
fn scaffold_scaffold_no_conflicts_omits_key() {
    let g = Grammar::from_rules(vec![p("a", TerminalLiteral("'x'".into()))]);
    let out = Scaffold {
        grammar: &g,
        name: "g",
    }.to_text();
    assert!(!out.contains("conflicts"));
}

#[test]
fn scaffold_scaffold_with_single_conflict_group() {
    let mut g = Grammar::from_rules(vec![p("expr", TerminalLiteral("'x'".into()))]);
    g.conflicts = vec![cg(&["expr", "term"], 0)];
    let out = Scaffold {
        grammar: &g,
        name: "g",
    }.to_text();
    assert!(out.contains("  conflicts: $ => ["));
    assert!(out.contains("    [$.expr, $.term],"));
    assert!(out.contains("  ],"));
    assert!(out.find("conflicts").unwrap() < out.find("rules").unwrap());
}

#[test]
fn scaffold_scaffold_with_multiple_conflict_groups() {
    let mut g = Grammar::from_rules(vec![p("a", TerminalLiteral("'x'".into()))]);
    g.conflicts = vec![cg(&["a", "b"], 0), cg(&["c", "d", "e"], 0)];
    let out = Scaffold {
        grammar: &g,
        name: "g",
    }.to_text();
    assert!(out.contains("    [$.a, $.b],"));
    assert!(out.contains("    [$.c, $.d, $.e],"));
}

#[test]
fn scaffold_with_supertypes() {
    let mut g = Grammar::from_rules(vec![p("expression", TerminalLiteral("'x'".into()))]);
    g.supertypes = vec![di("expression", 0), di("statement", 0)];
    let out = Scaffold {
        grammar: &g,
        name: "g",
    }.to_text();
    assert!(out.contains("  supertypes: $ => [$.expression, $.statement],"));
    assert!(out.find("supertypes").unwrap() < out.find("rules").unwrap());
}

#[test]
fn scaffold_no_supertypes_omits_key() {
    let g = Grammar::from_rules(vec![p("a", TerminalLiteral("'x'".into()))]);
    let out = Scaffold {
        grammar: &g,
        name: "g",
    }.to_text();
    assert!(!out.contains("supertypes"));
}

#[test]
fn scaffold_with_extras_pattern_and_rule() {
    let mut g = Grammar::from_rules(vec![p("a", TerminalLiteral("'x'".into()))]);
    g.extras = vec![di("/\\s/", 0), di("comment", 0)];
    let out = Scaffold {
        grammar: &g,
        name: "g",
    }.to_text();
    assert!(out.contains("  extras: $ => [/\\s/, $.comment],"));
    assert!(out.find("extras").unwrap() < out.find("rules").unwrap());
}

#[test]
fn scaffold_no_extras_omits_key() {
    let g = Grammar::from_rules(vec![p("a", TerminalLiteral("'x'".into()))]);
    let out = Scaffold {
        grammar: &g,
        name: "g",
    }.to_text();
    assert!(!out.contains("extras"));
}
