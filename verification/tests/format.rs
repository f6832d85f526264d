use ts_bnf_tool::directive::NameOrLiteral;
use ts_bnf_tool::format::{
    format_conflicts, format_directive, format_externals, format_grammar, format_node_nested, format_node_top,
    format_precedences, format_production, format_reserved,
};
use ts_bnf_tool::nodes::GrammarNode::{
    self, Alias, Choice, Field, NonTerminal, OneOrMore, Optional, Prec, Reserved, Sequence, TerminalLiteral,
    TerminalPattern, Token, TokenImmediate, ZeroOrMore,
};
use ts_bnf_tool::nodes::{PrecKind, PrecLevel};
use ts_bnf_tool::test_utils::{cg, di, p, pg, re};
use ts_bnf_tool::types::Grammar;

fn nt(s: &str) -> GrammarNode {
    NonTerminal(s.into())
}

fn lit(s: &str) -> GrammarNode {
    TerminalLiteral(s.into())
}

fn pat(s: &str) -> GrammarNode {
    TerminalPattern(s.into())
}

#[test]
fn extras_directive_single_item() {
    assert_eq!(
        format_directive("extras", &[di("/\\s/", 1)]),
        "%extras /\\s/"
    );
}

#[test]
fn extras_directive_multiple_items() {
    assert_eq!(
        format_directive("extras", &[di("/\\s/", 1), di("comment", 1)]),
        "%extras /\\s/, comment"
    );
}

#[test]
fn inline_directive() {
    assert_eq!(
        format_directive("inline", &[di("foo", 1), di("bar", 1)]),
        "%inline foo, bar"
    );
}

#[test]
fn supertypes_directive() {
    assert_eq!(
        format_directive("supertypes", &[di("expr", 1), di("stmt", 1)]),
        "%supertypes expr, stmt"
    );
}

#[test]
fn conflicts_single_group() {
    assert_eq!(format_conflicts(&[cg(&["a", "b"], 1)]), "%conflicts [a, b]");
}

#[test]
fn conflicts_multiple_groups() {
    assert_eq!(
        format_conflicts(&[cg(&["a", "b"], 1), cg(&["c", "d", "e"], 1)]),
        "%conflicts [a, b], [c, d, e]"
    );
}

#[test]
fn precedences_single_group_names_only() {
    assert_eq!(
        format_precedences(&[pg(
            &[
                NameOrLiteral::Name("a".into()),
                NameOrLiteral::Name("b".into())
            ],
            1
        )]),
        "%precedences [a, b]"
    );
}

#[test]
fn precedences_single_group_with_literal() {
    assert_eq!(
        format_precedences(&[pg(
            &[
                NameOrLiteral::Name("a".into()),
                NameOrLiteral::Literal("'call'".into())
            ],
            1
        )]),
        "%precedences [a, 'call']"
    );
}

#[test]
fn precedences_multiple_groups() {
    assert_eq!(
        format_precedences(&[
            pg(
                &[
                    NameOrLiteral::Name("a".into()),
                    NameOrLiteral::Name("b".into())
                ],
                1
            ),
            pg(
                &[
                    NameOrLiteral::Name("c".into()),
                    NameOrLiteral::Literal("'call'".into())
                ],
                1
            ),
        ]),
        "%precedences [a, b], [c, 'call']"
    );
}

#[test]
fn precedences_absent_when_empty() {
    let g = Grammar::from_rules(vec![p("a", nt("b")), p("b", lit("'x'"))]);
    let out = format_grammar(&g);
    assert!(!out.contains("precedences"));
}

#[test]
fn precedences_after_conflicts_in_canonical_order() {
    let mut g = Grammar::from_rules(vec![p("a", lit("'x'")), p("b", lit("'y'"))]);
    g.conflicts = vec![cg(&["a", "b"], 1)];
    g.precedences = vec![pg(&[NameOrLiteral::Name("a".into())], 1)];
    let out = format_grammar(&g);
    assert!(out.find("conflicts").unwrap() < out.find("precedences").unwrap());
}

#[test]
fn externals_names_only() {
    assert_eq!(
        format_externals(&[
            NameOrLiteral::Name("a".into()),
            NameOrLiteral::Name("b".into())
        ]),
        "%externals a, b"
    );
}

#[test]
fn externals_with_literal() {
    assert_eq!(
        format_externals(&[
            NameOrLiteral::Name("a".into()),
            NameOrLiteral::Literal("'lit'".into())
        ]),
        "%externals a, 'lit'"
    );
}

#[test]
fn externals_absent_when_empty() {
    let g = Grammar::from_rules(vec![p("a", nt("b")), p("b", lit("'x'"))]);
    let out = format_grammar(&g);
    assert!(!out.contains("externals"));
}

#[test]
fn externals_after_supertypes_in_canonical_order() {
    let mut g = Grammar::from_rules(vec![p("a", lit("'x'"))]);
    g.supertypes = vec![di("a", 1)];
    g.externals = vec![NameOrLiteral::Name("tok".into())];
    let out = format_grammar(&g);
    assert!(out.find("%supertypes").unwrap() < out.find("%externals").unwrap());
}

#[test]
fn single_alternative_short_stays_on_one_line() {
    assert_eq!(format_production(&p("rule", nt("foo"))), "rule -> foo;");
}

#[test]
fn two_short_alternatives_stay_on_one_line() {
    assert_eq!(
        format_production(&p("rule", Choice(vec![nt("foo"), nt("bar")]))),
        "rule -> foo | bar;"
    );
}

#[test]
fn long_rule_splits_alternatives() {
    let prod = p(
        "very_long_rule_name",
        Choice(vec![
            nt("alternative_one_which_is_long"),
            nt("alternative_two_which_is_long"),
        ]),
    );
    let out = format_production(&prod);
    assert_eq!(
        out,
        "very_long_rule_name -> alternative_one_which_is_long\n                     | alternative_two_which_is_long\n                     ;"
    );
}

#[test]
fn multiline_semicolon_aligns_with_pipe() {
    let prod = p(
        "x",
        Choice(vec![
            nt("aaaaaaaaaaaaaaaaaaaaaaaaaaaaaaaaaaaaaaaaaa"),
            nt("bbbbbbbbbbbbbbbbbbbbbbbbbbbbbbbbbbbbbbbbbb"),
        ]),
    );
    let out = format_production(&prod);
    let lines: Vec<&str> = out.lines().collect();
    let pipe_indent = lines[1].find('|').unwrap();
    let semi_indent = lines[2].find(';').unwrap();
    assert_eq!(pipe_indent, semi_indent);
}

#[test]
fn non_terminal_no_dollar_sign() {
    assert_eq!(format_node_nested(&nt("foo")), "foo");
}

#[test]
fn terminal_literal_passthrough() {
    assert_eq!(format_node_nested(&lit("'x'")), "'x'");
}

#[test]
fn terminal_pattern_passthrough() {
    assert_eq!(format_node_nested(&pat("/a+/")), "/a+/");
}

#[test]
fn terminal_pattern_with_flags_passthrough() {
    assert_eq!(format_node_nested(&pat("/select/i")), "/select/i");
}

#[test]
fn optional_simple_no_parens() {
    assert_eq!(format_node_nested(&Optional(Box::new(nt("a")))), "a?");
}

#[test]
fn optional_sequence_gets_parens() {
    assert_eq!(
        format_node_nested(&Optional(Box::new(Sequence(vec![nt("a"), nt("b")])))),
        "(a b)?"
    );
}

#[test]
fn optional_choice_gets_parens() {
    assert_eq!(
        format_node_nested(&Optional(Box::new(Choice(vec![nt("a"), nt("b")])))),
        "(a | b)?"
    );
}

#[test]
fn zero_or_more_simple() {
    assert_eq!(format_node_nested(&ZeroOrMore(Box::new(nt("a")))), "a*");
}

#[test]
fn one_or_more_simple() {
    assert_eq!(format_node_nested(&OneOrMore(Box::new(nt("a")))), "a+");
}

#[test]
fn token_expr() {
    assert_eq!(
        format_node_nested(&Token(Box::new(lit("'x'")))),
        "<< 'x' >>"
    );
}

#[test]
fn token_immediate_expr() {
    assert_eq!(
        format_node_nested(&TokenImmediate(Box::new(lit("'x'")))),
        "<<! 'x' >>"
    );
}

#[test]
fn field_label() {
    assert_eq!(
        format_node_nested(&Field("lhs".into(), Box::new(nt("expr")))),
        "lhs: expr"
    );
}

#[test]
fn alias_group() {
    assert_eq!(
        format_node_nested(&Alias(Box::new(nt("foo")), Box::new(nt("bar")))),
        "(foo => bar)"
    );
}

#[test]
/// A top-level `Prec` with an integer level formats without parens: `body %kind level`.
fn prec_top_level_no_parens() {
    assert_eq!(
        format_node_top(&Prec(
            PrecKind::Left,
            Some(PrecLevel::Integer(1)),
            Box::new(nt("a"))
        )),
        "a %prec.left 1"
    );
}

#[test]
/// A top-level `Prec` with a named level prints the level verbatim (already quoted),
/// with no parens, same as the integer case.
fn prec_top_level_no_parens_named() {
    assert_eq!(
        format_node_top(&Prec(
            PrecKind::Left,
            Some(PrecLevel::Name("'unary'".into())),
            Box::new(nt("a"))
        )),
        "a %prec.left 'unary'"
    );
}

#[test]
/// A nested `Prec` (inside a quantifier, field, etc.) with an integer level gets
/// wrapped in parens so it can't be misread as part of the surrounding expression.
fn prec_nested_gets_parens() {
    assert_eq!(
        format_node_nested(&Prec(
            PrecKind::Left,
            Some(PrecLevel::Integer(1)),
            Box::new(nt("a"))
        )),
        "(a %prec.left 1)"
    );
}

#[test]
/// Same as `prec_nested_gets_parens`, but for a named level: parens are still added,
/// and the name still prints verbatim.
fn prec_nested_gets_parens_named() {
    assert_eq!(
        format_node_nested(&Prec(
            PrecKind::Left,
            Some(PrecLevel::Name("'unary'".into())),
            Box::new(nt("a"))
        )),
        "(a %prec.left 'unary')"
    );
}

#[test]
/// A `Prec` with no level at all omits the level entirely: just `body %kind`.
fn prec_no_level() {
    assert_eq!(
        format_node_top(&Prec(PrecKind::Right, None, Box::new(nt("a")))),
        "a %prec.right"
    );
}

#[test]
/// A negative integer level prints its sign verbatim (`-1`), not just non-negative levels.
fn prec_negative_level() {
    assert_eq!(
        format_node_top(&Prec(
            PrecKind::Plain,
            Some(PrecLevel::Integer(-1)),
            Box::new(nt("a"))
        )),
        "a %prec -1"
    );
}

#[test]
fn reserved_group_nested() {
    assert_eq!(
        format_node_nested(&Reserved("kw".into(), Box::new(nt("a")))),
        "(a %reserved kw)"
    );
}

#[test]
fn reserved_directive_name_and_literal() {
    assert_eq!(
        format_reserved(&[re(
            "kw",
            &[
                NameOrLiteral::Name("a".into()),
                NameOrLiteral::Literal("'call'".into())
            ],
            0
        )]),
        "%reserved kw: [a, 'call']"
    );
}

#[test]
fn reserved_directive_multiple_entries() {
    assert_eq!(
        format_reserved(&[re("kw", &[], 0), re("prop", &[], 0)]),
        "%reserved kw: [], prop: []"
    );
}

#[test]
fn reserved_absent_when_empty() {
    let g = Grammar::from_rules(vec![p("a", nt("b")), p("b", lit("'x'"))]);
    let out = format_grammar(&g);
    assert!(!out.contains("reserved"));
}

#[test]
fn reserved_after_axiom_before_word_in_canonical_order() {
    let mut g = Grammar::from_rules(vec![p("ident", lit("'x'"))]);
    g.declare_axiom(di("ident", 1));
    g.declare_word(di("ident", 1));
    g.reserved_sets = vec![re("kw", &[], 1)];
    let out = format_grammar(&g);
    assert!(out.find("%axiom").unwrap() < out.find("%reserved").unwrap());
    assert!(out.find("%reserved").unwrap() < out.find("%word").unwrap());
}

#[test]
fn grammar_directives_come_before_rules() {
    let mut g = Grammar::from_rules(vec![p("rule", nt("a"))]);
    g.extras = vec![di("/\\s/", 1)];
    let out = format_grammar(&g);
    assert!(out.find("%extras").unwrap() < out.find("rule ->").unwrap());
}

#[test]
fn grammar_axiom_emitted_first() {
    let mut g = Grammar::from_rules(vec![p("r", nt("a"))]);
    g.declare_axiom(di("r", 1));
    g.extras = vec![di("/\\s/", 1)];
    let out = format_grammar(&g);
    assert!(out.find("%axiom").unwrap() < out.find("%extras").unwrap());
    assert!(out.contains("%axiom r\n"));
}

#[test]
fn grammar_no_axiom_directive_when_absent() {
    let g = Grammar::from_rules(vec![p("r", nt("a"))]);
    assert!(!format_grammar(&g).contains("%axiom"));
}

#[test]
fn grammar_canonical_directive_order() {
    let mut g = Grammar::from_rules(vec![p("r", nt("a"))]);
    g.declare_axiom(di("r", 1));
    g.extras = vec![di("/\\s/", 1)];
    g.conflicts = vec![cg(&["a", "b"], 1)];
    g.inline = vec![di("foo", 1)];
    g.supertypes = vec![di("expr", 1)];
    let out = format_grammar(&g);
    assert!(out.find("%axiom").unwrap() < out.find("%extras").unwrap());
    assert!(out.find("%extras").unwrap() < out.find("%conflicts").unwrap());
    assert!(out.find("%conflicts").unwrap() < out.find("%inline").unwrap());
    assert!(out.find("%inline").unwrap() < out.find("%supertypes").unwrap());
}

#[test]
fn grammar_blank_line_between_directives_and_rules() {
    let mut g = Grammar::from_rules(vec![p("rule", nt("a"))]);
    g.extras = vec![di("/\\s/", 1)];
    let out = format_grammar(&g);
    assert_eq!(
        out,
        "%extras /\\s/\n\nrule -> a;\n"
    );
}

#[test]
fn grammar_blank_line_between_consecutive_rules() {
    let g = Grammar::from_rules(vec![p("a", nt("x")), p("b", nt("y"))]);
    let out = format_grammar(&g);
    assert_eq!(
        out,
        "a -> x;\n\nb -> y;\n"
    );
}

#[test]
fn grammar_word_emitted_after_axiom_before_extras() {
    let mut g = Grammar::from_rules(vec![p("ident", nt("x"))]);
    g.declare_axiom(di("ident", 1));
    g.declare_word(di("ident", 1));
    g.extras = vec![di("/\\s/", 1)];
    let out = format_grammar(&g);
    assert!(out.contains("%word ident\n"), "%word must appear");
    assert!(
        out.find("%axiom").unwrap() < out.find("%word").unwrap(),
        "%axiom must precede %word"
    );
    assert!(
        out.find("%word").unwrap() < out.find("%extras").unwrap(),
        "%word must precede %extras"
    );
}

#[test]
fn grammar_no_word_directive_when_absent() {
    let g = Grammar::from_rules(vec![p("r", nt("a"))]);
    assert!(!format_grammar(&g).contains("%word"));
}
