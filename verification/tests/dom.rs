use ts_bnf_tool::nodes::GrammarNode::{
    Alias, Choice, Field, NonTerminal, OneOrMore, Optional, Prec, Reserved, Sequence, TerminalLiteral, TerminalPattern,
    Token, TokenImmediate, ZeroOrMore,
};
use ts_bnf_tool::nodes::{PrecKind, PrecLevel};
use ts_bnf_tool::production::Production;

#[test]
fn nonterminal_display() {
    assert_eq!(NonTerminal("foo".into()).to_js(), "$.foo");
}

#[test]
fn terminal_literal_display() {
    assert_eq!(TerminalLiteral("'x'".into()).to_js(), "'x'");
}

#[test]
fn terminal_pattern_display() {
    assert_eq!(TerminalPattern("/a+/".into()).to_js(), "/a+/");
}

#[test]
fn zero_or_more_display() {
    assert_eq!(
        ZeroOrMore(Box::new(NonTerminal("a".into()))).to_js(),
        "repeat($.a)"
    );
}

#[test]
fn one_or_more_display() {
    assert_eq!(
        OneOrMore(Box::new(NonTerminal("a".into()))).to_js(),
        "repeat1($.a)"
    );
}

#[test]
fn optional_display() {
    assert_eq!(
        Optional(Box::new(NonTerminal("a".into()))).to_js(),
        "optional($.a)"
    );
}

#[test]
fn token_display() {
    assert_eq!(
        Token(Box::new(TerminalPattern("/[0-9]+/".into()))).to_js(),
        "token(/[0-9]+/)"
    );
}

#[test]
fn field_display() {
    assert_eq!(
        Field("lhs".into(), Box::new(NonTerminal("expr".into()))).to_js(),
        "field('lhs', $.expr)"
    );
}

#[test]
fn alias_display() {
    assert_eq!(
        Alias(
            Box::new(NonTerminal("foo".into())),
            Box::new(NonTerminal("bar".into()))
        ).to_js(),
        "alias($.foo, $.bar)"
    );
}

#[test]
fn prec_plain_display() {
    assert_eq!(
        Prec(PrecKind::Plain, Some(PrecLevel::Integer(1)), Box::new(NonTerminal("a".into()))).to_js(),
        "prec(1, $.a)"
    );
}

#[test]
fn prec_left_display() {
    assert_eq!(
        Prec(PrecKind::Left, Some(PrecLevel::Integer(2)), Box::new(NonTerminal("a".into()))).to_js(),
        "prec.left(2, $.a)"
    );
}

#[test]
fn prec_right_no_level_display() {
    assert_eq!(
        Prec(PrecKind::Right, None, Box::new(NonTerminal("a".into()))).to_js(),
        "prec.right($.a)"
    );
}

#[test]
fn prec_dynamic_display() {
    assert_eq!(
        Prec(
            PrecKind::Dynamic,
            Some(PrecLevel::Integer(3)),
            Box::new(TerminalLiteral("'x'".into()))
        ).to_js(),
        "prec.dynamic(3, 'x')"
    );
}

#[test]
fn token_sequence_display() {
    assert_eq!(
        Token(Box::new(Sequence(vec![
            TerminalPattern("/[A-Za-z_]/".into()),
            TerminalPattern("/[A-Za-z0-9_]*/".into()),
        ]))).to_js(),
        "token(seq(/[A-Za-z_]/, /[A-Za-z0-9_]*/))"
    );
}

#[test]
fn sequence_display() {
    assert_eq!(
        Sequence(vec![
            NonTerminal("a".into()),
            NonTerminal("b".into()),
            NonTerminal("c".into()),
        ]).to_js(),
        "seq($.a, $.b, $.c)"
    );
}

#[test]
fn choice_display() {
    assert_eq!(
        Choice(vec![NonTerminal("a".into()), NonTerminal("b".into())]).to_js(),
        "choice($.a, $.b)"
    );
}

#[test]
fn dom_production_display() {
    let p = Production {
        name: "expr".into(),
        body: NonTerminal("a".into()),
        line: 1,
        filename: "test.bnf".into(),
    };
    assert_eq!(p.to_text(), "expr -> $.a");
}
