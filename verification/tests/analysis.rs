use std::collections::{HashMap, HashSet};

use ts_bnf_tool::analysis::{
    count_leaf_rules, count_left_recursive, count_unique_terminals, first_set_stats, first_sets, is_nullable,
    left_recursive_rules, FirstTerminal,
};
use ts_bnf_tool::nameset::NameSet;
use ts_bnf_tool::nodes::{GrammarNode, PrecKind};
use ts_bnf_tool::nodes::GrammarNode::{
    Alias, Choice, Field, NonTerminal, OneOrMore, Optional, Prec, Reserved, Sequence, TerminalLiteral, TerminalPattern,
    Token, TokenImmediate, ZeroOrMore,
};
use ts_bnf_tool::production::Production;
use ts_bnf_tool::test_utils::p;
use ts_bnf_tool::types::Grammar;

fn grammar(prods: Vec<Production>) -> Grammar {
    Grammar::from_rules(prods)
}

fn lit(s: &str) -> GrammarNode {
    TerminalLiteral(s.into())
}

fn pat(s: &str) -> GrammarNode {
    TerminalPattern(s.into())
}

fn nt(s: &str) -> GrammarNode {
    NonTerminal(s.into())
}

/// The FIRST sets of `g`, keyed by rule name.
fn first_map(g: &Grammar) -> HashMap<String, HashSet<FirstTerminal>> {
    first_sets(g).into_iter().map(|(k, v)| (k, v.into_iter().collect())).collect()
}

#[test]
/// `Reserved` is a transparent structural annotation for nullability, like `Field`/`Prec`.
fn is_nullable_propagates_through_reserved() {
    let mut nullable = NameSet::new();
    nullable.insert("a");
    let node = Reserved("kw".into(), Box::new(nt("a")));
    assert!(is_nullable(&node, &nullable));
}

#[test]
fn first_of_literal() {
    let g = grammar(vec![p("a", lit("'x'"))]);
    assert_eq!(
        first_map(&g)["a"],
        HashSet::from([FirstTerminal::Literal("'x'".into())])
    );
}

#[test]
fn first_of_pattern() {
    let g = grammar(vec![p("a", pat("/[0-9]+/"))]);
    assert_eq!(
        first_map(&g)["a"],
        HashSet::from([FirstTerminal::Pattern("/[0-9]+/".into())])
    );
}

#[test]
fn first_of_nonterminal_chain() {
    // b -> 'x' ;  a -> b ;  →  FIRST[a] = FIRST[b] = {'x'}
    let g = grammar(vec![p("b", lit("'x'")), p("a", nt("b"))]);
    let f = first_map(&g);
    assert_eq!(f["a"], HashSet::from([FirstTerminal::Literal("'x'".into())]));
}

#[test]
fn first_propagates_through_indirect_chain() {
    // c -> 'z' ;  b -> c ;  a -> b ;
    let g = grammar(vec![p("c", lit("'z'")), p("b", nt("c")), p("a", nt("b"))]);
    let f = first_map(&g);
    assert_eq!(f["b"], HashSet::from([FirstTerminal::Literal("'z'".into())]));
    assert_eq!(f["a"], HashSet::from([FirstTerminal::Literal("'z'".into())]));
}

#[test]
fn first_handles_mutual_recursion() {
    // a -> b | 'x' ;  b -> a | 'y' ;  — fixpoint must terminate
    let g = grammar(vec![
        p("a", Choice(vec![nt("b"), lit("'x'")])),
        p("b", Choice(vec![nt("a"), lit("'y'")])),
    ]);
    let f = first_map(&g);
    let expected =
        HashSet::from([FirstTerminal::Literal("'x'".into()), FirstTerminal::Literal("'y'".into())]);
    assert_eq!(f["a"], expected);
    assert_eq!(f["b"], expected);
}

#[test]
fn first_of_choice_is_union() {
    let g = grammar(vec![p("a", Choice(vec![lit("'x'"), lit("'y'")]))]);
    assert_eq!(
        first_map(&g)["a"],
        HashSet::from([FirstTerminal::Literal("'x'".into()), FirstTerminal::Literal("'y'".into())])
    );
}

#[test]
fn first_of_sequence_stops_at_non_nullable() {
    // a -> 'x' 'y' ;  →  only 'x' reachable first
    let g = grammar(vec![p("a", Sequence(vec![lit("'x'"), lit("'y'")]))]);
    assert_eq!(
        first_map(&g)["a"],
        HashSet::from([FirstTerminal::Literal("'x'".into())])
    );
}

#[test]
fn first_of_sequence_continues_past_optional() {
    // a -> 'x'? 'y' ;  — the optional may be skipped, so 'y' is also reachable first
    let g = grammar(vec![p(
        "a",
        Sequence(vec![Optional(Box::new(lit("'x'"))), lit("'y'")]),
    )]);
    assert_eq!(
        first_map(&g)["a"],
        HashSet::from([FirstTerminal::Literal("'x'".into()), FirstTerminal::Literal("'y'".into())])
    );
}

#[test]
fn first_of_sequence_continues_past_zero_or_more() {
    // a -> 'x'* 'y' ;
    let g = grammar(vec![p(
        "a",
        Sequence(vec![ZeroOrMore(Box::new(lit("'x'"))), lit("'y'")]),
    )]);
    assert_eq!(
        first_map(&g)["a"],
        HashSet::from([FirstTerminal::Literal("'x'".into()), FirstTerminal::Literal("'y'".into())])
    );
}

#[test]
fn first_of_optional_includes_inner() {
    let g = grammar(vec![p("a", Optional(Box::new(lit("'x'"))))]);
    assert_eq!(
        first_map(&g)["a"],
        HashSet::from([FirstTerminal::Literal("'x'".into())])
    );
}

#[test]
fn first_of_zero_or_more_includes_inner() {
    let g = grammar(vec![p("a", ZeroOrMore(Box::new(lit("'x'"))))]);
    assert_eq!(
        first_map(&g)["a"],
        HashSet::from([FirstTerminal::Literal("'x'".into())])
    );
}

#[test]
fn first_of_one_or_more_includes_inner() {
    let g = grammar(vec![p("a", OneOrMore(Box::new(lit("'x'"))))]);
    assert_eq!(
        first_map(&g)["a"],
        HashSet::from([FirstTerminal::Literal("'x'".into())])
    );
}

#[test]
fn first_transparent_through_field() {
    let g = grammar(vec![p("a", Field("f".into(), Box::new(lit("'x'"))))]);
    assert_eq!(
        first_map(&g)["a"],
        HashSet::from([FirstTerminal::Literal("'x'".into())])
    );
}

#[test]
fn first_transparent_through_token() {
    let g = grammar(vec![p("a", Token(Box::new(pat("/[a-z]/"))))]);
    assert_eq!(
        first_map(&g)["a"],
        HashSet::from([FirstTerminal::Pattern("/[a-z]/".into())])
    );
}

#[test]
fn first_transparent_through_token_immediate() {
    let g = grammar(vec![p("a", TokenImmediate(Box::new(pat("/[a-z]/"))))]);
    assert_eq!(
        first_map(&g)["a"],
        HashSet::from([FirstTerminal::Pattern("/[a-z]/".into())])
    );
}

#[test]
fn first_transparent_through_alias() {
    let g = grammar(vec![p(
        "a",
        Alias(Box::new(lit("'x'")), Box::new(lit("'y'"))),
    )]);
    assert_eq!(
        first_map(&g)["a"],
        HashSet::from([FirstTerminal::Literal("'x'".into())])
    );
}

#[test]
fn first_transparent_through_prec() {
    let g = grammar(vec![p(
        "a",
        Prec(PrecKind::Left, Some(ts_bnf_tool::nodes::PrecLevel::Integer(1)), Box::new(lit("'x'"))),
    )]);
    assert_eq!(
        first_map(&g)["a"],
        HashSet::from([FirstTerminal::Literal("'x'".into())])
    );
}

#[test]
/// An empty grammar has no leaf rules.
fn leaf_rules_empty_grammar() {
    assert_eq!(count_leaf_rules(&grammar(vec![])), 0);
}

#[test]
/// A rule whose body is a single terminal is a leaf.
fn leaf_rules_single_terminal() {
    let g = grammar(vec![p("tok", lit("'x'"))]);
    assert_eq!(count_leaf_rules(&g), 1);
}

#[test]
/// A rule that references another rule is not a leaf.
fn leaf_rules_nonterminal_body_not_leaf() {
    let g = grammar(vec![p("tok", lit("'x'")), p("expr", nt("tok"))]);
    assert_eq!(count_leaf_rules(&g), 1);
}

#[test]
/// All rules in a purely terminal grammar are counted as leaves.
fn leaf_rules_all_terminal() {
    let g = grammar(vec![
        p("a", lit("'x'")),
        p("b", TerminalPattern("/[0-9]+/".into())),
        p("c", Choice(vec![lit("'+'"), lit("'-'")])),
    ]);
    assert_eq!(count_leaf_rules(&g), 3);
}

#[test]
/// A token(…) wrapping a terminal is still a leaf — token contains no NonTerminal.
fn leaf_rules_token_wrapping_terminal_is_leaf() {
    let g = grammar(vec![p(
        "tok",
        Token(Box::new(TerminalPattern("/[a-z]+/".into()))),
    )]);
    assert_eq!(count_leaf_rules(&g), 1);
}

#[test]
/// An empty grammar has no terminals.
fn unique_terminals_empty_grammar() {
    assert_eq!(count_unique_terminals(&grammar(vec![])), (0, 0));
}

#[test]
/// A single literal produces one unique literal and zero patterns.
fn unique_terminals_single_literal() {
    let g = grammar(vec![p("a", lit("'x'"))]);
    assert_eq!(count_unique_terminals(&g), (1, 0));
}

#[test]
/// A single pattern produces zero literals and one unique pattern.
fn unique_terminals_single_pattern() {
    let g = grammar(vec![p("a", pat("/[0-9]+/"))]);
    assert_eq!(count_unique_terminals(&g), (0, 1));
}

#[test]
/// The same literal appearing in two rules is counted only once.
fn unique_terminals_deduplicates_across_rules() {
    let g = grammar(vec![p("a", lit("'x'")), p("b", lit("'x'"))]);
    assert_eq!(count_unique_terminals(&g), (1, 0));
}

#[test]
/// The same literal appearing twice inside one rule body is counted once.
fn unique_terminals_deduplicates_within_rule() {
    let g = grammar(vec![p("a", Choice(vec![lit("'x'"), lit("'x'")]))]);
    assert_eq!(count_unique_terminals(&g), (1, 0));
}

#[test]
/// Literals and patterns are counted in separate buckets.
fn unique_terminals_separates_literals_and_patterns() {
    let g = grammar(vec![p(
        "a",
        Sequence(vec![lit("'+'"), pat("/[0-9]+/"), lit("'-'")]),
    )]);
    assert_eq!(count_unique_terminals(&g), (2, 1));
}

#[test]
/// Terminals nested inside token(…) are still collected.
fn unique_terminals_inside_token() {
    let g = grammar(vec![p("a", Token(Box::new(lit("'x'"))))]);
    assert_eq!(count_unique_terminals(&g), (1, 0));
}

#[test]
/// The alias name node is not a terminal source — only the body is walked.
fn unique_terminals_alias_name_not_collected() {
    // alias(body='x', name=some_rule) — name is a NonTerminal display label.
    let g = grammar(vec![p(
        "a",
        Alias(Box::new(lit("'x'")), Box::new(nt("label"))),
    )]);
    assert_eq!(count_unique_terminals(&g), (1, 0));
}

#[test]
/// A grammar with no recursion returns (0, 0).
fn left_recursive_none() {
    let g = grammar(vec![p("a", lit("'x'"))]);
    assert_eq!(count_left_recursive(&g), (0, 0));
}

#[test]
/// A directly left-recursive rule (`a → a …`) is counted in the direct bucket.
fn left_recursive_direct_only() {
    let g = grammar(vec![p(
        "a",
        Choice(vec![Sequence(vec![nt("a"), lit("'x'")]), lit("'y'")]),
    )]);
    assert_eq!(count_left_recursive(&g), (1, 0));
}

#[test]
/// Two rules that are mutually left-recursive appear in the mutual bucket.
fn left_recursive_mutual_only() {
    let g = grammar(vec![
        p(
            "a",
            Choice(vec![Sequence(vec![nt("b"), lit("'x'")]), lit("'a'")]),
        ),
        p(
            "b",
            Choice(vec![Sequence(vec![nt("a"), lit("'y'")]), lit("'b'")]),
        ),
    ]);
    let (direct, mutual) = count_left_recursive(&g);
    assert_eq!(direct, 0);
    assert_eq!(mutual, 2);
}

#[test]
/// An empty grammar has no FIRST sets to aggregate.
fn first_set_stats_empty_grammar_returns_none() {
    assert_eq!(first_set_stats(&grammar(vec![])), None);
}

#[test]
/// A single rule with one terminal: min = max = avg = 1.
fn first_set_stats_single_rule_single_terminal() {
    let g = grammar(vec![p("a", lit("'x'"))]);
    let stats = first_set_stats(&g).unwrap();
    assert_eq!(stats.min, 1);
    assert_eq!(stats.max, 1);
    assert_eq!(stats.avg_tenths as f64 / 10.0, 1.0);
}

#[test]
/// Two rules with FIRST sets of size 1 and 3: min=1, max=3, avg=2.0.
fn first_set_stats_min_max_avg() {
    let g = grammar(vec![
        p("a", lit("'x'")),
        p("b", Choice(vec![lit("'x'"), lit("'y'"), lit("'z'")])),
    ]);
    let stats = first_set_stats(&g).unwrap();
    assert_eq!(stats.min, 1);
    assert_eq!(stats.max, 3);
    assert_eq!(stats.avg_tenths as f64 / 10.0, 2.0);
}

#[test]
/// Average is rounded to one decimal place (not truncated).
fn first_set_stats_avg_rounds_to_one_decimal() {
    // Three rules with FIRST sets of size 1, 1, 2 → raw avg = 4/3 ≈ 1.333… → rounded 1.3
    let g = grammar(vec![
        p("a", lit("'x'")),
        p("b", lit("'y'")),
        p("c", Choice(vec![lit("'p'"), lit("'q'")])),
    ]);
    let stats = first_set_stats(&g).unwrap();
    assert_eq!(stats.avg_tenths as f64 / 10.0, 1.3);
}

#[test]
fn left_recursive_rules_are_sorted_with_direct_flag() {
    let g = grammar(vec![
        p("b", Choice(vec![Sequence(vec![nt("b"), lit("'x'")]), lit("'y'")])),
        p("a", Choice(vec![Sequence(vec![nt("c"), lit("'x'")]), lit("'y'")])),
        p("c", Sequence(vec![nt("a"), lit("'z'")])),
    ]);
    assert_eq!(
        left_recursive_rules(&g),
        vec![("a".to_string(), false), ("b".to_string(), true), ("c".to_string(), false)]
    );
}

#[test]
fn first_sets_follow_declaration_order() {
    let g = grammar(vec![p("z", lit("'1'")), p("a", lit("'2'"))]);
    let names: Vec<String> = first_sets(&g).into_iter().map(|(k, _)| k).collect();
    assert_eq!(names, vec!["z".to_string(), "a".to_string()]);
}
