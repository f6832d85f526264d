use ts_bnf_tool::diagnostic::{Diagnostic, Severity};
use ts_bnf_tool::directive::NameOrLiteral;
use ts_bnf_tool::nodes::GrammarNode::{
    Alias, Choice, Field, NonTerminal, OneOrMore, Optional, Prec, Reserved, Sequence, TerminalLiteral, TerminalPattern,
    Token, TokenImmediate, ZeroOrMore,
};
use ts_bnf_tool::nodes::{GrammarNode, PrecKind, PrecLevel};
use ts_bnf_tool::checks::check_directive_ref;
use ts_bnf_tool::test_utils::{cg, di, nt, p, pg, re};
use ts_bnf_tool::production::Production;
use ts_bnf_tool::types::Grammar;

/// Renders each diagnostic to its full display string for easy comparison.
fn strs(diagnostics: &[Diagnostic]) -> Vec<String> {
    diagnostics.iter().map(|d| d.to_text()).collect()
}

#[test]
/// Errors when a `%conflicts` group names a rule that has no definition.
fn conflicts_check_errors_on_undefined_rule() {
    let mut g = Grammar::from_rules(vec![p("a", TerminalLiteral("'x'".into()))]);
    g.conflicts = vec![cg(&["a", "ghost"], 0)];
    assert_eq!(
        strs(&g.conflicts_check(&g.known_rules())),
        vec!["error: %conflicts references undefined rule 'ghost' (line 0)"]
    );
}

#[test]
/// No errors when every rule named in `%conflicts` is defined.
fn conflicts_check_no_errors_when_all_rules_defined() {
    let mut g = Grammar::from_rules(vec![
        p("a", TerminalLiteral("'x'".into())),
        p("b", TerminalLiteral("'y'".into())),
    ]);
    g.conflicts = vec![cg(&["a", "b"], 0)];
    assert!(g.conflicts_check(&g.known_rules()).is_empty());
}

#[test]
/// Errors when `%supertypes` names a rule that has no definition.
fn supertypes_check_errors_on_undefined_rule() {
    let mut g = Grammar::from_rules(vec![p("a", TerminalLiteral("'x'".into()))]);
    g.supertypes = vec![di("ghost", 0)];
    assert_eq!(
        strs(&g.supertypes_check()),
        vec!["error: %supertypes references undefined rule 'ghost' (line 0)"]
    );
}

#[test]
/// No error when the rule named in `%supertypes` is defined with a
/// non-token, single-step body (a reference to another rule).
fn supertypes_check_no_errors_when_all_rules_defined() {
    let mut g = Grammar::from_rules(vec![
        p("expression", NonTerminal("statement".into())),
        p("statement", TerminalLiteral("'x'".into())),
    ]);
    g.supertypes = vec![di("expression", 0)];
    assert!(g.supertypes_check().is_empty());
}

#[test]
/// A name declared only via `%externals` (no rule body) is undefined for
/// `%supertypes` purposes — a supertype must be an actual rule.
fn supertypes_check_errors_on_external_only_name() {

    let mut g = Grammar::from_rules(vec![p("expression", TerminalLiteral("'x'".into()))]);
    g.externals = vec![NameOrLiteral::Name("foo".into())];
    g.supertypes = vec![di("foo", 0)];
    assert_eq!(
        strs(&g.supertypes_check()),
        vec!["error: %supertypes references undefined rule 'foo' (line 0)"]
    );
}

#[test]
/// Errors when a `%supertypes` rule's body is a bare token (`SupertypeTerminal`);
/// the location points at the rule's own definition, not at the directive's
/// distinct, deliberately mismatched line/file.
fn supertypes_check_errors_on_terminal_rule() {

    let mut g = Grammar::from_rules(vec![Production {
        name: "ident".into(),
        body: TerminalLiteral("'x'".into()),
        line: 42,
        filename: "ident.bnf".into(),
    }]);
    g.supertypes = vec![di("ident", 99)];
    assert_eq!(
        strs(&g.supertypes_check()),
        vec!["error: %supertypes rule 'ident' must not be a pure token (ident.bnf:42)"]
    );
}

#[test]
/// Errors when one alternative of a `%supertypes` rule has more than one
/// step (`InvalidSupertype`); the location points at the offending rule's
/// own definition, distinct from the other rule's and the directive's.
fn supertypes_check_errors_on_multi_step_alternative() {

    let mut g = Grammar::from_rules(vec![
        Production {
            name: "expr".into(),
            body: Choice(vec![
                NonTerminal("term".into()),
                Sequence(vec![
                    NonTerminal("term".into()),
                    TerminalLiteral("'+'".into()),
                    NonTerminal("term".into()),
                ]),
            ]),
            line: 7,
            filename: "expr.bnf".into(),
        },
        Production {
            name: "term".into(),
            body: TerminalLiteral("'1'".into()),
            line: 13,
            filename: "term.bnf".into(),
        },
    ]);
    g.supertypes = vec![di("expr", 99)];
    assert_eq!(
        strs(&g.supertypes_check()),
        vec![
            "error: %supertypes rule 'expr' has an alternative with more than one step (expr.bnf:7)"
        ]
    );
}

#[test]
/// No error when every alternative of a `%supertypes` rule is a single
/// step, mirroring `expr -> term | unary | binary ;`.
fn supertypes_check_no_errors_on_single_step_alternatives() {

    let mut g = Grammar::from_rules(vec![
        p(
            "expr",
            Choice(vec![
                NonTerminal("term".into()),
                NonTerminal("unary".into()),
                NonTerminal("binary".into()),
            ]),
        ),
        p("term", TerminalLiteral("'1'".into())),
        p("unary", TerminalLiteral("'-'".into())),
        p("binary", TerminalLiteral("'+'".into())),
    ]);
    g.supertypes = vec![di("expr", 0)];
    assert!(g.supertypes_check().is_empty());
}

#[test]
/// Errors when `%inline` names a rule that has no definition.
fn inline_check_errors_on_undefined_rule() {
    let mut g = Grammar::from_rules(vec![p("a", TerminalLiteral("'x'".into()))]);
    g.inline = vec![di("ghost", 0)];
    assert_eq!(
        strs(&g.inline_check(&g.known_rules())),
        vec!["error: %inline references undefined rule 'ghost' (line 0)"]
    );
}

#[test]
/// No error when the rule named in `%inline` is defined, is not the start
/// rule, is not also declared via `%externals`, and is not a pure token.
fn inline_check_no_errors_when_all_rules_defined() {
    let mut g = Grammar::from_rules(vec![
        p("root", NonTerminal("a".into())),
        p("a", NonTerminal("b".into())),
        p("b", TerminalLiteral("'x'".into())),
    ]);
    g.inline = vec![di("a", 0)];
    assert!(g.inline_check(&g.known_rules()).is_empty());
}

#[test]
/// Errors when `%inline` names the resolved start rule
/// (`ProcessInlinesError::FirstRule` upstream).
fn inline_check_errors_on_start_rule() {
    let mut g = Grammar::from_rules(vec![
        p("root", NonTerminal("a".into())),
        p("a", TerminalLiteral("'x'".into())),
    ]);
    g.inline = vec![di("root", 0)];
    assert_eq!(
        strs(&g.inline_check(&g.known_rules())),
        vec!["error: %inline rule 'root' cannot be the grammar's start rule (line 0)"]
    );
}

#[test]
/// Errors when `%inline` names a rule also declared via `%externals`
/// (`ProcessInlinesError::ExternalToken` upstream).
fn inline_check_errors_on_external_token() {

    let mut g = Grammar::from_rules(vec![p("root", TerminalLiteral("'x'".into()))]);
    g.externals = vec![NameOrLiteral::Name("foo".into())];
    g.inline = vec![di("foo", 0)];
    let mut known = g.known_rules();
    known.insert("foo");
    assert_eq!(
        strs(&g.inline_check(&known)),
        vec!["error: %inline rule 'foo' cannot also be declared via %externals (line 0)"]
    );
}

#[test]
/// Errors when `%inline` names a rule whose body is a bare token
/// (`ProcessInlinesError::Token` upstream); the location points at the
/// rule's own definition, not at the directive's distinct, deliberately
/// mismatched line/file.
fn inline_check_errors_on_pure_token_rule() {

    let mut g = Grammar::from_rules(vec![
        p("root", NonTerminal("ident".into())),
        Production {
            name: "ident".into(),
            body: TerminalLiteral("'x'".into()),
            line: 42,
            filename: "ident.bnf".into(),
        },
    ]);
    g.inline = vec![di("ident", 99)];
    assert_eq!(
        strs(&g.inline_check(&g.known_rules())),
        vec!["error: %inline rule 'ident' must not be a pure token (ident.bnf:42)"]
    );
}

#[test]
/// Errors when a `%precedences` group's `Name` item has no matching rule.
fn precedences_check_errors_on_undefined_name() {
    let mut g = Grammar::from_rules(vec![p("a", TerminalLiteral("'x'".into()))]);
    g.precedences = vec![pg(&[NameOrLiteral::Name("ghost".into())], 0)];
    assert_eq!(
        strs(&g.precedences_check(&g.known_rules())),
        vec!["error: %precedences references undefined rule 'ghost' (line 0)"]
    );
}

#[test]
/// A `%precedences` group's `Literal` item is never checked against rule names.
fn precedences_check_literal_never_errors() {
    let mut g = Grammar::from_rules(vec![p("a", TerminalLiteral("'x'".into()))]);
    g.precedences = vec![pg(&[NameOrLiteral::Literal("'call'".into())], 0)];
    assert!(g.precedences_check(&g.known_rules()).is_empty());
}

#[test]
/// No errors when every `Name` item across a `%precedences` group is defined.
fn precedences_check_no_errors_when_all_defined() {
    let mut g = Grammar::from_rules(vec![
        p("a", TerminalLiteral("'x'".into())),
        p("b", TerminalLiteral("'y'".into())),
    ]);
    g.precedences = vec![pg(
        &[
            NameOrLiteral::Name("a".into()),
            NameOrLiteral::Name("b".into()),
        ],
        0,
    )];
    assert!(g.precedences_check(&g.known_rules()).is_empty());
}

#[test]
/// Errors when a `%reserved` set's `Name` item has no matching rule.
fn reserved_check_errors_on_undefined_rule_name() {
    let mut g = Grammar::from_rules(vec![p("a", TerminalLiteral("'x'".into()))]);
    g.reserved_sets = vec![re("kw", &[NameOrLiteral::Name("ghost".into())], 0)];
    assert_eq!(
        strs(&g.reserved_check(&g.known_rules())),
        vec!["error: %reserved references undefined rule 'ghost' (line 0)"]
    );
}

#[test]
/// A `%reserved` set's `Literal` item is never checked against rule names.
fn reserved_check_literal_never_errors() {
    let mut g = Grammar::from_rules(vec![p("a", TerminalLiteral("'x'".into()))]);
    g.reserved_sets = vec![re("kw", &[NameOrLiteral::Literal("'if'".into())], 0)];
    assert!(g.reserved_check(&g.known_rules()).is_empty());
}

#[test]
/// Errors when a rule-level `%reserved` annotation names a set that was never declared.
fn reserved_check_errors_on_undeclared_set_reference() {
    let mut g = Grammar::from_rules(vec![p("a", TerminalLiteral("'x'".into()))]);
    g.reserved_set_refs = vec![di("ghost_set", 0)];
    assert_eq!(
        strs(&g.reserved_check(&g.known_rules())),
        vec!["error: %reserved annotation references undeclared set 'ghost_set' (line 0)"]
    );
}

#[test]
/// `reserved_set_refs` is a `Vec`, not a `HashSet`: two occurrences of the same
/// undeclared set name produce two separate errors, not one deduplicated error.
fn reserved_check_two_undeclared_refs_produce_two_errors() {
    let mut g = Grammar::from_rules(vec![p("a", TerminalLiteral("'x'".into()))]);
    g.reserved_set_refs = vec![di("ghost", 0), di("ghost", 1)];
    assert_eq!(g.reserved_check(&g.known_rules()).len(), 2);
}

#[test]
/// No errors when the reserved set's rule is defined and the annotation matches a declared set.
fn reserved_check_no_errors_when_all_correct() {
    let mut g = Grammar::from_rules(vec![p("a", TerminalLiteral("'x'".into()))]);
    g.reserved_sets = vec![re("kw", &[NameOrLiteral::Name("a".into())], 0)];
    g.reserved_set_refs = vec![di("kw", 0)];
    assert!(g.reserved_check(&g.known_rules()).is_empty());
}

#[test]
/// Errors when a `%prec 'name'` annotation has no matching `%precedences` literal.
fn prec_name_check_errors_on_undeclared_name() {
    let mut g = Grammar::from_rules(vec![p("a", TerminalLiteral("'x'".into()))]);
    g.prec_name_refs = vec![di("'unary'", 0)];
    assert_eq!(
        strs(&g.prec_name_check()),
        vec!["error: %precedence references undefined precedence literal 'unary' (line 0)"]
    );
}

#[test]
/// No error when the `%prec` name matches a declared `%precedences` literal.
fn prec_name_check_no_errors_when_declared() {
    let mut g = Grammar::from_rules(vec![p("a", TerminalLiteral("'x'".into()))]);
    g.precedences = vec![pg(&[NameOrLiteral::Literal("'unary'".into())], 0)];
    g.prec_name_refs = vec![di("'unary'", 0)];
    assert!(g.prec_name_check().is_empty());
}

#[test]
/// An integer level never reaches `prec_name_refs` (only named levels do), so it must
/// never be checked against `%precedences` names, even when one is declared.
fn prec_name_check_integer_level_never_checked() {
    let mut g = Grammar::from_rules(vec![p(
        "a",
        GrammarNode::Prec(
            PrecKind::Plain,
            Some(PrecLevel::Integer(1)),
            Box::new(nt("a")),
        ),
    )]);
    g.precedences = vec![pg(&[NameOrLiteral::Literal("'unary'".into())], 0)];
    assert!(g.prec_name_check().is_empty());
}

#[test]
/// Errors when `%extras` names a rule that has no definition.
fn extras_check_errors_on_undefined_rule() {
    let mut g = Grammar::from_rules(vec![p("a", TerminalLiteral("'x'".into()))]);
    g.extras = vec![di("/\\s/", 0), di("ghost", 0)];
    assert_eq!(
        strs(&g.extras_check(&g.known_rules())),
        vec!["error: %extras references undefined rule 'ghost' (line 0)"]
    );
}

#[test]
/// A pattern item (e.g. `/\s/`) in `%extras` is never checked against rule names.
fn extras_check_no_error_for_pattern() {
    let mut g = Grammar::from_rules(vec![p("a", TerminalLiteral("'x'".into()))]);
    g.extras = vec![di("/\\s/", 0)];
    assert!(g.extras_check(&g.known_rules()).is_empty());
}

#[test]
/// No error when the `%extras` rule is defined, alongside an exempt pattern item.
fn extras_check_no_errors_when_rule_defined() {
    let mut g = Grammar::from_rules(vec![
        p("a", TerminalLiteral("'x'".into())),
        p("comment", TerminalLiteral("'#'".into())),
    ]);
    g.extras = vec![di("/\\s/", 0), di("comment", 0)];
    assert!(g.extras_check(&g.known_rules()).is_empty());
}

#[test]
/// Errors for a rule-body reference that has no matching rule definition.
fn undefined_refs_check_errors_on_missing_rule() {
    let mut g = Grammar::new();
    g.rhs_nonterminals.insert("term".into());
    assert_eq!(
        strs(&g.undefined_refs_check(&g.known_rules())),
        vec!["error: undefined rule reference 'term'"]
    );
}

#[test]
/// No error when the referenced rule is defined.
fn undefined_refs_check_no_error_when_defined() {
    let mut g = Grammar::from_rules(vec![p("term", TerminalLiteral("'x'".into()))]);
    g.rhs_nonterminals.insert("term".into());
    assert!(g.undefined_refs_check(&g.known_rules()).is_empty());
}

#[test]
/// Exactly one error is produced per distinct undefined name.
fn undefined_refs_check_deduplicates() {
    let mut g = Grammar::new();
    g.rhs_nonterminals.insert("ghost".into());
    assert_eq!(g.undefined_refs_check(&g.known_rules()).len(), 1);
}

#[test]
/// Errors when a `%externals` name is also defined as a rule.
fn externals_check_errors_when_name_also_defined_as_rule() {
    let mut g = Grammar::from_rules(vec![p("foo", TerminalLiteral("'x'".into()))]);
    g.externals = vec![NameOrLiteral::Name("foo".into())];
    assert_eq!(
        strs(&g.externals_check()),
        vec!["error: %externals declares 'foo', but it is also defined as a rule (test.bnf:1)"]
    );
}

#[test]
/// No error when a `%externals` name has no matching rule (the legitimate, scanner-defined case).
fn externals_check_no_error_for_undefined_external_name() {
    let mut g = Grammar::new();
    g.externals = vec![NameOrLiteral::Name("token".into())];
    assert!(g.externals_check().is_empty());
}

#[test]
/// A `Literal` item in `%externals` never collides with a rule, even if a rule shares its text.
fn externals_check_no_error_for_literal_item() {
    let mut g = Grammar::from_rules(vec![p("'bar'", TerminalLiteral("'x'".into()))]);
    g.externals = vec![NameOrLiteral::Literal("'bar'".into())];
    assert!(g.externals_check().is_empty());
}

#[test]
/// A `Name` item declared in `%externals` is treated as known: referencing it in a
/// rule body must not trigger an undefined-rule-reference error from `check()`.
fn check_externals_name_not_flagged_as_undefined() {
    let mut g = Grammar::new();
    g.externals = vec![NameOrLiteral::Name("token".into())];
    g.rhs_nonterminals.insert("token".into());
    assert!(g.check().is_empty());
}

#[test]
/// Without a matching `%externals` declaration, the same reference is still flagged.
fn check_undefined_ref_without_externals_declaration_still_errors() {
    let mut g = Grammar::new();
    g.rhs_nonterminals.insert("token".into());
    assert_eq!(
        strs(&g.check()),
        vec!["error: undefined rule reference 'token'"]
    );
}

#[test]
/// End-to-end: `check()` reports the collision when `%externals` and a same-named rule
/// are both present, even though the name is also referenced in a rule body.
fn check_errors_when_externals_name_collides_with_rule() {
    let mut g = Grammar::from_rules(vec![
        p("root", GrammarNode::NonTerminal("foo".into())),
        p("foo", TerminalLiteral("'x'".into())),
    ]);
    g.rhs_nonterminals.insert("foo".into());
    g.externals = vec![NameOrLiteral::Name("foo".into())];
    assert_eq!(
        strs(&g.check()),
        vec!["error: %externals declares 'foo', but it is also defined as a rule (test.bnf:1)"]
    );
}

#[test]
/// `check()` returns diagnostics sorted alphabetically by message, regardless of insertion order.
fn check_diagnostics_are_sorted_by_message() {
    let mut g = Grammar::new();
    g.rhs_nonterminals.insert("zebra".into());
    g.rhs_nonterminals.insert("alpha".into());
    g.rhs_nonterminals.insert("middle".into());
    let messages: Vec<String> = g.check().iter().map(|d| d.message.clone()).collect();
    let mut sorted = messages.clone();
    sorted.sort();
    assert_eq!(messages, sorted);
}

#[test]
/// Direct left recursion is a valid tree-sitter idiom; `check` must not flag it (#197).
fn check_accepts_direct_left_recursion() {
    let g = Grammar::from_rules(vec![p(
        "expr",
        Choice(vec![
            Sequence(vec![
                NonTerminal("expr".into()),
                TerminalLiteral("'+'".into()),
                TerminalLiteral("'n'".into()),
            ]),
            TerminalLiteral("'n'".into()),
        ]),
    )]);
    assert!(g.check().is_empty());
}

#[test]
/// Mutual left recursion is a valid tree-sitter idiom; `check` must not flag it (#197).
fn check_accepts_mutual_left_recursion() {
    let mut g = Grammar::from_rules(vec![
        p(
            "a",
            Choice(vec![
                Sequence(vec![NonTerminal("b".into()), TerminalLiteral("'x'".into())]),
                TerminalLiteral("'a'".into()),
            ]),
        ),
        p(
            "b",
            Choice(vec![
                Sequence(vec![NonTerminal("a".into()), TerminalLiteral("'y'".into())]),
                TerminalLiteral("'b'".into()),
            ]),
        ),
    ]);
    g.rhs_nonterminals.insert("a".into());
    g.rhs_nonterminals.insert("b".into());
    assert!(g.check().is_empty());
}

#[test]
/// Warns when a rule is never referenced by another rule or directive.
fn unreachable_rules_warns_on_unreferenced_rule() {
    let g = Grammar::from_rules(vec![
        p("root", TerminalLiteral("'x'".into())),
        p("orphan", TerminalLiteral("'y'".into())),
    ]);
    assert_eq!(
        strs(&g.unreachable_rules_check()),
        vec!["warning: rule 'orphan' is never referenced (test.bnf:1)"]
    );
}

#[test]
/// No warning for the implicit root (first-declared) rule.
fn unreachable_rules_no_warning_for_root() {
    let g = Grammar::from_rules(vec![p("root", TerminalLiteral("'x'".into()))]);
    assert!(g.unreachable_rules_check().is_empty());
}

#[test]
/// No warning when a rule is referenced from another rule's body.
fn unreachable_rules_no_warning_when_referenced_in_body() {
    let mut g = Grammar::from_rules(vec![
        p("root", GrammarNode::NonTerminal("helper".into())),
        p("helper", TerminalLiteral("'x'".into())),
    ]);
    g.rhs_nonterminals.insert("helper".into());
    assert!(g.unreachable_rules_check().is_empty());
}

#[test]
/// No warning for a rule that is only ever referenced via `%extras`.
fn unreachable_rules_no_warning_for_extras_rule() {
    let mut g = Grammar::from_rules(vec![
        p("root", TerminalLiteral("'x'".into())),
        p("ws", TerminalLiteral("' '".into())),
    ]);
    g.extras = vec![di("ws", 1)];
    assert!(g.unreachable_rules_check().is_empty());
}

#[test]
/// A rule reachable only through an `%extras` rule's own body must not warn: `%extras`
/// rules are themselves additional entry points, not just exempt leaves.
fn unreachable_rules_reachable_via_extras_body_not_warned() {
    let mut g = Grammar::from_rules(vec![
        p("root", TerminalLiteral("'x'".into())),
        p("ws", nt("comment")),
        p("comment", TerminalLiteral("'#'".into())),
    ]);
    g.extras = vec![di("ws", 1)];
    assert!(g.unreachable_rules_check().is_empty());
}

#[test]
/// Errors when `%axiom` names a rule that has no definition.
fn axiom_check_errors_on_undefined_rule() {
    let mut g = Grammar::from_rules(vec![p("root", TerminalLiteral("'x'".into()))]);
    g.declare_axiom(di("ghost", 3));
    assert_eq!(
        strs(&check_directive_ref(
            g.axiom_directive(),
            "%axiom",
            &g.known_rules()
        )),
        vec!["error: %axiom references undefined rule 'ghost' (line 3)"]
    );
}

#[test]
/// No error when the `%axiom` rule is defined.
fn axiom_check_no_error_when_rule_defined() {
    let mut g = Grammar::from_rules(vec![p("root", TerminalLiteral("'x'".into()))]);
    g.declare_axiom(di("root", 1));
    assert!(check_directive_ref(g.axiom_directive(), "%axiom", &g.known_rules()).is_empty());
}

#[test]
/// No error when no `%axiom` directive is present.
fn axiom_check_no_error_when_absent() {
    let g = Grammar::from_rules(vec![p("root", TerminalLiteral("'x'".into()))]);
    assert!(check_directive_ref(g.axiom_directive(), "%axiom", &g.known_rules()).is_empty());
}

#[test]
/// When `%axiom` is declared, the first-declared rule loses its implicit-root exemption.
fn unreachable_rules_axiom_replaces_implicit_root() {
    // `first` is the first-declared rule but not the axiom; it should be flagged.
    let mut g = Grammar::from_rules(vec![
        p("first", TerminalLiteral("'a'".into())),
        p("real_root", TerminalLiteral("'b'".into())),
    ]);
    g.declare_axiom(di("real_root", 1));
    let diags = strs(&g.unreachable_rules_check());
    assert!(diags.iter().any(|s| s.contains("'first'")));
    assert!(!diags.iter().any(|s| s.contains("'real_root'")));
}

#[test]
/// No warning for the rule declared as `%axiom`.
fn unreachable_rules_no_warning_for_axiom_rule() {
    let mut g = Grammar::from_rules(vec![p("entry", TerminalLiteral("'x'".into()))]);
    g.declare_axiom(di("entry", 1));
    assert!(g.unreachable_rules_check().is_empty());
}

#[test]
/// Zero when all referenced rules are defined.
fn count_undefined_refs_zero_when_all_defined() {
    let mut g = Grammar::from_rules(vec![p("a", TerminalLiteral("'x'".into()))]);
    g.rhs_nonterminals.insert("a".into());
    assert_eq!(g.count_undefined_refs(), 0);
}

#[test]
/// Counts each distinct undefined reference once, regardless of how many rules use it.
fn count_undefined_refs_counts_distinct_names() {
    let mut g = Grammar::new();
    g.rhs_nonterminals.insert("ghost".into());
    g.rhs_nonterminals.insert("phantom".into());
    assert_eq!(g.count_undefined_refs(), 2);
}

#[test]
/// Zero when every rule is reachable from the root.
fn count_unreachable_rules_zero_when_all_reachable() {
    let mut g = Grammar::from_rules(vec![
        p("root", GrammarNode::NonTerminal("helper".into())),
        p("helper", TerminalLiteral("'x'".into())),
    ]);
    g.rhs_nonterminals.insert("helper".into());
    assert_eq!(g.count_unreachable_rules(), 0);
}

#[test]
/// Counts rules that are never referenced and not the root.
fn count_unreachable_rules_counts_orphans() {
    let g = Grammar::from_rules(vec![
        p("root", TerminalLiteral("'x'".into())),
        p("orphan", TerminalLiteral("'y'".into())),
    ]);
    assert_eq!(g.count_unreachable_rules(), 1);
}

#[test]
/// Right recursion is not left recursion; `check` must not flag it as left-recursive.
fn check_no_warning_for_right_recursive_rule() {
    let g = Grammar::from_rules(vec![p(
        "list",
        Choice(vec![
            Sequence(vec![
                TerminalLiteral("'x'".into()),
                NonTerminal("list".into()),
            ]),
            TerminalLiteral("'x'".into()),
        ]),
    )]);
    let diagnostics = g.check();
    assert!(
        !diagnostics
            .iter()
            .any(|d| d.message.contains("left-recursive"))
    );
}

#[test]
/// An empty grammar produces a zeroed summary with no FIRST sets.
fn summarise_empty_grammar() {
    let s = Grammar::new().summarise();
    assert_eq!(s.rules, 0);
    assert_eq!(s.leaf_rules, 0);
    assert_eq!(s.unreachable_rules, 0);
    assert_eq!(s.unique_literals, 0);
    assert_eq!(s.unique_patterns, 0);
    assert_eq!(s.undefined_refs, 0);
    assert_eq!(s.left_recursive_direct, 0);
    assert_eq!(s.left_recursive_mutual, 0);
    assert!(s.first_sets.is_none());
}

#[test]
/// Rule count, leaf count, and terminal counts are correct for a simple grammar.
fn summarise_counts_rules_and_terminals() {
    let g = Grammar::from_rules(vec![
        p("root", GrammarNode::NonTerminal("tok".into())),
        p("tok", TerminalLiteral("'x'".into())),
    ]);
    let s = g.summarise();
    assert_eq!(s.rules, 2);
    assert_eq!(s.leaf_rules, 1); // "tok" has no non-terminals
    assert_eq!(s.unique_literals, 1);
    assert_eq!(s.unique_patterns, 0);
}

#[test]
/// Unreachable rules are counted correctly.
fn summarise_unreachable_rules() {
    let g = Grammar::from_rules(vec![
        p("root", TerminalLiteral("'x'".into())),
        p("orphan", TerminalLiteral("'y'".into())),
    ]);
    let s = g.summarise();
    assert_eq!(s.unreachable_rules, 1);
}

#[test]
/// Undefined rule references are counted correctly.
fn summarise_undefined_refs() {
    let mut g = Grammar::new();
    g.rhs_nonterminals.insert("ghost".into());
    let s = g.summarise();
    assert_eq!(s.undefined_refs, 1);
}

#[test]
/// Direct left-recursion is counted in the direct bucket, not mutual.
fn summarise_left_recursive_direct() {
    let g = Grammar::from_rules(vec![p(
        "expr",
        Choice(vec![
            Sequence(vec![
                NonTerminal("expr".into()),
                TerminalLiteral("'+'".into()),
                TerminalLiteral("'n'".into()),
            ]),
            TerminalLiteral("'n'".into()),
        ]),
    )]);
    let s = g.summarise();
    assert_eq!(s.left_recursive_direct, 1);
    assert_eq!(s.left_recursive_mutual, 0);
}

#[test]
/// Errors when `%word` names a rule that has no definition.
fn word_check_errors_on_undefined_rule() {
    let mut g = Grammar::from_rules(vec![p("root", TerminalLiteral("'x'".into()))]);
    g.declare_word(di("ghost", 3));
    assert_eq!(
        strs(&g.word_check(&g.known_rules())),
        vec!["error: %word references undefined rule 'ghost' (line 3)"]
    );
}

#[test]
/// No error when the `%word` rule is defined and its body is a pure token.
fn word_check_no_error_when_rule_defined() {
    let mut g = Grammar::from_rules(vec![p("ident", TerminalLiteral("'x'".into()))]);
    g.declare_word(di("ident", 1));
    assert!(g.word_check(&g.known_rules()).is_empty());
}

#[test]
/// No error when no `%word` directive is present.
fn word_check_no_error_when_absent() {
    let g = Grammar::from_rules(vec![p("root", TerminalLiteral("'x'".into()))]);
    assert!(g.word_check(&g.known_rules()).is_empty());
}

#[test]
/// Errors when the `%word` rule's body isn't a pure token, e.g. a `seq`
/// referencing other rules, mirroring upstream's `NonTerminalWordTokenError`.
fn word_check_errors_on_non_token_body() {
    let mut g = Grammar::from_rules(vec![
        p(
            "identifier",
            GrammarNode::Sequence(vec![NonTerminal("letter".into())]),
        ),
        p("letter", TerminalLiteral("'a'".into())),
    ]);
    g.declare_word(di("identifier", 1));
    assert_eq!(
        strs(&g.word_check(&g.known_rules())),
        vec!["error: %word rule 'identifier' must be a pure token (test.bnf:1)"]
    );
}

#[test]
/// Errors when the `%word` rule's body is structurally identical to another
/// rule's, naming the conflicting rule, mirroring upstream's
/// `conflicting_symbol_name`.
fn word_check_errors_on_duplicate_body() {
    let mut g = Grammar::from_rules(vec![
        p("ident", TerminalLiteral("'x'".into())),
        p("other_name", TerminalLiteral("'x'".into())),
    ]);
    g.declare_word(di("ident", 1));
    assert_eq!(
        strs(&g.word_check(&g.known_rules())),
        vec!["error: %word rule 'ident' has the same body as rule 'other_name' (test.bnf:1)"]
    );
}

#[test]
/// Errors when `%axiom` names a hidden rule, using the `%axiom` directive's own location.
fn hidden_start_rule_check_errors_when_axiom_is_hidden() {
    let mut g = Grammar::from_rules(vec![
        p("_hidden", TerminalLiteral("'x'".into())),
        p("visible", TerminalLiteral("'y'".into())),
    ]);
    g.declare_axiom(di("_hidden", 5));
    assert_eq!(
        strs(&g.hidden_start_rule_check()),
        vec![
            "error: start rule '_hidden' cannot be hidden (rule names starting with '_' are not allowed as the grammar's start symbol) (line 5)"
        ]
    );
}

#[test]
/// Errors when there is no `%axiom` and the implicit first-declared rule is hidden,
/// using that rule's own declaration location.
fn hidden_start_rule_check_errors_when_implicit_first_rule_is_hidden() {
    let g = Grammar::from_rules(vec![
        p("_hidden", TerminalLiteral("'x'".into())),
        p("visible", TerminalLiteral("'y'".into())),
    ]);
    assert_eq!(
        strs(&g.hidden_start_rule_check()),
        vec![
            "error: start rule '_hidden' cannot be hidden (rule names starting with '_' are not allowed as the grammar's start symbol) (test.bnf:1)"
        ]
    );
}

#[test]
/// No error when the resolved start rule is visible, whether via `%axiom` or implicitly.
fn hidden_start_rule_check_no_error_when_visible() {
    let mut g = Grammar::from_rules(vec![
        p("a", TerminalLiteral("'x'".into())),
        p("b", TerminalLiteral("'y'".into())),
    ]);
    assert!(g.hidden_start_rule_check().is_empty());

    g.declare_axiom(di("b", 1));
    assert!(g.hidden_start_rule_check().is_empty());
}

#[test]
/// Errors when there is no `%axiom` and the implicit first-declared rule is hidden
/// via `%supertypes` membership, using that rule's own declaration location.
fn hidden_start_rule_check_errors_when_implicit_first_rule_is_supertype() {
    let mut g = Grammar::from_rules(vec![
        p("expr", TerminalLiteral("'x'".into())),
        p("other", TerminalLiteral("'y'".into())),
    ]);
    g.supertypes = vec![di("expr", 0)];
    assert_eq!(
        strs(&g.hidden_start_rule_check()),
        vec![
            "error: start rule 'expr' cannot be hidden (rules listed in %supertypes are hidden and cannot be the grammar's start symbol) (test.bnf:1)"
        ]
    );
}

#[test]
/// Errors when `%axiom` names a rule that's hidden via `%supertypes` membership,
/// using the `%axiom` directive's own location.
fn hidden_start_rule_check_errors_when_axiom_is_supertype() {
    let mut g = Grammar::from_rules(vec![
        p("expr", TerminalLiteral("'x'".into())),
        p("other", TerminalLiteral("'y'".into())),
    ]);
    g.supertypes = vec![di("expr", 0)];
    g.declare_axiom(di("expr", 5));
    assert_eq!(
        strs(&g.hidden_start_rule_check()),
        vec![
            "error: start rule 'expr' cannot be hidden (rules listed in %supertypes are hidden and cannot be the grammar's start symbol) (line 5)"
        ]
    );
}

#[test]
/// No error when `%supertypes` lists a rule other than the resolved start rule.
fn hidden_start_rule_check_no_error_when_supertype_is_not_start_rule() {
    let mut g = Grammar::from_rules(vec![
        p("root", TerminalLiteral("'x'".into())),
        p("expr", TerminalLiteral("'y'".into())),
    ]);
    g.supertypes = vec![di("expr", 0)];
    assert!(g.hidden_start_rule_check().is_empty());
}

#[test]
/// FIRST-set stats are present and non-trivial for a non-empty grammar.
fn summarise_first_sets_present_for_nonempty_grammar() {
    let g = Grammar::from_rules(vec![
        p("a", TerminalLiteral("'x'".into())),
        p(
            "b",
            GrammarNode::Choice(vec![
                TerminalLiteral("'y'".into()),
                TerminalLiteral("'z'".into()),
            ]),
        ),
    ]);
    let s = g.summarise();
    let fs = s
        .first_sets
        .expect("first_sets must be Some for non-empty grammar");
    assert_eq!(fs.min, 1);
    assert_eq!(fs.max, 2);
}
