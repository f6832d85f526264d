use indexmap::{IndexMap, IndexSet};
use ts_bnf_tool::ast::{collect_ast_fields, derive_ast_node_specs, AstFieldSpec, AstNodeSpec};
use ts_bnf_tool::kinds::{collect_fields, FieldTargetKinds};
use ts_bnf_tool::nameset::NameSet;
use ts_bnf_tool::nodes::GrammarNode::{
    Alias, Choice, Field, NonTerminal, OneOrMore, Optional, Prec, Reserved, Sequence, TerminalLiteral, TerminalPattern,
    Token, TokenImmediate, ZeroOrMore,
};
use ts_bnf_tool::test_utils::{nt, p};
use ts_bnf_tool::types::Grammar;

#[derive(Debug, Default, PartialEq, Eq)]
struct Ftk {
    named: IndexSet<String>,
    anonymous_token: bool,
}

#[derive(Debug)]
struct Af {
    target: Ftk,
    multiple: bool,
}

#[derive(Debug)]
struct Spec {
    fields: IndexMap<String, Af>,
    is_leaf: bool,
}

fn iset(s: &NameSet) -> IndexSet<String> {
    (0..s.len()).map(|i| s.get(i).to_string()).collect()
}

fn ftk(f: FieldTargetKinds) -> Ftk {
    Ftk { named: iset(&f.named), anonymous_token: f.anonymous_token }
}

fn fields(v: Vec<(String, FieldTargetKinds)>) -> IndexMap<String, Ftk> {
    v.into_iter().map(|(k, f)| (k, ftk(f))).collect()
}

fn ast_fields(v: Vec<(String, AstFieldSpec)>) -> IndexMap<String, Af> {
    v.into_iter().map(|(k, f)| (k, Af { target: ftk(f.target), multiple: f.multiple })).collect()
}

fn specs_of(v: Vec<AstNodeSpec>) -> IndexMap<String, Spec> {
    v.into_iter().map(|s| (s.kind, Spec { fields: ast_fields(s.fields), is_leaf: s.is_leaf })).collect()
}

/// A field wrapped in `*` (zero or more) is multiple.
#[test]
fn collect_ast_fields_field_under_zero_or_more_is_multiple() {
    let g = Grammar::from_rules(vec![p("stmt", TerminalLiteral("'s'".into()))]);
    let body = ZeroOrMore(Box::new(Field("items".into(), Box::new(nt("stmt")))));
    let result = ast_fields(collect_ast_fields(&g, &body));
    assert!(result.get("items").unwrap().multiple);
}

/// A field wrapped in `+` (one or more) is multiple, same as `*`.
#[test]
fn collect_ast_fields_field_under_one_or_more_is_multiple() {
    let g = Grammar::from_rules(vec![p("stmt", TerminalLiteral("'s'".into()))]);
    let body = OneOrMore(Box::new(Field("items".into(), Box::new(nt("stmt")))));
    let result = ast_fields(collect_ast_fields(&g, &body));
    assert!(result.get("items").unwrap().multiple);
}

/// The same field name declared at two positions in one body is
/// multiple, even with no `*`/`+` involved at all.
#[test]
fn collect_ast_fields_repeated_field_name_without_repetition_is_multiple() {
    let g = Grammar::from_rules(vec![
        p("num", TerminalLiteral("'0'".into())),
        p("str", TerminalLiteral("'\"\"'".into())),
    ]);
    let body = Sequence(vec![
        Field("item".into(), Box::new(nt("num"))),
        Field("item".into(), Box::new(nt("str"))),
    ]);
    let result = ast_fields(collect_ast_fields(&g, &body));
    assert!(result.get("item").unwrap().multiple);
}

/// A field declared exactly once, outside any repetition, is not multiple.
#[test]
fn collect_ast_fields_single_occurrence_field_is_not_multiple() {
    let g = Grammar::from_rules(vec![p("expr", TerminalLiteral("'e'".into()))]);
    let body = Field("value".into(), Box::new(nt("expr")));
    let result = ast_fields(collect_ast_fields(&g, &body));
    assert!(!result.get("value").unwrap().multiple);
}

/// A field declared inside a hidden rule's body is transparent: it
/// still belongs to the enclosing kind, exercising the `NonTerminal`
/// arm's hidden-rule traversal (not just its early-return guard).
#[test]
fn collect_ast_fields_transparent_through_hidden_rule() {
    let g = Grammar::from_rules(vec![
        p("kind", nt("_wrapper")),
        p("_wrapper", Field("value".into(), Box::new(nt("expr")))),
        p("expr", TerminalLiteral("'e'".into())),
    ]);
    let result = ast_fields(collect_ast_fields(&g, &nt("_wrapper")));
    assert_eq!(
        result.get("value").unwrap().target.named,
        IndexSet::from(["expr".to_string()])
    );
}

/// A mutually-recursive pair of hidden rules that never reaches a field
/// terminates via cycle protection with an empty result, rather than
/// looping forever.
#[test]
fn collect_ast_fields_cycle_protection_terminates_with_no_result() {
    let g = Grammar::from_rules(vec![p("_a", nt("_b")), p("_b", nt("_a"))]);
    let result = ast_fields(collect_ast_fields(&g, &nt("_a")));
    assert!(result.is_empty());
}

/// `optional(…)` is a transparent wrapper, same as every other
/// annotation: a field nested inside it still belongs to the enclosing
/// kind, via the generic `transparent_inner` fallback arm.
#[test]
fn collect_ast_fields_transparent_through_optional() {
    let g = Grammar::from_rules(vec![p("expr", TerminalLiteral("'e'".into()))]);
    let node = Optional(Box::new(Field("value".into(), Box::new(nt("expr")))));
    let result = ast_fields(collect_ast_fields(&g, &node));
    assert_eq!(
        result.get("value").unwrap().target.named,
        IndexSet::from(["expr".to_string()])
    );
}

/// An `Alias` whose name target is a *visible* rule is a distinct node:
/// the aliased body's fields are not collected.
#[test]
fn collect_ast_fields_alias_to_visible_name_contributes_no_field() {
    let g = Grammar::from_rules(vec![
        p("expr", TerminalLiteral("'e'".into())),
        p("renamed", TerminalLiteral("'r'".into())),
    ]);
    let node = Alias(
        Box::new(Field("value".into(), Box::new(nt("expr")))),
        Box::new(nt("renamed")),
    );
    let result = ast_fields(collect_ast_fields(&g, &node));
    assert!(result.is_empty());
}

/// An `Alias` whose name target is itself hidden produces no node of its
/// own, so field collection falls through to the aliased body instead.
#[test]
fn collect_ast_fields_alias_to_hidden_name_falls_through_to_body() {
    let g = Grammar::from_rules(vec![p("expr", TerminalLiteral("'e'".into()))]);
    let node = Alias(
        Box::new(Field("value".into(), Box::new(nt("expr")))),
        Box::new(nt("_hidden_alias")),
    );
    let result = ast_fields(collect_ast_fields(&g, &node));
    assert_eq!(
        result.get("value").unwrap().target.named,
        IndexSet::from(["expr".to_string()])
    );
}

/// An `Alias` to a literal target produces an anonymous node with no
/// fields of its own: the aliased body's fields are not collected.
#[test]
fn collect_ast_fields_alias_to_literal_contributes_no_field() {
    let g = Grammar::from_rules(vec![p("expr", TerminalLiteral("'e'".into()))]);
    let node = Alias(
        Box::new(Field("value".into(), Box::new(nt("expr")))),
        Box::new(TerminalLiteral("'x'".into())),
    );
    let result = ast_fields(collect_ast_fields(&g, &node));
    assert!(result.is_empty());
}

/// A non-leaf kind's derived fields resolve the same target kinds as
/// `Visitor`'s own `collect_fields` — this only checks that
/// `collect_ast_fields` reuses [`resolve_field_target_kinds`] correctly,
/// not `collect_fields`'s own correctness (covered by its own tests).
#[test]
fn derive_ast_node_specs_non_leaf_kind_fields_match_collect_fields() {
    let g = Grammar::from_rules(vec![
        p(
            "assign",
            Sequence(vec![
                Field("target".into(), Box::new(nt("ident"))),
                TerminalLiteral("'='".into()),
                Field("value".into(), Box::new(nt("expr"))),
            ]),
        ),
        p("ident", TerminalLiteral("'i'".into())),
        p("expr", TerminalLiteral("'e'".into())),
    ]);
    let specs = specs_of(derive_ast_node_specs(&g));
    let assign = &specs.get("assign").unwrap().fields;
    let expected = fields(collect_fields(&g, &g.productions.get("assign").unwrap().body));
    assert_eq!(
        assign.get("target").unwrap().target.named,
        expected.get("target").unwrap().named
    );
    assert_eq!(
        assign.get("value").unwrap().target.named,
        expected.get("value").unwrap().named
    );
}

/// A leaf kind's body has no `Field` nodes to find, so it derives to an
/// empty field map.
#[test]
fn derive_ast_node_specs_leaf_kind_has_no_fields() {
    let g = Grammar::from_rules(vec![p("num", TerminalLiteral("'0'".into()))]);
    let specs = specs_of(derive_ast_node_specs(&g));
    let num = specs.get("num").unwrap();
    assert!(num.is_leaf);
    assert!(num.fields.is_empty());
}

/// A hidden rule is not in `visible_kinds`, so it never appears as a key
/// in the derived map.
#[test]
fn derive_ast_node_specs_excludes_hidden_kind() {
    let g = Grammar::from_rules(vec![
        p("_hidden", TerminalLiteral("'x'".into())),
        p("visible", TerminalLiteral("'y'".into())),
    ]);
    let specs = specs_of(derive_ast_node_specs(&g));
    assert!(!specs.contains_key("_hidden"));
    assert!(specs.contains_key("visible"));
}
