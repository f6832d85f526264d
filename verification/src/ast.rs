//! The shapes of the typed syntax-tree structs: for each visible kind, its
//! fields, whether each field may occur more than once, and whether the
//! kind is a leaf.

use vstd::prelude::*;
use vstd::string::*;
use crate::kinds::{
    alias_body_for, alias_body_for_list, alias_targets, alias_targets_list, body_for_kind, body_of, can_enter,
    enter_rule, field_kinds, hidden_name, is_leaf_body, kind_body, leave_rule, reaches_visible,
    resolve_field_target_kinds, rules_alias_body_for, rules_alias_targets, transparent_name, valid_path,
    visible_kind_list, visible_kinds, visible_rule_names, FieldTargetKinds,
};
use crate::nameset::{add_all, NameSet};
use crate::nodes::GrammarNode;
use crate::production::Production;
use crate::rules::has_key;
use crate::text::{owned, str_eq};
use crate::types::{entries, lemma_key_pos, rule_named, Grammar};

verus! {

/// One field of a syntax-tree struct: the kinds its value may take, and
/// whether it may occur more than once.
#[derive(Debug)]
pub struct AstFieldSpec {
    /// The kinds the field's value may take.
    pub target: FieldTargetKinds,
    /// Whether the field may occur more than once.
    pub multiple: bool,
}

/// The syntax-tree struct of one kind.
#[derive(Debug)]
pub struct AstNodeSpec {
    /// The kind.
    pub kind: String,
    /// Its fields, in the order first met.
    pub fields: Vec<(String, AstFieldSpec)>,
    /// Whether the kind has no named children.
    pub is_leaf: bool,
}

/// One field met in a walk: its name, its value's kinds (each once), the
/// bare-token flag, and whether it was met inside a repetition.
pub type AstEvent = (Seq<char>, Seq<Seq<char>>, bool, bool);

/// The fields met walking from `n` along path `s`, in order; `rep` tells
/// whether the walk is inside a repetition. Hidden and inline rules are
/// stepped into; visible rules, and aliases to visible names or
/// terminals, end the walk.
pub open spec fn ast_events(g: Grammar, n: GrammarNode, rep: bool, s: Seq<Seq<char>>) -> Seq<AstEvent>
    decreases entries(g).len() - s.len(), n,
{
    match n {
        GrammarNode::Field(name, i) => {
            let k = field_kinds(g, *i, seq![]);
            seq![(name@, add_all(seq![], k.0), k.1, rep)] + ast_events(g, *i, rep, s)
        },
        GrammarNode::ZeroOrMore(i) => ast_events(g, *i, true, s),
        GrammarNode::OneOrMore(i) => ast_events(g, *i, true, s),
        GrammarNode::NonTerminal(x) => if transparent_name(g, x@) && can_enter(g, x@, s) {
            ast_events(g, body_of(g, x@), rep, s.push(x@))
        } else {
            seq![]
        },
        GrammarNode::TerminalLiteral(_) => seq![],
        GrammarNode::TerminalPattern(_) => seq![],
        GrammarNode::Sequence(cs) => ast_events_list(g, cs@, rep, s),
        GrammarNode::Choice(cs) => ast_events_list(g, cs@, rep, s),
        GrammarNode::Alias(b, name) => match *name {
            GrammarNode::NonTerminal(x) => if hidden_name(g, x@) { ast_events(g, *b, rep, s) } else { seq![] },
            _ => seq![],
        },
        GrammarNode::Optional(i) => ast_events(g, *i, rep, s),
        GrammarNode::Token(i) => ast_events(g, *i, rep, s),
        GrammarNode::TokenImmediate(i) => ast_events(g, *i, rep, s),
        GrammarNode::Prec(_, _, i) => ast_events(g, *i, rep, s),
        GrammarNode::Reserved(_, i) => ast_events(g, *i, rep, s),
    }
}

/// [`ast_events`] of each element of `cs`, concatenated.
pub open spec fn ast_events_list(g: Grammar, cs: Seq<GrammarNode>, rep: bool, s: Seq<Seq<char>>) -> Seq<AstEvent>
    decreases entries(g).len() - s.len(), cs,
{
    if cs.len() == 0 {
        seq![]
    } else {
        ast_events(g, cs[0], rep, s) + ast_events_list(g, cs.drop_first(), rep, s)
    }
}

/// The view of a table of struct fields.
pub type AstFieldView = (Seq<char>, Seq<Seq<char>>, bool, bool);

/// The position of the field named `k` in `m`, or -1.
pub open spec fn ast_pos(m: Seq<AstFieldView>, k: Seq<char>) -> int
    decreases m.len(),
{
    if m.len() == 0 {
        -1
    } else {
        let r = ast_pos(m.drop_last(), k);
        if r >= 0 { r } else if m.last().0 == k { m.len() - 1 } else { -1 }
    }
}

/// `m` with the field of `e` merged in: a field met again gains the new
/// kinds and becomes multiple; a new field is multiple when met inside a
/// repetition.
pub open spec fn merge_ast_field(m: Seq<AstFieldView>, e: AstEvent) -> Seq<AstFieldView> {
    let p = ast_pos(m, e.0);
    if p >= 0 {
        m.update(p, (e.0, add_all(m[p].1, e.1), m[p].2 || e.2, true))
    } else {
        m.push((e.0, add_all(seq![], e.1), e.2, e.3))
    }
}

/// `m` with every field of `es` merged in, in order.
pub open spec fn merge_ast_fields(m: Seq<AstFieldView>, es: Seq<AstEvent>) -> Seq<AstFieldView>
    decreases es.len(),
{
    if es.len() == 0 {
        m
    } else {
        merge_ast_field(merge_ast_fields(m, es.drop_last()), es.last())
    }
}

/// Merging a concatenation merges its parts one after the other.
proof fn lemma_merge_ast_concat(m: Seq<AstFieldView>, a: Seq<AstEvent>, b: Seq<AstEvent>)
    ensures
        merge_ast_fields(m, a + b) == merge_ast_fields(merge_ast_fields(m, a), b),
    decreases b.len(),
{
    if b.len() == 0 {
        assert(a + b =~= a);
    } else {
        lemma_merge_ast_concat(m, a, b.drop_last());
        assert((a + b).drop_last() =~= a + b.drop_last());
        assert((a + b).last() == b.last());
    }
}

/// The view of a table of struct fields.
pub open spec fn ast_view(v: Seq<(String, AstFieldSpec)>) -> Seq<AstFieldView> {
    v.map_values(|e: (String, AstFieldSpec)| (e.0@, e.1.target.named@, e.1.target.anonymous_token, e.1.multiple))
}

/// `ast_pos` finds the first field with the name.
proof fn lemma_ast_pos(m: Seq<AstFieldView>, k: Seq<char>, i: int)
    requires
        0 <= i <= m.len(),
        forall|j: int| 0 <= j < i ==> (#[trigger] m[j]).0 != k,
        i < m.len() ==> m[i].0 == k,
    ensures
        ast_pos(m, k) == if i < m.len() { i } else { -1 },
    decreases m.len(),
{
    if m.len() > 0 {
        if i < m.len() - 1 {
            lemma_ast_pos(m.drop_last(), k, i);
        } else {
            lemma_ast_pos(m.drop_last(), k, m.len() - 1);
        }
    }
}

/// Merges the field `name`, with value kinds `resolved`, met inside a
/// repetition or not, into `out`.
fn merge_ast_field_into(out: &mut Vec<(String, AstFieldSpec)>, name: &str, resolved: &FieldTargetKinds, repeating: bool)
    ensures
        ast_view(final(out)@) == merge_ast_field(ast_view(old(out)@), (name@, resolved.named@, resolved.anonymous_token, repeating)),
{
    let ghost m = ast_view(out@);
    let mut p: usize = 0;
    while p < out.len() && !str_eq(out[p].0.as_str(), name)
        invariant
            0 <= p <= out@.len(),
            m == ast_view(out@),
            out@ == old(out)@,
            forall|j: int| 0 <= j < p ==> (#[trigger] m[j]).0 != name@,
        decreases out@.len() - p,
    {
        p += 1;
    }
    proof { lemma_ast_pos(m, name@, p as int); }
    if p < out.len() {
        let mut named = out[p].1.target.named.duplicate();
        named.extend(&resolved.named);
        let anonymous_token = out[p].1.target.anonymous_token || resolved.anonymous_token;
        out.set(p, (owned(name), AstFieldSpec { target: FieldTargetKinds { named, anonymous_token }, multiple: true }));
        assert(ast_view(out@) =~= merge_ast_field(m, (name@, resolved.named@, resolved.anonymous_token, repeating)));
    } else {
        let mut named = NameSet::new();
        named.extend(&resolved.named);
        let target = FieldTargetKinds { named, anonymous_token: resolved.anonymous_token };
        out.push((owned(name), AstFieldSpec { target, multiple: repeating }));
        assert(ast_view(out@) =~= merge_ast_field(m, (name@, resolved.named@, resolved.anonymous_token, repeating)));
    }
}

/// Merges the fields met walking from `node` into `out`.
fn collect_ast_fields_into(grammar: &Grammar, node: &GrammarNode, repeating: bool, in_progress: &mut NameSet,
    out: &mut Vec<(String, AstFieldSpec)>)
    requires
        valid_path(*grammar, old(in_progress)@),
    ensures
        final(in_progress)@ == old(in_progress)@,
        ast_view(final(out)@) == merge_ast_fields(ast_view(old(out)@), ast_events(*grammar, *node, repeating, old(in_progress)@)),
    decreases entries(*grammar).len() - old(in_progress)@.len(), node,
{
    let ghost before = ast_view(out@);
    proof { assert(merge_ast_fields(before, Seq::<AstEvent>::empty()) == before); }
    match node {
        GrammarNode::Field(name, inner) => {
            let resolved = resolve_field_target_kinds(grammar, inner);
            merge_ast_field_into(out, name.as_str(), &resolved, repeating);
            let ghost e = (name@, resolved.named@, resolved.anonymous_token, repeating);
            proof {
                assert(seq![e].drop_last() =~= Seq::<AstEvent>::empty());
                assert(ast_view(out@) == merge_ast_fields(before, seq![e]));
            }
            collect_ast_fields_into(grammar, inner, repeating, in_progress, out);
            proof {
                lemma_merge_ast_concat(before, seq![e], ast_events(*grammar, **inner, repeating, in_progress@));
            }
        },
        GrammarNode::ZeroOrMore(inner) => collect_ast_fields_into(grammar, inner, true, in_progress, out),
        GrammarNode::OneOrMore(inner) => collect_ast_fields_into(grammar, inner, true, in_progress, out),
        GrammarNode::NonTerminal(name) => {
            if !grammar.is_hidden_rule(name.as_str()) && !grammar.is_inline_rule(name.as_str()) {
                return;
            }
            let ghost path = in_progress@;
            match enter_rule(grammar, name.as_str(), in_progress) {
                None => {},
                Some(body) => {
                    collect_ast_fields_into(grammar, body, repeating, in_progress, out);
                    leave_rule(grammar, name.as_str(), in_progress, Ghost(path));
                },
            }
        },
        GrammarNode::TerminalLiteral(_) => {},
        GrammarNode::TerminalPattern(_) => {},
        GrammarNode::Sequence(children) => collect_ast_fields_list(grammar, children, repeating, in_progress, out),
        GrammarNode::Choice(children) => collect_ast_fields_list(grammar, children, repeating, in_progress, out),
        GrammarNode::Alias(body, name) => match &**name {
            GrammarNode::NonTerminal(n) => {
                if grammar.is_hidden_rule(n.as_str()) {
                    collect_ast_fields_into(grammar, body, repeating, in_progress, out);
                }
            },
            _ => {},
        },
        GrammarNode::Optional(inner) => collect_ast_fields_into(grammar, inner, repeating, in_progress, out),
        GrammarNode::Token(inner) => collect_ast_fields_into(grammar, inner, repeating, in_progress, out),
        GrammarNode::TokenImmediate(inner) => collect_ast_fields_into(grammar, inner, repeating, in_progress, out),
        GrammarNode::Prec(_, _, inner) => collect_ast_fields_into(grammar, inner, repeating, in_progress, out),
        GrammarNode::Reserved(_, inner) => collect_ast_fields_into(grammar, inner, repeating, in_progress, out),
    }
}

/// Merges the fields met walking from each of `children` into `out`.
fn collect_ast_fields_list(grammar: &Grammar, children: &Vec<GrammarNode>, repeating: bool, in_progress: &mut NameSet,
    out: &mut Vec<(String, AstFieldSpec)>)
    requires
        valid_path(*grammar, old(in_progress)@),
    ensures
        final(in_progress)@ == old(in_progress)@,
        ast_view(final(out)@) == merge_ast_fields(ast_view(old(out)@), ast_events_list(*grammar, children@, repeating, old(in_progress)@)),
    decreases entries(*grammar).len() - old(in_progress)@.len(), children,
{
    let ghost s = in_progress@;
    let mut i: usize = 0;
    assert(children@.skip(0) =~= children@);
    while i < children.len()
        invariant
            0 <= i <= children.len(),
            in_progress@ == s,
            s == old(in_progress)@,
            valid_path(*grammar, s),
            merge_ast_fields(ast_view(old(out)@), ast_events_list(*grammar, children@, repeating, s))
                == merge_ast_fields(ast_view(out@), ast_events_list(*grammar, children@.skip(i as int), repeating, s)),
        decreases children.len() - i,
    {
        let ghost bn = ast_view(out@);
        proof { assert(decreases_to!(*children => children[i as int])); }
        collect_ast_fields_into(grammar, &children[i], repeating, in_progress, out);
        proof {
            let rest = children@.skip(i as int);
            assert(rest[0] == children@[i as int]);
            assert(rest.drop_first() =~= children@.skip(i + 1));
            lemma_merge_ast_concat(bn, ast_events(*grammar, rest[0], repeating, s), ast_events_list(*grammar, rest.drop_first(), repeating, s));
        }
        i += 1;
    }
    assert(children@.skip(children@.len() as int) =~= Seq::<GrammarNode>::empty());
}

/// The fields declared directly under a node built from `node`, each with
/// the kinds its value may take and whether it may occur more than once:
/// when met inside `*` or `+`, or when its name is met at more than one
/// place. The walk steps into hidden and inline rules and stops at
/// visible ones, as when collecting the fields of a visitor.
pub fn collect_ast_fields(grammar: &Grammar, node: &GrammarNode) -> (r: Vec<(String, AstFieldSpec)>)
    ensures
        ast_view(r@) == merge_ast_fields(seq![], ast_events(*grammar, *node, false, seq![])),
{
    let mut out: Vec<(String, AstFieldSpec)> = Vec::new();
    let mut in_progress = NameSet::new();
    assert(ast_view(out@) =~= Seq::<AstFieldView>::empty());
    collect_ast_fields_into(grammar, node, false, &mut in_progress, &mut out);
    out
}

// ── Every visible kind has a body ────────────────────────────────────────

/// An element of an ordered-set fold comes from the start or the added part.
proof fn lemma_add_all_member(d: Seq<Seq<char>>, s: Seq<Seq<char>>, x: Seq<char>)
    requires
        add_all(d, s).contains(x),
    ensures
        d.contains(x) || s.contains(x),
    decreases s.len(),
{
    if s.len() > 0 {
        let r = add_all(d, s.drop_last());
        if r.contains(x) {
            lemma_add_all_member(d, s.drop_last(), x);
            if s.drop_last().contains(x) {
                let i = choose|i: int| 0 <= i < s.drop_last().len() && s.drop_last()[i] == x;
                assert(s[i] == x);
            }
        } else {
            assert(add_all(d, s) == r.push(s.last()));
            let i = choose|i: int| 0 <= i < r.push(s.last()).len() && r.push(s.last())[i] == x;
            assert(i == r.len());
            assert(s[s.len() - 1] == x);
        }
    }
}

/// Every alias target met in `n` has an alias body in `n`.
proof fn lemma_alias_target_has_body(g: Grammar, n: GrammarNode, x: Seq<char>)
    requires
        alias_targets(g, n).contains(x),
    ensures
        alias_body_for(g, n, x) is Some,
    decreases n,
{
    match n {
        GrammarNode::Alias(b, name) => {
            match *name {
                GrammarNode::NonTerminal(y) => {
                    if !(y@ == x && !hidden_name(g, y@)) {
                        if !hidden_name(g, y@) {
                            let t = seq![y@] + alias_targets(g, *b);
                            let i = choose|i: int| 0 <= i < t.len() && t[i] == x;
                            assert(i > 0);
                            assert(alias_targets(g, *b)[i - 1] == x);
                        } else {
                            assert(seq![] + alias_targets(g, *b) =~= alias_targets(g, *b));
                        }
                        lemma_alias_target_has_body(g, *b, x);
                    }
                },
                _ => {
                    assert(seq![] + alias_targets(g, *b) =~= alias_targets(g, *b));
                    lemma_alias_target_has_body(g, *b, x);
                },
            }
        },
        GrammarNode::Sequence(cs) => lemma_alias_target_has_body_list(g, cs@, x),
        GrammarNode::Choice(cs) => lemma_alias_target_has_body_list(g, cs@, x),
        GrammarNode::Optional(i) => lemma_alias_target_has_body(g, *i, x),
        GrammarNode::ZeroOrMore(i) => lemma_alias_target_has_body(g, *i, x),
        GrammarNode::OneOrMore(i) => lemma_alias_target_has_body(g, *i, x),
        GrammarNode::Token(i) => lemma_alias_target_has_body(g, *i, x),
        GrammarNode::TokenImmediate(i) => lemma_alias_target_has_body(g, *i, x),
        GrammarNode::Field(_, i) => lemma_alias_target_has_body(g, *i, x),
        GrammarNode::Prec(_, _, i) => lemma_alias_target_has_body(g, *i, x),
        GrammarNode::Reserved(_, i) => lemma_alias_target_has_body(g, *i, x),
        _ => {},
    }
}

/// Every alias target met in `cs` has an alias body in `cs`.
proof fn lemma_alias_target_has_body_list(g: Grammar, cs: Seq<GrammarNode>, x: Seq<char>)
    requires
        alias_targets_list(g, cs).contains(x),
    ensures
        alias_body_for_list(g, cs, x) is Some,
    decreases cs,
{
    if cs.len() > 0 {
        let a = alias_targets(g, cs[0]);
        let b = alias_targets_list(g, cs.drop_first());
        let i = choose|i: int| 0 <= i < (a + b).len() && (a + b)[i] == x;
        if i < a.len() {
            assert(a[i] == x);
            lemma_alias_target_has_body(g, cs[0], x);
        } else {
            assert(b[i - a.len()] == x);
            lemma_alias_target_has_body_list(g, cs.drop_first(), x);
        }
    }
}

/// An alias target met in some rule body has an alias body among the rules.
proof fn lemma_rules_alias_target_has_body(g: Grammar, es: Seq<(String, Production)>, x: Seq<char>)
    requires
        rules_alias_targets(g, es).contains(x),
    ensures
        rules_alias_body_for(g, es, x) is Some,
    decreases es.len(),
{
    if es.len() > 0 {
        let a = rules_alias_targets(g, es.drop_last());
        let b = alias_targets(g, es.last().1.body);
        let i = choose|i: int| 0 <= i < (a + b).len() && (a + b)[i] == x;
        if i < a.len() {
            assert(a[i] == x);
            lemma_rules_alias_target_has_body(g, es.drop_last(), x);
            lemma_rules_body_prefix(g, es, x);
        } else {
            assert(b[i - a.len()] == x);
            lemma_alias_target_has_body(g, es.last().1.body, x);
            lemma_rules_body_last(g, es, x);
        }
    }
}

/// A match among all but the last rule is a match among all rules.
proof fn lemma_rules_body_prefix(g: Grammar, es: Seq<(String, Production)>, x: Seq<char>)
    requires
        es.len() > 0,
        rules_alias_body_for(g, es.drop_last(), x) is Some,
    ensures
        rules_alias_body_for(g, es, x) is Some,
    decreases es.len(),
{
    if alias_body_for(g, es[0].1.body, x) is None {
        assert(es.drop_last().len() > 0);
        assert(es.drop_last()[0] == es[0]);
        assert(es.drop_first().drop_last() =~= es.drop_last().drop_first());
        lemma_rules_body_prefix(g, es.drop_first(), x);
    }
}

/// A match in the last rule is a match among all rules.
proof fn lemma_rules_body_last(g: Grammar, es: Seq<(String, Production)>, x: Seq<char>)
    requires
        es.len() > 0,
        alias_body_for(g, es.last().1.body, x) is Some,
    ensures
        rules_alias_body_for(g, es, x) is Some,
    decreases es.len(),
{
    if alias_body_for(g, es[0].1.body, x) is None {
        assert(es.drop_first().last() == es.last());
        lemma_rules_body_last(g, es.drop_first(), x);
    }
}

/// A visible rule name is the name of a rule.
proof fn lemma_visible_rule_is_rule(g: Grammar, es: Seq<(String, Production)>, x: Seq<char>)
    requires
        visible_rule_names(g, es).contains(x),
    ensures
        has_key(es, x),
    decreases es.len(),
{
    if es.len() > 0 {
        let a = visible_rule_names(g, es.drop_last());
        let b: Seq<Seq<char>> = if transparent_name(g, es.last().0@) { seq![] } else { seq![es.last().0@] };
        let i = choose|i: int| 0 <= i < (a + b).len() && (a + b)[i] == x;
        if i < a.len() {
            assert(a[i] == x);
            lemma_visible_rule_is_rule(g, es.drop_last(), x);
            let j = choose|j: int| 0 <= j < es.drop_last().len() && es.drop_last()[j].0@ == x;
            assert(es[j].0@ == x);
        } else {
            assert(es[es.len() - 1].0@ == x);
        }
    }
}

/// Every visible kind of `g` has a body that determines its shape.
pub proof fn lemma_visible_kind_has_body(g: Grammar, kind: Seq<char>)
    requires
        visible_kind_list(g).contains(kind),
    ensures
        kind_body(g, kind) is Some,
{
    let a = visible_rule_names(g, entries(g));
    let b = rules_alias_targets(g, entries(g));
    lemma_add_all_member(seq![], a + b, kind);
    let i = choose|i: int| 0 <= i < (a + b).len() && (a + b)[i] == kind;
    lemma_key_pos(entries(g), kind);
    if i < a.len() {
        assert(a[i] == kind);
        lemma_visible_rule_is_rule(g, entries(g), kind);
    } else {
        assert(b[i - a.len()] == kind);
        if rule_named(g, kind) is None {
            lemma_rules_alias_target_has_body(g, entries(g), kind);
        }
    }
}

// ── The struct of every kind ─────────────────────────────────────────────

/// The struct derived for kind `kind` of `g`, as its view: the kind, its
/// fields and whether it is a leaf.
pub open spec fn node_spec_ok(g: Grammar, kind: Seq<char>, r: AstNodeSpec) -> bool {
    let body = kind_body(g, kind).unwrap();
    &&& r.kind@ == kind
    &&& ast_view(r.fields@) == merge_ast_fields(seq![], ast_events(g, body, false, seq![]))
    &&& r.is_leaf == !reaches_visible(g, body, seq![])
}

/// One struct per visible kind of `grammar`, in the order of the visible
/// kinds, each derived from the kind's body: its fields from
/// [`collect_ast_fields`], and whether it is a leaf from [`is_leaf_body`].
pub fn derive_ast_node_specs(grammar: &Grammar) -> (r: Vec<AstNodeSpec>)
    ensures
        r@.len() == visible_kind_list(*grammar).len(),
        forall|i: int| 0 <= i < r@.len() ==> node_spec_ok(*grammar, visible_kind_list(*grammar)[i], #[trigger] r@[i]),
{
    let kinds = visible_kinds(grammar);
    let ghost vk = kinds@;
    let mut out: Vec<AstNodeSpec> = Vec::new();
    let mut i: usize = 0;
    while i < kinds.len()
        invariant
            0 <= i <= vk.len(),
            vk == kinds@,
            vk == visible_kind_list(*grammar),
            out@.len() == i,
            forall|j: int| 0 <= j < i ==> node_spec_ok(*grammar, vk[j], #[trigger] out@[j]),
        decreases vk.len() - i,
    {
        let kind = kinds.get(i);
        proof {
            assert(vk.contains(kind@)) by { assert(vk[i as int] == kind@); }
            lemma_visible_kind_has_body(*grammar, kind@);
        }
        if let Some(node) = body_for_kind(grammar, kind) {
            let fields = collect_ast_fields(grammar, node);
            let is_leaf = is_leaf_body(grammar, node);
            let ghost before = out@;
            out.push(AstNodeSpec { kind: owned(kind), fields, is_leaf });
            proof {
                assert forall|j: int| 0 <= j < i + 1 implies node_spec_ok(*grammar, vk[j], #[trigger] out@[j]) by {
                    if j < i {
                        assert(out@[j] == before[j]);
                    }
                }
            }
        }
        i += 1;
    }
    out
}

} // verus!
