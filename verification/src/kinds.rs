//! The node kinds of the parse trees a grammar produces: which rules and
//! alias targets become visible nodes, and whether their visitor method
//! names stay distinct.

use vstd::prelude::*;
use vstd::string::*;
use crate::directive::DirectiveItem;
use crate::nameset::{add_all, lemma_add_all_concat, lemma_add_all_contains, lemma_add_all_distinct, NameSet};
use crate::nodes::GrammarNode;
use crate::production::Production;
use crate::rules::{entry_keys, has_key, rules_get_index, rules_len};
use crate::text::{owned, str_eq, str_to_chars};
use crate::types::{entries, rule_named, Grammar};
use crate::visitor::{snake_case, to_snake_case};

verus! {

// ── Hidden and inline rules ──────────────────────────────────────────────

/// Some item of `items` names `n`.
pub open spec fn names_item(items: Seq<DirectiveItem>, n: Seq<char>) -> bool {
    exists|i: int| 0 <= i < items.len() && (#[trigger] items[i]).name@ == n
}

/// A hidden name: one that starts with `_`, or a `%supertypes` member.
pub open spec fn hidden_name(g: Grammar, n: Seq<char>) -> bool {
    (n.len() > 0 && n[0] == '_') || names_item(g.supertypes@, n)
}

/// A name listed in `%inline`.
pub open spec fn inline_name(g: Grammar, n: Seq<char>) -> bool {
    names_item(g.inline@, n)
}

/// A name that produces no node of its own: hidden or inline.
pub open spec fn transparent_name(g: Grammar, n: Seq<char>) -> bool {
    hidden_name(g, n) || inline_name(g, n)
}

/// Whether some item of `items` is named `name`.
fn items_name(items: &Vec<DirectiveItem>, name: &str) -> (r: bool)
    ensures
        r == names_item(items@, name@),
{
    let mut i: usize = 0;
    while i < items.len()
        invariant
            0 <= i <= items@.len(),
            forall|j: int| 0 <= j < i ==> (#[trigger] items@[j]).name@ != name@,
        decreases items@.len() - i,
    {
        if str_eq(items[i].name.as_str(), name) {
            return true;
        }
        i += 1;
    }
    false
}

impl Grammar {
    /// Whether `name` is hidden: it starts with `_`, or `%supertypes`
    /// lists it. A hidden rule's body is spliced into its call sites.
    pub fn is_hidden_rule(&self, name: &str) -> (r: bool)
        ensures
            r == hidden_name(*self, name@),
    {
        let cs = str_to_chars(name);
        if cs.len() > 0 && cs[0] == '_' {
            return true;
        }
        items_name(&self.supertypes, name)
    }

    /// Whether `%inline` lists `name`.
    pub fn is_inline_rule(&self, name: &str) -> (r: bool)
        ensures
            r == inline_name(*self, name@),
    {
        items_name(&self.inline, name)
    }
}

// ── Alias targets and visible kinds ──────────────────────────────────────

/// The alias target that `name` contributes: a rule name that is not hidden.
pub open spec fn alias_target_of(g: Grammar, name: GrammarNode) -> Seq<Seq<char>> {
    match name {
        GrammarNode::NonTerminal(x) => if hidden_name(g, x@) { seq![] } else { seq![x@] },
        _ => seq![],
    }
}

/// The visible alias targets in `n`, in the order they occur, each alias's
/// own target before those inside its body.
pub open spec fn alias_targets(g: Grammar, n: GrammarNode) -> Seq<Seq<char>>
    decreases n,
{
    match n {
        GrammarNode::Alias(b, name) => alias_target_of(g, *name) + alias_targets(g, *b),
        GrammarNode::Sequence(cs) => alias_targets_list(g, cs@),
        GrammarNode::Choice(cs) => alias_targets_list(g, cs@),
        GrammarNode::Optional(i) => alias_targets(g, *i),
        GrammarNode::ZeroOrMore(i) => alias_targets(g, *i),
        GrammarNode::OneOrMore(i) => alias_targets(g, *i),
        GrammarNode::Token(i) => alias_targets(g, *i),
        GrammarNode::TokenImmediate(i) => alias_targets(g, *i),
        GrammarNode::Field(_, i) => alias_targets(g, *i),
        GrammarNode::Prec(_, _, i) => alias_targets(g, *i),
        GrammarNode::Reserved(_, i) => alias_targets(g, *i),
        _ => seq![],
    }
}

/// The alias targets of each element of `cs`, concatenated.
pub open spec fn alias_targets_list(g: Grammar, cs: Seq<GrammarNode>) -> Seq<Seq<char>>
    decreases cs,
{
    if cs.len() == 0 {
        seq![]
    } else {
        alias_targets(g, cs[0]) + alias_targets_list(g, cs.drop_first())
    }
}

/// The names of the rules of `es` that produce a node of their own.
pub open spec fn visible_rule_names(g: Grammar, es: Seq<(String, Production)>) -> Seq<Seq<char>>
    decreases es.len(),
{
    if es.len() == 0 {
        seq![]
    } else {
        visible_rule_names(g, es.drop_last()) + (if transparent_name(g, es.last().0@) { seq![] } else { seq![es.last().0@] })
    }
}

/// The alias targets of the bodies of `es`, rule after rule.
pub open spec fn rules_alias_targets(g: Grammar, es: Seq<(String, Production)>) -> Seq<Seq<char>>
    decreases es.len(),
{
    if es.len() == 0 {
        seq![]
    } else {
        rules_alias_targets(g, es.drop_last()) + alias_targets(g, es.last().1.body)
    }
}

/// The visible kinds of `g`, each once: the rules that are neither hidden
/// nor inline in declaration order, then the alias targets in the order
/// they occur.
pub open spec fn visible_kind_list(g: Grammar) -> Seq<Seq<char>> {
    add_all(seq![], visible_rule_names(g, entries(g)) + rules_alias_targets(g, entries(g)))
}

/// Adds the visible alias targets found in `node` to `out`.
fn collect_alias_targets(grammar: &Grammar, node: &GrammarNode, out: &mut NameSet)
    ensures
        final(out)@ == add_all(old(out)@, alias_targets(*grammar, *node)),
    decreases node,
{
    match node {
        GrammarNode::Alias(body, name) => {
            let ghost before = out@;
            assert(add_all(before, Seq::<Seq<char>>::empty()) == before);
            match &**name {
                GrammarNode::NonTerminal(n) => {
                    if !grammar.is_hidden_rule(n.as_str()) {
                        out.insert(n.as_str());
                        assert(seq![n@].drop_last() =~= Seq::<Seq<char>>::empty());
                    }
                },
                _ => {},
            }
            assert(out@ == add_all(before, alias_target_of(*grammar, **name)));
            collect_alias_targets(grammar, body, out);
            proof {
                lemma_add_all_concat(before, alias_target_of(*grammar, **name), alias_targets(*grammar, **body));
            }
        },
        GrammarNode::Sequence(children) => collect_alias_targets_list(grammar, children, out),
        GrammarNode::Choice(children) => collect_alias_targets_list(grammar, children, out),
        GrammarNode::Optional(inner) => collect_alias_targets(grammar, inner, out),
        GrammarNode::ZeroOrMore(inner) => collect_alias_targets(grammar, inner, out),
        GrammarNode::OneOrMore(inner) => collect_alias_targets(grammar, inner, out),
        GrammarNode::Token(inner) => collect_alias_targets(grammar, inner, out),
        GrammarNode::TokenImmediate(inner) => collect_alias_targets(grammar, inner, out),
        GrammarNode::Field(_, inner) => collect_alias_targets(grammar, inner, out),
        GrammarNode::Prec(_, _, inner) => collect_alias_targets(grammar, inner, out),
        GrammarNode::Reserved(_, inner) => collect_alias_targets(grammar, inner, out),
        _ => {},
    }
}

/// Adds the visible alias targets found in each of `children` to `out`.
fn collect_alias_targets_list(grammar: &Grammar, children: &Vec<GrammarNode>, out: &mut NameSet)
    ensures
        final(out)@ == add_all(old(out)@, alias_targets_list(*grammar, children@)),
    decreases children,
{
    let mut i: usize = 0;
    assert(children@.skip(0) =~= children@);
    while i < children.len()
        invariant
            0 <= i <= children.len(),
            add_all(old(out)@, alias_targets_list(*grammar, children@))
                == add_all(out@, alias_targets_list(*grammar, children@.skip(i as int))),
        decreases children.len() - i,
    {
        let ghost before = out@;
        proof { assert(decreases_to!(*children => children[i as int])); }
        collect_alias_targets(grammar, &children[i], out);
        proof {
            let rest = children@.skip(i as int);
            assert(rest[0] == children@[i as int]);
            assert(rest.drop_first() =~= children@.skip(i + 1));
            lemma_add_all_concat(before, alias_targets(*grammar, rest[0]), alias_targets_list(*grammar, rest.drop_first()));
        }
        i += 1;
    }
    assert(children@.skip(children@.len() as int) =~= Seq::<GrammarNode>::empty());
}

/// The kinds that appear in parse trees of `grammar`, each once: every
/// rule that is neither hidden (a leading `_` or `%supertypes`) nor
/// `%inline`, in declaration order, then every alias target that is a rule
/// name and not hidden, in the order the aliases occur.
pub fn visible_kinds(grammar: &Grammar) -> (r: NameSet)
    ensures
        r@ == visible_kind_list(*grammar),
{
    let ghost es = entries(*grammar);
    let ghost g = *grammar;
    let n = rules_len(&grammar.productions);
    let mut kinds = NameSet::new();
    let mut i: usize = 0;
    while i < n
        invariant
            0 <= i <= n,
            n == es.len(),
            es == entries(*grammar),
            g == *grammar,
            kinds@ == add_all(seq![], visible_rule_names(g, es.take(i as int))),
        decreases n - i,
    {
        let (name, _) = rules_get_index(&grammar.productions, i);
        let ghost before = kinds@;
        proof {
            let t = es.take(i as int + 1);
            assert(t.drop_last() =~= es.take(i as int));
            assert(t.last() == es[i as int]);
        }
        if !grammar.is_hidden_rule(name.as_str()) && !grammar.is_inline_rule(name.as_str()) {
            kinds.insert(name.as_str());
            proof {
                let v = visible_rule_names(g, es.take(i as int));
                assert(visible_rule_names(g, es.take(i as int + 1)) == v.push(name@));
                assert(v.push(name@).drop_last() =~= v);
            }
        } else {
            assert(visible_rule_names(g, es.take(i as int + 1)) =~= visible_rule_names(g, es.take(i as int)));
        }
        i += 1;
    }
    assert(es.take(n as int) =~= es);
    let ghost base = visible_rule_names(g, es);
    let mut j: usize = 0;
    while j < n
        invariant
            0 <= j <= n,
            n == es.len(),
            es == entries(*grammar),
            g == *grammar,
            base == visible_rule_names(g, es),
            kinds@ == add_all(add_all(seq![], base), rules_alias_targets(g, es.take(j as int))),
        decreases n - j,
    {
        let (_, p) = rules_get_index(&grammar.productions, j);
        collect_alias_targets(grammar, &p.body, &mut kinds);
        proof {
            let t = es.take(j as int + 1);
            assert(t.drop_last() =~= es.take(j as int));
            assert(t.last() == es[j as int]);
            lemma_add_all_concat(add_all(seq![], base), rules_alias_targets(g, es.take(j as int)), alias_targets(g, es[j as int].1.body));
        }
        j += 1;
    }
    proof {
        assert(es.take(n as int) =~= es);
        lemma_add_all_concat(seq![], base, rules_alias_targets(g, es));
    }
    kinds
}

// ── Method-name collisions ───────────────────────────────────────────────

/// The snake_case method-name fragment of each kind.
pub open spec fn snake_names(ks: Seq<Seq<char>>) -> Seq<Seq<char>> {
    ks.map_values(|k: Seq<char>| snake_case(k))
}

/// The first position of `t` in `s`, or -1.
pub open spec fn first_pos(s: Seq<Seq<char>>, t: Seq<char>) -> int
    decreases s.len(),
{
    if s.len() == 0 {
        -1
    } else {
        let r = first_pos(s.drop_last(), t);
        if r >= 0 { r } else if s.last() == t { s.len() - 1 } else { -1 }
    }
}

/// The first clash in `s`: the first position `j` whose element occurred
/// before, with the first position `i` of that element.
pub open spec fn first_clash(s: Seq<Seq<char>>) -> Option<(int, int)>
    decreases s.len(),
{
    if s.len() == 0 {
        None
    } else {
        match first_clash(s.drop_last()) {
            Some(p) => Some(p),
            None => {
                let i = first_pos(s.drop_last(), s.last());
                if i >= 0 { Some((i, s.len() - 1)) } else { None }
            },
        }
    }
}

/// The message for kinds `a` and `b` that share the method `visit_<suffix>`.
pub open spec fn clash_msg(a: Seq<char>, b: Seq<char>, suffix: Seq<char>) -> Seq<char> {
    "kinds '"@ + a + "' and '"@ + b + "' both generate method 'visit_"@ + suffix
        + "'; rename one of the rules to avoid the clash"@
}

/// A clash found in a prefix is the first clash of the whole.
pub proof fn lemma_first_clash_prefix(s: Seq<Seq<char>>, k: int)
    requires
        0 <= k <= s.len(),
        first_clash(s.take(k)) is Some,
    ensures
        first_clash(s) == first_clash(s.take(k)),
    decreases s.len(),
{
    if k < s.len() {
        assert(s.drop_last().take(k) =~= s.take(k));
        lemma_first_clash_prefix(s.drop_last(), k);
    } else {
        assert(s.take(k) =~= s);
    }
}

/// `first_pos` finds the first occurrence.
pub proof fn lemma_first_pos_at(s: Seq<Seq<char>>, t: Seq<char>, i: int)
    requires
        0 <= i <= s.len(),
        forall|j: int| 0 <= j < i ==> s[j] != t,
        i < s.len() ==> s[i] == t,
    ensures
        first_pos(s, t) == if i < s.len() { i } else { -1 },
    decreases s.len(),
{
    if s.len() > 0 {
        if i < s.len() - 1 {
            lemma_first_pos_at(s.drop_last(), t, i);
        } else {
            lemma_first_pos_at(s.drop_last(), t, s.len() - 1);
        }
    }
}

/// `first_pos(s, t)` is the first index of `t` in `s`, or -1 where `t`
/// does not occur.
pub proof fn lemma_first_pos(s: Seq<Seq<char>>, t: Seq<char>)
    ensures
        first_pos(s, t) == -1 <==> !s.contains(t),
        first_pos(s, t) >= 0 ==> {
            let r = first_pos(s, t);
            &&& r < s.len()
            &&& s[r] == t
            &&& forall|k: int| 0 <= k < r ==> s[k] != t
        },
        first_pos(s, t) >= -1,
    decreases s.len(),
{
    if s.len() > 0 {
        lemma_first_pos(s.drop_last(), t);
        let dl = s.drop_last();
        if first_pos(dl, t) < 0 && s.last() != t {
            assert forall|k: int| 0 <= k < s.len() implies s[k] != t by {
                if k < s.len() - 1 {
                    assert(dl[k] == s[k]);
                    assert(!dl.contains(t));
                }
            }
        }
        if s.contains(t) && first_pos(dl, t) < 0 {
            let k = choose|k: int| 0 <= k < s.len() && s[k] == t;
            if k < s.len() - 1 {
                assert(dl[k] == s[k]);
            }
        }
        if dl.contains(t) {
            let k = choose|k: int| 0 <= k < dl.len() && dl[k] == t;
            assert(s[k] == dl[k]);
        }
        let r = first_pos(s, t);
        if r >= 0 {
            assert forall|k: int| 0 <= k < r implies s[k] != t by {
                assert(dl[k] == s[k]);
                if first_pos(dl, t) < 0 {
                    assert(!dl.contains(t));
                }
            }
            if first_pos(dl, t) >= 0 {
                assert(s[r] == dl[r]);
            }
        }
    }
}

/// `first_clash(s)` is `None` exactly when no element of `s` repeats; a
/// clash `(i, j)` names the least `j` whose element occurs earlier, and
/// the least such earlier position `i`.
pub proof fn lemma_first_clash(s: Seq<Seq<char>>)
    ensures
        first_clash(s) is None <==> (forall|i: int, j: int| 0 <= i < j < s.len() ==> s[i] != s[j]),
        first_clash(s) is None <==> s.no_duplicates(),
        first_clash(s) matches Some((i, j)) ==> {
            &&& 0 <= i < j < s.len()
            &&& s[i] == s[j]
            &&& forall|k: int| 0 <= k < i ==> s[k] != s[j]
            &&& forall|k: int, l: int| 0 <= k < l < j ==> s[k] != s[l]
        },
    decreases s.len(),
{
    if s.len() > 0 {
        let dl = s.drop_last();
        lemma_first_clash(dl);
        lemma_first_pos(dl, s.last());
        match first_clash(dl) {
            Some((i, j)) => {
                assert(s[i] == dl[i] && s[j] == dl[j]);
                assert forall|k: int, l: int| 0 <= k < l < j implies s[k] != s[l] by {
                    assert(dl[k] == s[k] && dl[l] == s[l]);
                }
                assert forall|k: int| 0 <= k < i implies s[k] != s[j] by {
                    assert(dl[k] == s[k]);
                }
                assert(!s.no_duplicates());
            },
            None => {
                let p = first_pos(dl, s.last());
                assert forall|k: int, l: int| 0 <= k < l < s.len() - 1 implies s[k] != s[l] by {
                    assert(dl[k] == s[k] && dl[l] == s[l]);
                }
                if p >= 0 {
                    assert(s[p] == dl[p]);
                    assert forall|k: int| 0 <= k < p implies #[trigger] s[k] != s[s.len() - 1] by {
                        assert(dl[k] == s[k]);
                    }
                    assert(!s.no_duplicates());
                } else {
                    assert forall|i: int, j: int| 0 <= i < j < s.len() implies s[i] != s[j] by {
                        if j == s.len() - 1 {
                            assert(dl[i] == s[i]);
                            assert(!dl.contains(s.last()));
                        }
                    }
                }
            },
        }
    }
}

/// Fails on the first two kinds of `kinds` whose `visit_*` method names,
/// from [`to_snake_case`], are equal; the message names the earlier kind
/// first.
pub fn check_method_name_collisions(kinds: &NameSet) -> (r: Result<(), String>)
    ensures
        match first_clash(snake_names(kinds@)) {
            None => r is Ok,
            Some((i, j)) => r matches Err(e) && e@ == clash_msg(kinds@[i], kinds@[j], snake_case(kinds@[j])),
        },
        r is Err <==> exists|i: int, j: int|
            0 <= i < j < kinds@.len() && #[trigger] snake_case(kinds@[i]) == #[trigger] snake_case(kinds@[j]),
{
    proof {
        lemma_first_clash(snake_names(kinds@));
        let sn = snake_names(kinds@);
        if first_clash(sn) is Some {
            let (i, j) = first_clash(sn).unwrap();
            assert(sn[i] == snake_case(kinds@[i]) && sn[j] == snake_case(kinds@[j]));
        } else {
            assert forall|i: int, j: int| 0 <= i < j < kinds@.len() implies
                snake_case(kinds@[i]) != snake_case(kinds@[j]) by {
                assert(sn[i] == snake_case(kinds@[i]) && sn[j] == snake_case(kinds@[j]));
            }
        }
    }
    let ghost sn = snake_names(kinds@);
    let mut seen: Vec<String> = Vec::new();
    let mut j: usize = 0;
    while j < kinds.len()
        invariant
            0 <= j <= kinds@.len(),
            sn == snake_names(kinds@),
            seen@.len() == j,
            forall|k: int| 0 <= k < j ==> (#[trigger] seen@[k])@ == sn[k],
            first_clash(sn.take(j as int)) is None,
        decreases kinds@.len() - j,
    {
        let kind = kinds.get(j);
        let suffix = to_snake_case(kind);
        let mut i: usize = 0;
        while i < j && !str_eq(seen[i].as_str(), suffix.as_str())
            invariant
                0 <= i <= j,
                seen@.len() == j,
                forall|k: int| 0 <= k < i ==> sn[k] != suffix@,
                forall|k: int| 0 <= k < j ==> (#[trigger] seen@[k])@ == sn[k],
            decreases j - i,
        {
            i += 1;
        }
        proof {
            let t = sn.take(j as int + 1);
            assert(t.drop_last() =~= sn.take(j as int));
            assert(t.last() == sn[j as int]);
            assert(sn[j as int] == suffix@);
            lemma_first_pos_at(sn.take(j as int), suffix@, i as int);
        }
        if i < j {
            let mut msg = String::from_str("kinds '");
            msg.append(kinds.get(i));
            msg.append("' and '");
            msg.append(kind);
            msg.append("' both generate method 'visit_");
            msg.append(suffix.as_str());
            msg.append("'; rename one of the rules to avoid the clash");
            proof {
                lemma_first_clash_prefix(sn, j + 1);
            }
            return Err(msg);
        }
        seen.push(suffix);
        j += 1;
    }
    assert(sn.take(kinds@.len() as int) =~= sn);
    Ok(())
}

/// The error of [`check_visitor`] for `g`, if any.
pub open spec fn visitor_error(g: Grammar) -> Option<Seq<char>> {
    match first_clash(snake_names(visible_kind_list(g))) {
        None => None,
        Some((i, j)) => Some(clash_msg(visible_kind_list(g)[i], visible_kind_list(g)[j], snake_case(visible_kind_list(g)[j]))),
    }
}

/// Fails when two visible kinds of `grammar` would generate the same
/// `visit_*` method name, as [`check_method_name_collisions`] says.
pub fn check_visitor(grammar: &Grammar) -> (r: Result<(), String>)
    ensures
        match first_clash(snake_names(visible_kind_list(*grammar))) {
            None => r is Ok,
            Some((i, j)) => r matches Err(e) && e@ == clash_msg(visible_kind_list(*grammar)[i],
                visible_kind_list(*grammar)[j], snake_case(visible_kind_list(*grammar)[j])),
        },
{
    check_method_name_collisions(&visible_kinds(grammar))
}

// ── Walking through hidden and inline rules ──────────────────────────────

/// Rules being expanded, innermost last: distinct rule names of `g`.
pub open spec fn valid_path(g: Grammar, s: Seq<Seq<char>>) -> bool {
    s.no_duplicates() && forall|i: int| 0 <= i < s.len() ==> has_key(entries(g), #[trigger] s[i])
}

/// A walk along path `s` may step into rule `x`: it is defined and not
/// already being expanded.
pub open spec fn can_enter(g: Grammar, x: Seq<char>, s: Seq<Seq<char>>) -> bool {
    rule_named(g, x) is Some && !s.contains(x) && s.len() < entries(g).len()
}

/// The body of rule `x`.
pub open spec fn body_of(g: Grammar, x: Seq<char>) -> GrammarNode {
    rule_named(g, x).unwrap().body
}

/// A path of distinct rule names leaves room for every other rule.
proof fn lemma_path_room(g: Grammar, s: Seq<Seq<char>>, x: Seq<char>)
    requires
        valid_path(g, s),
        has_key(entries(g), x),
        !s.contains(x),
    ensures
        s.len() < entries(g).len(),
{
    let k = entry_keys(entries(g));
    s.unique_seq_to_set();
    k.lemma_cardinality_of_set();
    assert forall|y: Seq<char>| s.to_set().contains(y) implies k.to_set().contains(y) by {
        let i = choose|i: int| 0 <= i < s.len() && s[i] == y;
        assert(has_key(entries(g), s[i]));
        let j = choose|j: int| 0 <= j < entries(g).len() && entries(g)[j].0@ == y;
        assert(k[j] == y);
    }
    let j = choose|j: int| 0 <= j < entries(g).len() && entries(g)[j].0@ == x;
    assert(k[j] == x);
    assert(k.to_set().contains(x));
    vstd::seq_lib::seq_to_set_is_finite(k);
    s.to_set().lemma_subset_not_in_lt(k.to_set(), x);
}

/// Removing the name just added gives back the path before it.
proof fn lemma_pop_path(s: Seq<Seq<char>>, z: Seq<char>, f: spec_fn(Seq<char>) -> bool)
    requires
        !s.contains(z),
        forall|y: Seq<char>| #[trigger] f(y) == (y != z),
    ensures
        s.push(z).filter(f) == s,
    decreases s.len(),
{
    reveal(Seq::filter);
    assert(s.push(z).drop_last() =~= s);
    lemma_filter_keeps_all(s, z, f);
}

/// A sequence without `z` is unchanged by removing `z`.
proof fn lemma_filter_keeps_all(s: Seq<Seq<char>>, z: Seq<char>, f: spec_fn(Seq<char>) -> bool)
    requires
        !s.contains(z),
        forall|y: Seq<char>| #[trigger] f(y) == (y != z),
    ensures
        s.filter(f) == s,
    decreases s.len(),
{
    reveal(Seq::filter);
    if s.len() > 0 {
        assert(!s.drop_last().contains(z)) by {
            if s.drop_last().contains(z) {
                let i = choose|i: int| 0 <= i < s.drop_last().len() && s.drop_last()[i] == z;
                assert(s[i] == z);
            }
        }
        lemma_filter_keeps_all(s.drop_last(), z, f);
        assert(s.last() != z) by {
            if s.last() == z {
                assert(s[s.len() - 1] == z);
            }
        }
        assert(f(s.last()));
        assert(s.drop_last().push(s.last()) =~= s);
    }
}

/// Whether a walk from `n` along path `s` meets a reference to a rule that
/// produces a node of its own, stepping into hidden and inline rules.
pub open spec fn reaches_visible(g: Grammar, n: GrammarNode, s: Seq<Seq<char>>) -> bool
    decreases entries(g).len() - s.len(), n,
{
    match n {
        GrammarNode::NonTerminal(x) => if !transparent_name(g, x@) {
            true
        } else if can_enter(g, x@, s) {
            reaches_visible(g, body_of(g, x@), s.push(x@))
        } else {
            false
        },
        GrammarNode::TerminalLiteral(_) => false,
        GrammarNode::TerminalPattern(_) => false,
        GrammarNode::Sequence(cs) => reaches_visible_list(g, cs@, s),
        GrammarNode::Choice(cs) => reaches_visible_list(g, cs@, s),
        GrammarNode::Optional(i) => reaches_visible(g, *i, s),
        GrammarNode::ZeroOrMore(i) => reaches_visible(g, *i, s),
        GrammarNode::OneOrMore(i) => reaches_visible(g, *i, s),
        GrammarNode::Token(i) => reaches_visible(g, *i, s),
        GrammarNode::TokenImmediate(i) => reaches_visible(g, *i, s),
        GrammarNode::Field(_, i) => reaches_visible(g, *i, s),
        GrammarNode::Prec(_, _, i) => reaches_visible(g, *i, s),
        GrammarNode::Reserved(_, i) => reaches_visible(g, *i, s),
        GrammarNode::Alias(b, _) => reaches_visible(g, *b, s),
    }
}

/// Whether a walk from some element of `cs` meets a visible reference.
pub open spec fn reaches_visible_list(g: Grammar, cs: Seq<GrammarNode>, s: Seq<Seq<char>>) -> bool
    decreases entries(g).len() - s.len(), cs,
{
    if cs.len() == 0 {
        false
    } else {
        reaches_visible(g, cs[0], s) || reaches_visible_list(g, cs.drop_first(), s)
    }
}

/// Steps into rule `name` for a walk along `in_progress`; gives the body
/// when the walk may enter it, with `name` added to the path.
pub(crate) fn enter_rule<'g>(grammar: &'g Grammar, name: &str, in_progress: &mut NameSet) -> (r: Option<&'g GrammarNode>)
    requires
        valid_path(*grammar, old(in_progress)@),
    ensures
        can_enter(*grammar, name@, old(in_progress)@) ==> r == Some(&body_of(*grammar, name@))
            && final(in_progress)@ == old(in_progress)@.push(name@),
        !can_enter(*grammar, name@, old(in_progress)@) ==> r is None && final(in_progress)@ == old(in_progress)@,
        valid_path(*grammar, final(in_progress)@),
{
    match grammar.get_rule(name) {
        None => None,
        Some(p) => {
            if in_progress.contains(name) {
                return None;
            }
            proof {
                crate::types::lemma_key_pos(entries(*grammar), name@);
                lemma_path_room(*grammar, in_progress@, name@);
            }
            in_progress.insert(name);
            proof {
                assert forall|i: int| 0 <= i < in_progress@.len() implies has_key(entries(*grammar), #[trigger] in_progress@[i]) by {
                    if i < old(in_progress)@.len() {
                        assert(in_progress@[i] == old(in_progress)@[i]);
                    }
                }
            }
            Some(&p.body)
        },
    }
}

/// Takes `name`, the rule entered last, off the path.
pub(crate) fn leave_rule(grammar: &Grammar, name: &str, in_progress: &mut NameSet, Ghost(before): Ghost<Seq<Seq<char>>>)
    requires
        old(in_progress)@ == before.push(name@),
        !before.contains(name@),
    ensures
        final(in_progress)@ == before,
{
    in_progress.remove(name);
    proof { lemma_pop_path(before, name@, |x: Seq<char>| x != name@); }
}

/// Whether a walk from `node` meets a visible rule reference.
fn references_visible_nonterminal(grammar: &Grammar, node: &GrammarNode, in_progress: &mut NameSet) -> (r: bool)
    requires
        valid_path(*grammar, old(in_progress)@),
    ensures
        final(in_progress)@ == old(in_progress)@,
        r == reaches_visible(*grammar, *node, old(in_progress)@),
    decreases entries(*grammar).len() - old(in_progress)@.len(), node,
{
    match node {
        GrammarNode::NonTerminal(name) => {
            if !grammar.is_hidden_rule(name.as_str()) && !grammar.is_inline_rule(name.as_str()) {
                return true;
            }
            let ghost before = in_progress@;
            match enter_rule(grammar, name.as_str(), in_progress) {
                None => false,
                Some(body) => {
                    let found = references_visible_nonterminal(grammar, body, in_progress);
                    leave_rule(grammar, name.as_str(), in_progress, Ghost(before));
                    found
                },
            }
        },
        GrammarNode::TerminalLiteral(_) => false,
        GrammarNode::TerminalPattern(_) => false,
        GrammarNode::Sequence(children) => references_visible_list(grammar, children, in_progress),
        GrammarNode::Choice(children) => references_visible_list(grammar, children, in_progress),
        GrammarNode::Optional(inner) => references_visible_nonterminal(grammar, inner, in_progress),
        GrammarNode::ZeroOrMore(inner) => references_visible_nonterminal(grammar, inner, in_progress),
        GrammarNode::OneOrMore(inner) => references_visible_nonterminal(grammar, inner, in_progress),
        GrammarNode::Token(inner) => references_visible_nonterminal(grammar, inner, in_progress),
        GrammarNode::TokenImmediate(inner) => references_visible_nonterminal(grammar, inner, in_progress),
        GrammarNode::Field(_, inner) => references_visible_nonterminal(grammar, inner, in_progress),
        GrammarNode::Prec(_, _, inner) => references_visible_nonterminal(grammar, inner, in_progress),
        GrammarNode::Reserved(_, inner) => references_visible_nonterminal(grammar, inner, in_progress),
        GrammarNode::Alias(body, _) => references_visible_nonterminal(grammar, body, in_progress),
    }
}

/// Whether a walk from some element of `children` meets a visible reference.
fn references_visible_list(grammar: &Grammar, children: &Vec<GrammarNode>, in_progress: &mut NameSet) -> (r: bool)
    requires
        valid_path(*grammar, old(in_progress)@),
    ensures
        final(in_progress)@ == old(in_progress)@,
        r == reaches_visible_list(*grammar, children@, old(in_progress)@),
    decreases entries(*grammar).len() - old(in_progress)@.len(), children,
{
    let mut i: usize = 0;
    assert(children@.skip(0) =~= children@);
    while i < children.len()
        invariant
            0 <= i <= children.len(),
            in_progress@ == old(in_progress)@,
            valid_path(*grammar, in_progress@),
            reaches_visible_list(*grammar, children@, in_progress@)
                == reaches_visible_list(*grammar, children@.skip(i as int), in_progress@),
        decreases children.len() - i,
    {
        proof {
            assert(decreases_to!(*children => children[i as int]));
            let rest = children@.skip(i as int);
            assert(rest[0] == children@[i as int]);
            assert(rest.drop_first() =~= children@.skip(i + 1));
        }
        if references_visible_nonterminal(grammar, &children[i], in_progress) {
            return true;
        }
        i += 1;
    }
    false
}

/// Whether `body` reaches no visible rule reference, stepping through
/// hidden and inline rules: a node built from it has no named children to
/// walk. A rule already being expanded adds nothing when met again.
pub fn is_leaf_body(grammar: &Grammar, body: &GrammarNode) -> (r: bool)
    ensures
        r == !reaches_visible(*grammar, *body, seq![]),
{
    let mut in_progress = NameSet::new();
    !references_visible_nonterminal(grammar, body, &mut in_progress)
}

// ── The kinds a field's value may take ───────────────────────────────────

/// The kinds a field's value may resolve to: the visible kind names, in
/// the order first met, and whether it may be a bare token.
#[derive(Debug)]
pub struct FieldTargetKinds {
    /// Visible kind names the value may take.
    pub named: NameSet,
    /// Whether some branch ends at a bare terminal with no kind name.
    pub anonymous_token: bool,
}

/// The kind names met and whether a bare token was met, walking from `n`
/// along path `s`: a visible rule reference is a kind and ends the walk; a
/// hidden or inline rule is stepped into; a terminal is a bare token; an
/// alias to a visible name is that kind, to a hidden name steps into its
/// body, and to anything else is a bare token.
pub open spec fn field_kinds(g: Grammar, n: GrammarNode, s: Seq<Seq<char>>) -> (Seq<Seq<char>>, bool)
    decreases entries(g).len() - s.len(), n,
{
    match n {
        GrammarNode::NonTerminal(x) => if !transparent_name(g, x@) {
            (seq![x@], false)
        } else if can_enter(g, x@, s) {
            field_kinds(g, body_of(g, x@), s.push(x@))
        } else {
            (seq![], false)
        },
        GrammarNode::TerminalLiteral(_) => (seq![], true),
        GrammarNode::TerminalPattern(_) => (seq![], true),
        GrammarNode::Sequence(cs) => field_kinds_list(g, cs@, s),
        GrammarNode::Choice(cs) => field_kinds_list(g, cs@, s),
        GrammarNode::Optional(i) => field_kinds(g, *i, s),
        GrammarNode::ZeroOrMore(i) => field_kinds(g, *i, s),
        GrammarNode::OneOrMore(i) => field_kinds(g, *i, s),
        GrammarNode::Token(i) => field_kinds(g, *i, s),
        GrammarNode::TokenImmediate(i) => field_kinds(g, *i, s),
        GrammarNode::Field(_, i) => field_kinds(g, *i, s),
        GrammarNode::Prec(_, _, i) => field_kinds(g, *i, s),
        GrammarNode::Reserved(_, i) => field_kinds(g, *i, s),
        GrammarNode::Alias(b, name) => match *name {
            GrammarNode::NonTerminal(x) => if !hidden_name(g, x@) { (seq![x@], false) } else { field_kinds(g, *b, s) },
            _ => (seq![], true),
        },
    }
}

/// [`field_kinds`] of each element of `cs`, combined in order.
pub open spec fn field_kinds_list(g: Grammar, cs: Seq<GrammarNode>, s: Seq<Seq<char>>) -> (Seq<Seq<char>>, bool)
    decreases entries(g).len() - s.len(), cs,
{
    if cs.len() == 0 {
        (seq![], false)
    } else {
        let a = field_kinds(g, cs[0], s);
        let b = field_kinds_list(g, cs.drop_first(), s);
        (a.0 + b.0, a.1 || b.1)
    }
}

/// Adds the kinds `node` may resolve to, walking along `in_progress`, to `out`.
fn resolve_field_target_kinds_into(grammar: &Grammar, node: &GrammarNode, in_progress: &mut NameSet, out: &mut FieldTargetKinds)
    requires
        valid_path(*grammar, old(in_progress)@),
    ensures
        final(in_progress)@ == old(in_progress)@,
        final(out).named@ == add_all(old(out).named@, field_kinds(*grammar, *node, old(in_progress)@).0),
        final(out).anonymous_token == (old(out).anonymous_token || field_kinds(*grammar, *node, old(in_progress)@).1),
    decreases entries(*grammar).len() - old(in_progress)@.len(), node,
{
    let ghost before = out.named@;
    proof { assert(add_all(before, Seq::<Seq<char>>::empty()) == before); }
    match node {
        GrammarNode::NonTerminal(name) => {
            if !grammar.is_hidden_rule(name.as_str()) && !grammar.is_inline_rule(name.as_str()) {
                out.named.insert(name.as_str());
                assert(seq![name@].drop_last() =~= Seq::<Seq<char>>::empty());
                return;
            }
            let ghost path = in_progress@;
            match enter_rule(grammar, name.as_str(), in_progress) {
                None => {},
                Some(body) => {
                    resolve_field_target_kinds_into(grammar, body, in_progress, out);
                    leave_rule(grammar, name.as_str(), in_progress, Ghost(path));
                },
            }
        },
        GrammarNode::TerminalLiteral(_) => {
            out.anonymous_token = true;
        },
        GrammarNode::TerminalPattern(_) => {
            out.anonymous_token = true;
        },
        GrammarNode::Sequence(children) => resolve_field_target_kinds_list(grammar, children, in_progress, out),
        GrammarNode::Choice(children) => resolve_field_target_kinds_list(grammar, children, in_progress, out),
        GrammarNode::Optional(inner) => resolve_field_target_kinds_into(grammar, inner, in_progress, out),
        GrammarNode::ZeroOrMore(inner) => resolve_field_target_kinds_into(grammar, inner, in_progress, out),
        GrammarNode::OneOrMore(inner) => resolve_field_target_kinds_into(grammar, inner, in_progress, out),
        GrammarNode::Token(inner) => resolve_field_target_kinds_into(grammar, inner, in_progress, out),
        GrammarNode::TokenImmediate(inner) => resolve_field_target_kinds_into(grammar, inner, in_progress, out),
        GrammarNode::Field(_, inner) => resolve_field_target_kinds_into(grammar, inner, in_progress, out),
        GrammarNode::Prec(_, _, inner) => resolve_field_target_kinds_into(grammar, inner, in_progress, out),
        GrammarNode::Reserved(_, inner) => resolve_field_target_kinds_into(grammar, inner, in_progress, out),
        GrammarNode::Alias(body, name) => match &**name {
            GrammarNode::NonTerminal(n) => {
                if !grammar.is_hidden_rule(n.as_str()) {
                    out.named.insert(n.as_str());
                    assert(seq![n@].drop_last() =~= Seq::<Seq<char>>::empty());
                } else {
                    resolve_field_target_kinds_into(grammar, body, in_progress, out);
                }
            },
            _ => {
                out.anonymous_token = true;
            },
        },
    }
}

/// Adds the kinds each of `children` may resolve to, to `out`.
fn resolve_field_target_kinds_list(grammar: &Grammar, children: &Vec<GrammarNode>, in_progress: &mut NameSet, out: &mut FieldTargetKinds)
    requires
        valid_path(*grammar, old(in_progress)@),
    ensures
        final(in_progress)@ == old(in_progress)@,
        final(out).named@ == add_all(old(out).named@, field_kinds_list(*grammar, children@, old(in_progress)@).0),
        final(out).anonymous_token == (old(out).anonymous_token || field_kinds_list(*grammar, children@, old(in_progress)@).1),
    decreases entries(*grammar).len() - old(in_progress)@.len(), children,
{
    let ghost s = in_progress@;
    let mut i: usize = 0;
    assert(children@.skip(0) =~= children@);
    while i < children.len()
        invariant
            0 <= i <= children.len(),
            in_progress@ == s,
            s == old(in_progress)@,
            valid_path(*grammar, s),
            add_all(old(out).named@, field_kinds_list(*grammar, children@, s).0)
                == add_all(out.named@, field_kinds_list(*grammar, children@.skip(i as int), s).0),
            (old(out).anonymous_token || field_kinds_list(*grammar, children@, s).1)
                == (out.anonymous_token || field_kinds_list(*grammar, children@.skip(i as int), s).1),
        decreases children.len() - i,
    {
        let ghost bn = out.named@;
        proof { assert(decreases_to!(*children => children[i as int])); }
        resolve_field_target_kinds_into(grammar, &children[i], in_progress, out);
        proof {
            let rest = children@.skip(i as int);
            assert(rest[0] == children@[i as int]);
            assert(rest.drop_first() =~= children@.skip(i + 1));
            lemma_add_all_concat(bn, field_kinds(*grammar, rest[0], s).0, field_kinds_list(*grammar, rest.drop_first(), s).0);
        }
        i += 1;
    }
    assert(children@.skip(children@.len() as int) =~= Seq::<GrammarNode>::empty());
}

/// The kinds the value of a field with content `node` may take: the
/// visible kinds met, each once in the order first met, and whether a bare
/// token may be met. Hidden and inline rules are stepped into; a rule
/// already being expanded adds nothing when met again.
pub fn resolve_field_target_kinds(grammar: &Grammar, node: &GrammarNode) -> (r: FieldTargetKinds)
    ensures
        r.named@ == add_all(seq![], field_kinds(*grammar, *node, seq![]).0),
        r.anonymous_token == field_kinds(*grammar, *node, seq![]).1,
{
    let mut out = FieldTargetKinds { named: NameSet::new(), anonymous_token: false };
    let mut in_progress = NameSet::new();
    resolve_field_target_kinds_into(grammar, node, &mut in_progress, &mut out);
    out
}

// ── Anonymous children ───────────────────────────────────────────────────

/// The literal and pattern texts met walking from `n` along path `s`,
/// stepping into hidden and inline rules and stopping at visible ones; an
/// alias contributes its target when that is a terminal, steps into its
/// body when the target is a hidden name, and stops otherwise.
pub open spec fn anon_children(g: Grammar, n: GrammarNode, s: Seq<Seq<char>>) -> Seq<Seq<char>>
    decreases entries(g).len() - s.len(), n,
{
    match n {
        GrammarNode::NonTerminal(x) => if !transparent_name(g, x@) {
            seq![]
        } else if can_enter(g, x@, s) {
            anon_children(g, body_of(g, x@), s.push(x@))
        } else {
            seq![]
        },
        GrammarNode::TerminalLiteral(t) => seq![t@],
        GrammarNode::TerminalPattern(t) => seq![t@],
        GrammarNode::Sequence(cs) => anon_children_list(g, cs@, s),
        GrammarNode::Choice(cs) => anon_children_list(g, cs@, s),
        GrammarNode::Optional(i) => anon_children(g, *i, s),
        GrammarNode::ZeroOrMore(i) => anon_children(g, *i, s),
        GrammarNode::OneOrMore(i) => anon_children(g, *i, s),
        GrammarNode::Token(i) => anon_children(g, *i, s),
        GrammarNode::TokenImmediate(i) => anon_children(g, *i, s),
        GrammarNode::Field(_, i) => anon_children(g, *i, s),
        GrammarNode::Prec(_, _, i) => anon_children(g, *i, s),
        GrammarNode::Reserved(_, i) => anon_children(g, *i, s),
        GrammarNode::Alias(b, name) => match *name {
            GrammarNode::NonTerminal(x) => if !hidden_name(g, x@) { seq![] } else { anon_children(g, *b, s) },
            GrammarNode::TerminalLiteral(t) => seq![t@],
            GrammarNode::TerminalPattern(t) => seq![t@],
            _ => seq![],
        },
    }
}

/// [`anon_children`] of each element of `cs`, concatenated.
pub open spec fn anon_children_list(g: Grammar, cs: Seq<GrammarNode>, s: Seq<Seq<char>>) -> Seq<Seq<char>>
    decreases entries(g).len() - s.len(), cs,
{
    if cs.len() == 0 {
        seq![]
    } else {
        anon_children(g, cs[0], s) + anon_children_list(g, cs.drop_first(), s)
    }
}

/// Adds the anonymous children met walking from `node` to `out`.
fn collect_anonymous_children_into(grammar: &Grammar, node: &GrammarNode, in_progress: &mut NameSet, out: &mut NameSet)
    requires
        valid_path(*grammar, old(in_progress)@),
    ensures
        final(in_progress)@ == old(in_progress)@,
        final(out)@ == add_all(old(out)@, anon_children(*grammar, *node, old(in_progress)@)),
    decreases entries(*grammar).len() - old(in_progress)@.len(), node,
{
    let ghost before = out@;
    proof { assert(add_all(before, Seq::<Seq<char>>::empty()) == before); }
    match node {
        GrammarNode::NonTerminal(name) => {
            if !grammar.is_hidden_rule(name.as_str()) && !grammar.is_inline_rule(name.as_str()) {
                return;
            }
            let ghost path = in_progress@;
            match enter_rule(grammar, name.as_str(), in_progress) {
                None => {},
                Some(body) => {
                    collect_anonymous_children_into(grammar, body, in_progress, out);
                    leave_rule(grammar, name.as_str(), in_progress, Ghost(path));
                },
            }
        },
        GrammarNode::TerminalLiteral(text) => {
            out.insert(text.as_str());
            assert(seq![text@].drop_last() =~= Seq::<Seq<char>>::empty());
        },
        GrammarNode::TerminalPattern(text) => {
            out.insert(text.as_str());
            assert(seq![text@].drop_last() =~= Seq::<Seq<char>>::empty());
        },
        GrammarNode::Sequence(children) => collect_anonymous_children_list(grammar, children, in_progress, out),
        GrammarNode::Choice(children) => collect_anonymous_children_list(grammar, children, in_progress, out),
        GrammarNode::Optional(inner) => collect_anonymous_children_into(grammar, inner, in_progress, out),
        GrammarNode::ZeroOrMore(inner) => collect_anonymous_children_into(grammar, inner, in_progress, out),
        GrammarNode::OneOrMore(inner) => collect_anonymous_children_into(grammar, inner, in_progress, out),
        GrammarNode::Token(inner) => collect_anonymous_children_into(grammar, inner, in_progress, out),
        GrammarNode::TokenImmediate(inner) => collect_anonymous_children_into(grammar, inner, in_progress, out),
        GrammarNode::Field(_, inner) => collect_anonymous_children_into(grammar, inner, in_progress, out),
        GrammarNode::Prec(_, _, inner) => collect_anonymous_children_into(grammar, inner, in_progress, out),
        GrammarNode::Reserved(_, inner) => collect_anonymous_children_into(grammar, inner, in_progress, out),
        GrammarNode::Alias(body, name) => match &**name {
            GrammarNode::NonTerminal(n) => {
                if grammar.is_hidden_rule(n.as_str()) {
                    collect_anonymous_children_into(grammar, body, in_progress, out);
                }
            },
            GrammarNode::TerminalLiteral(text) => {
                out.insert(text.as_str());
                assert(seq![text@].drop_last() =~= Seq::<Seq<char>>::empty());
            },
            GrammarNode::TerminalPattern(text) => {
                out.insert(text.as_str());
                assert(seq![text@].drop_last() =~= Seq::<Seq<char>>::empty());
            },
            _ => {},
        },
    }
}

/// Adds the anonymous children met walking from each of `children` to `out`.
fn collect_anonymous_children_list(grammar: &Grammar, children: &Vec<GrammarNode>, in_progress: &mut NameSet, out: &mut NameSet)
    requires
        valid_path(*grammar, old(in_progress)@),
    ensures
        final(in_progress)@ == old(in_progress)@,
        final(out)@ == add_all(old(out)@, anon_children_list(*grammar, children@, old(in_progress)@)),
    decreases entries(*grammar).len() - old(in_progress)@.len(), children,
{
    let ghost s = in_progress@;
    let mut i: usize = 0;
    assert(children@.skip(0) =~= children@);
    while i < children.len()
        invariant
            0 <= i <= children.len(),
            in_progress@ == s,
            s == old(in_progress)@,
            valid_path(*grammar, s),
            add_all(old(out)@, anon_children_list(*grammar, children@, s))
                == add_all(out@, anon_children_list(*grammar, children@.skip(i as int), s)),
        decreases children.len() - i,
    {
        let ghost bn = out@;
        proof { assert(decreases_to!(*children => children[i as int])); }
        collect_anonymous_children_into(grammar, &children[i], in_progress, out);
        proof {
            let rest = children@.skip(i as int);
            assert(rest[0] == children@[i as int]);
            assert(rest.drop_first() =~= children@.skip(i + 1));
            lemma_add_all_concat(bn, anon_children(*grammar, rest[0], s), anon_children_list(*grammar, rest.drop_first(), s));
        }
        i += 1;
    }
    assert(children@.skip(children@.len() as int) =~= Seq::<GrammarNode>::empty());
}

/// The literal and pattern texts that may appear directly under a node
/// built from `body`, each once in the order first met. Hidden and inline
/// rules are stepped into, visible ones are separate nodes and add nothing.
pub fn collect_anonymous_children(grammar: &Grammar, body: &GrammarNode) -> (r: NameSet)
    ensures
        r@ == add_all(seq![], anon_children(*grammar, *body, seq![])),
{
    let mut out = NameSet::new();
    let mut in_progress = NameSet::new();
    collect_anonymous_children_into(grammar, body, &mut in_progress, &mut out);
    out
}

// ── Fields ───────────────────────────────────────────────────────────────

/// One field met in a walk: its name, the kinds its value may take (each
/// once) and whether it may be a bare token.
pub type FieldEvent = (Seq<char>, Seq<Seq<char>>, bool);

/// The fields met walking from `n` along path `s`, in order: each field's
/// own content is resolved afresh, then walked for fields nested inside
/// it. Hidden and inline rules are stepped into; visible rule references
/// and aliases to visible names or terminals end the walk.
pub open spec fn field_events(g: Grammar, n: GrammarNode, s: Seq<Seq<char>>) -> Seq<FieldEvent>
    decreases entries(g).len() - s.len(), n,
{
    match n {
        GrammarNode::Field(name, i) => {
            let k = field_kinds(g, *i, seq![]);
            seq![(name@, add_all(seq![], k.0), k.1)] + field_events(g, *i, s)
        },
        GrammarNode::NonTerminal(x) => if transparent_name(g, x@) && can_enter(g, x@, s) {
            field_events(g, body_of(g, x@), s.push(x@))
        } else {
            seq![]
        },
        GrammarNode::TerminalLiteral(_) => seq![],
        GrammarNode::TerminalPattern(_) => seq![],
        GrammarNode::Sequence(cs) => field_events_list(g, cs@, s),
        GrammarNode::Choice(cs) => field_events_list(g, cs@, s),
        GrammarNode::Optional(i) => field_events(g, *i, s),
        GrammarNode::ZeroOrMore(i) => field_events(g, *i, s),
        GrammarNode::OneOrMore(i) => field_events(g, *i, s),
        GrammarNode::Token(i) => field_events(g, *i, s),
        GrammarNode::TokenImmediate(i) => field_events(g, *i, s),
        GrammarNode::Prec(_, _, i) => field_events(g, *i, s),
        GrammarNode::Reserved(_, i) => field_events(g, *i, s),
        GrammarNode::Alias(b, name) => match *name {
            GrammarNode::NonTerminal(x) => if hidden_name(g, x@) { field_events(g, *b, s) } else { seq![] },
            _ => seq![],
        },
    }
}

/// [`field_events`] of each element of `cs`, concatenated.
pub open spec fn field_events_list(g: Grammar, cs: Seq<GrammarNode>, s: Seq<Seq<char>>) -> Seq<FieldEvent>
    decreases entries(g).len() - s.len(), cs,
{
    if cs.len() == 0 {
        seq![]
    } else {
        field_events(g, cs[0], s) + field_events_list(g, cs.drop_first(), s)
    }
}

/// The position of the field named `k` in `m`, or -1.
pub open spec fn field_pos(m: Seq<FieldEvent>, k: Seq<char>) -> int
    decreases m.len(),
{
    if m.len() == 0 {
        -1
    } else {
        let r = field_pos(m.drop_last(), k);
        if r >= 0 { r } else if m.last().0 == k { m.len() - 1 } else { -1 }
    }
}

/// `m` with the field of `e` merged in: a field already there gains the
/// new kinds and token flag, a new field is added last.
pub open spec fn merge_field(m: Seq<FieldEvent>, e: FieldEvent) -> Seq<FieldEvent> {
    let p = field_pos(m, e.0);
    if p >= 0 {
        m.update(p, (e.0, add_all(m[p].1, e.1), m[p].2 || e.2))
    } else {
        m.push((e.0, add_all(seq![], e.1), e.2))
    }
}

/// `m` with every field of `es` merged in, in order.
pub open spec fn merge_fields(m: Seq<FieldEvent>, es: Seq<FieldEvent>) -> Seq<FieldEvent>
    decreases es.len(),
{
    if es.len() == 0 {
        m
    } else {
        merge_field(merge_fields(m, es.drop_last()), es.last())
    }
}

/// Merging a concatenation merges its parts one after the other.
proof fn lemma_merge_fields_concat(m: Seq<FieldEvent>, a: Seq<FieldEvent>, b: Seq<FieldEvent>)
    ensures
        merge_fields(m, a + b) == merge_fields(merge_fields(m, a), b),
    decreases b.len(),
{
    if b.len() == 0 {
        assert(a + b =~= a);
    } else {
        lemma_merge_fields_concat(m, a, b.drop_last());
        assert((a + b).drop_last() =~= a + b.drop_last());
        assert((a + b).last() == b.last());
    }
}

/// The view of a field table: each field's name, kinds and token flag.
pub open spec fn fields_view(v: Seq<(String, FieldTargetKinds)>) -> Seq<FieldEvent> {
    v.map_values(|e: (String, FieldTargetKinds)| (e.0@, e.1.named@, e.1.anonymous_token))
}

/// `field_pos` finds the first field with the name.
proof fn lemma_field_pos(m: Seq<FieldEvent>, k: Seq<char>, i: int)
    requires
        0 <= i <= m.len(),
        forall|j: int| 0 <= j < i ==> (#[trigger] m[j]).0 != k,
        i < m.len() ==> m[i].0 == k,
    ensures
        field_pos(m, k) == if i < m.len() { i } else { -1 },
    decreases m.len(),
{
    if m.len() > 0 {
        if i < m.len() - 1 {
            lemma_field_pos(m.drop_last(), k, i);
        } else {
            lemma_field_pos(m.drop_last(), k, m.len() - 1);
        }
    }
}

/// Merges the field `name` with value kinds `resolved` into `out`.
fn merge_field_into(out: &mut Vec<(String, FieldTargetKinds)>, name: &str, resolved: &FieldTargetKinds)
    ensures
        fields_view(final(out)@) == merge_field(fields_view(old(out)@), (name@, resolved.named@, resolved.anonymous_token)),
{
    let ghost m = fields_view(out@);
    let mut p: usize = 0;
    while p < out.len() && !str_eq(out[p].0.as_str(), name)
        invariant
            0 <= p <= out@.len(),
            m == fields_view(out@),
            out@ == old(out)@,
            forall|j: int| 0 <= j < p ==> (#[trigger] m[j]).0 != name@,
        decreases out@.len() - p,
    {
        p += 1;
    }
    proof { lemma_field_pos(m, name@, p as int); }
    if p < out.len() {
        let mut named = out[p].1.named.duplicate();
        named.extend(&resolved.named);
        let anonymous_token = out[p].1.anonymous_token || resolved.anonymous_token;
        out.set(p, (owned(name), FieldTargetKinds { named, anonymous_token }));
        assert(fields_view(out@) =~= merge_field(m, (name@, resolved.named@, resolved.anonymous_token)));
    } else {
        let mut named = NameSet::new();
        named.extend(&resolved.named);
        out.push((owned(name), FieldTargetKinds { named, anonymous_token: resolved.anonymous_token }));
        assert(fields_view(out@) =~= merge_field(m, (name@, resolved.named@, resolved.anonymous_token)));
    }
}

/// Merges the fields met walking from `node` into `out`.
fn collect_fields_into(grammar: &Grammar, node: &GrammarNode, in_progress: &mut NameSet, out: &mut Vec<(String, FieldTargetKinds)>)
    requires
        valid_path(*grammar, old(in_progress)@),
    ensures
        final(in_progress)@ == old(in_progress)@,
        fields_view(final(out)@) == merge_fields(fields_view(old(out)@), field_events(*grammar, *node, old(in_progress)@)),
    decreases entries(*grammar).len() - old(in_progress)@.len(), node,
{
    let ghost before = fields_view(out@);
    proof { assert(merge_fields(before, Seq::<FieldEvent>::empty()) == before); }
    match node {
        GrammarNode::Field(name, inner) => {
            let resolved = resolve_field_target_kinds(grammar, inner);
            merge_field_into(out, name.as_str(), &resolved);
            let ghost mid = fields_view(out@);
            let ghost e = (name@, resolved.named@, resolved.anonymous_token);
            proof {
                assert(seq![e].drop_last() =~= Seq::<FieldEvent>::empty());
                assert(mid == merge_fields(before, seq![e]));
            }
            collect_fields_into(grammar, inner, in_progress, out);
            proof {
                lemma_merge_fields_concat(before, seq![e], field_events(*grammar, **inner, in_progress@));
            }
        },
        GrammarNode::NonTerminal(name) => {
            if !grammar.is_hidden_rule(name.as_str()) && !grammar.is_inline_rule(name.as_str()) {
                return;
            }
            let ghost path = in_progress@;
            match enter_rule(grammar, name.as_str(), in_progress) {
                None => {},
                Some(body) => {
                    collect_fields_into(grammar, body, in_progress, out);
                    leave_rule(grammar, name.as_str(), in_progress, Ghost(path));
                },
            }
        },
        GrammarNode::TerminalLiteral(_) => {},
        GrammarNode::TerminalPattern(_) => {},
        GrammarNode::Sequence(children) => collect_fields_list(grammar, children, in_progress, out),
        GrammarNode::Choice(children) => collect_fields_list(grammar, children, in_progress, out),
        GrammarNode::Optional(inner) => collect_fields_into(grammar, inner, in_progress, out),
        GrammarNode::ZeroOrMore(inner) => collect_fields_into(grammar, inner, in_progress, out),
        GrammarNode::OneOrMore(inner) => collect_fields_into(grammar, inner, in_progress, out),
        GrammarNode::Token(inner) => collect_fields_into(grammar, inner, in_progress, out),
        GrammarNode::TokenImmediate(inner) => collect_fields_into(grammar, inner, in_progress, out),
        GrammarNode::Prec(_, _, inner) => collect_fields_into(grammar, inner, in_progress, out),
        GrammarNode::Reserved(_, inner) => collect_fields_into(grammar, inner, in_progress, out),
        GrammarNode::Alias(body, name) => match &**name {
            GrammarNode::NonTerminal(n) => {
                if grammar.is_hidden_rule(n.as_str()) {
                    collect_fields_into(grammar, body, in_progress, out);
                }
            },
            _ => {},
        },
    }
}

/// Merges the fields met walking from each of `children` into `out`.
fn collect_fields_list(grammar: &Grammar, children: &Vec<GrammarNode>, in_progress: &mut NameSet, out: &mut Vec<(String, FieldTargetKinds)>)
    requires
        valid_path(*grammar, old(in_progress)@),
    ensures
        final(in_progress)@ == old(in_progress)@,
        fields_view(final(out)@) == merge_fields(fields_view(old(out)@), field_events_list(*grammar, children@, old(in_progress)@)),
    decreases entries(*grammar).len() - old(in_progress)@.len(), children,
{
    let ghost s = in_progress@;
    let mut i: usize = 0;
    assert(children@.skip(0) =~= children@);
    while i < children.len()
        invariant
            0 <= i <= children.len(),
            in_progress@ == s,
            s == old(in_progress)@,
            valid_path(*grammar, s),
            merge_fields(fields_view(old(out)@), field_events_list(*grammar, children@, s))
                == merge_fields(fields_view(out@), field_events_list(*grammar, children@.skip(i as int), s)),
        decreases children.len() - i,
    {
        let ghost bn = fields_view(out@);
        proof { assert(decreases_to!(*children => children[i as int])); }
        collect_fields_into(grammar, &children[i], in_progress, out);
        proof {
            let rest = children@.skip(i as int);
            assert(rest[0] == children@[i as int]);
            assert(rest.drop_first() =~= children@.skip(i + 1));
            lemma_merge_fields_concat(bn, field_events(*grammar, rest[0], s), field_events_list(*grammar, rest.drop_first(), s));
        }
        i += 1;
    }
    assert(children@.skip(children@.len() as int) =~= Seq::<GrammarNode>::empty());
}

/// Every field declared directly under a node built from `body`, each with
/// the kinds its value may take; a field name met more than once gets the
/// union of its occurrences. Hidden and inline rules are stepped into;
/// visible rules and aliases to visible names or terminals are separate
/// nodes whose fields are their own.
pub fn collect_fields(grammar: &Grammar, body: &GrammarNode) -> (r: Vec<(String, FieldTargetKinds)>)
    ensures
        fields_view(r@) == merge_fields(seq![], field_events(*grammar, *body, seq![])),
{
    let mut out: Vec<(String, FieldTargetKinds)> = Vec::new();
    let mut in_progress = NameSet::new();
    assert(fields_view(out@) =~= Seq::<FieldEvent>::empty());
    collect_fields_into(grammar, body, &mut in_progress, &mut out);
    out
}

// ── The body behind a kind ───────────────────────────────────────────────

/// The body of the first alias in `n` whose target is the rule name
/// `target` and not hidden.
pub open spec fn alias_body_for(g: Grammar, n: GrammarNode, target: Seq<char>) -> Option<GrammarNode>
    decreases n,
{
    match n {
        GrammarNode::Alias(b, name) => match *name {
            GrammarNode::NonTerminal(x) => if x@ == target && !hidden_name(g, x@) { Some(*b) } else { alias_body_for(g, *b, target) },
            _ => alias_body_for(g, *b, target),
        },
        GrammarNode::Sequence(cs) => alias_body_for_list(g, cs@, target),
        GrammarNode::Choice(cs) => alias_body_for_list(g, cs@, target),
        GrammarNode::Optional(i) => alias_body_for(g, *i, target),
        GrammarNode::ZeroOrMore(i) => alias_body_for(g, *i, target),
        GrammarNode::OneOrMore(i) => alias_body_for(g, *i, target),
        GrammarNode::Token(i) => alias_body_for(g, *i, target),
        GrammarNode::TokenImmediate(i) => alias_body_for(g, *i, target),
        GrammarNode::Field(_, i) => alias_body_for(g, *i, target),
        GrammarNode::Prec(_, _, i) => alias_body_for(g, *i, target),
        GrammarNode::Reserved(_, i) => alias_body_for(g, *i, target),
        _ => None,
    }
}

/// The first match of [`alias_body_for`] among the elements of `cs`.
pub open spec fn alias_body_for_list(g: Grammar, cs: Seq<GrammarNode>, target: Seq<char>) -> Option<GrammarNode>
    decreases cs,
{
    if cs.len() == 0 {
        None
    } else {
        match alias_body_for(g, cs[0], target) {
            Some(b) => Some(b),
            None => alias_body_for_list(g, cs.drop_first(), target),
        }
    }
}

/// Every alias with a visible rule-name target found by [`alias_body_for`]
/// is among the alias targets collected from the same node.
proof fn lemma_alias_body_collected(g: Grammar, n: GrammarNode, x: Seq<char>)
    ensures
        alias_body_for(g, n, x) is Some ==> alias_targets(g, n).contains(x),
    decreases n,
{
    match n {
        GrammarNode::Alias(b, name) => {
            lemma_alias_body_collected(g, *b, x);
            let own = alias_target_of(g, *name);
            let inner = alias_targets(g, *b);
            if inner.contains(x) {
                let k = choose|k: int| 0 <= k < inner.len() && inner[k] == x;
                assert((own + inner)[own.len() + k] == x);
            }
            match *name {
                GrammarNode::NonTerminal(y) => {
                    if y@ == x && !hidden_name(g, y@) {
                        assert((own + inner)[0] == x);
                    }
                },
                _ => {},
            }
        },
        GrammarNode::Sequence(cs) => lemma_alias_body_collected_list(g, cs@, x),
        GrammarNode::Choice(cs) => lemma_alias_body_collected_list(g, cs@, x),
        GrammarNode::Optional(i) => lemma_alias_body_collected(g, *i, x),
        GrammarNode::ZeroOrMore(i) => lemma_alias_body_collected(g, *i, x),
        GrammarNode::OneOrMore(i) => lemma_alias_body_collected(g, *i, x),
        GrammarNode::Token(i) => lemma_alias_body_collected(g, *i, x),
        GrammarNode::TokenImmediate(i) => lemma_alias_body_collected(g, *i, x),
        GrammarNode::Field(_, i) => lemma_alias_body_collected(g, *i, x),
        GrammarNode::Prec(_, _, i) => lemma_alias_body_collected(g, *i, x),
        GrammarNode::Reserved(_, i) => lemma_alias_body_collected(g, *i, x),
        _ => {},
    }
}

proof fn lemma_alias_body_collected_list(g: Grammar, cs: Seq<GrammarNode>, x: Seq<char>)
    ensures
        alias_body_for_list(g, cs, x) is Some ==> alias_targets_list(g, cs).contains(x),
    decreases cs,
{
    if cs.len() > 0 {
        lemma_alias_body_collected(g, cs[0], x);
        lemma_alias_body_collected_list(g, cs.drop_first(), x);
        let a = alias_targets(g, cs[0]);
        let b = alias_targets_list(g, cs.drop_first());
        if a.contains(x) {
            let k = choose|k: int| 0 <= k < a.len() && a[k] == x;
            assert((a + b)[k] == x);
        }
        if b.contains(x) {
            let k = choose|k: int| 0 <= k < b.len() && b[k] == x;
            assert((a + b)[a.len() + k] == x);
        }
    }
}

/// The alias targets of each rule body are among those of all the rules.
proof fn lemma_rule_alias_targets(g: Grammar, es: Seq<(String, Production)>, k: int, x: Seq<char>)
    requires
        0 <= k < es.len(),
        alias_targets(g, es[k].1.body).contains(x),
    ensures
        rules_alias_targets(g, es).contains(x),
    decreases es.len(),
{
    let a = rules_alias_targets(g, es.drop_last());
    let b = alias_targets(g, es.last().1.body);
    if k < es.len() - 1 {
        assert(es.drop_last()[k] == es[k]);
        lemma_rule_alias_targets(g, es.drop_last(), k, x);
        let j = choose|j: int| 0 <= j < a.len() && a[j] == x;
        assert((a + b)[j] == x);
    } else {
        let j = choose|j: int| 0 <= j < b.len() && b[j] == x;
        assert((a + b)[a.len() + j] == x);
    }
}

/// Every alias, at any depth of any rule body, whose target is a rule name
/// that is not hidden gives a visible kind: the kind's parse-tree nodes
/// need a visitor method and a syntax-tree type of their own.
pub proof fn lemma_alias_target_visible(g: Grammar, k: int, x: Seq<char>)
    requires
        0 <= k < entries(g).len(),
        alias_body_for(g, entries(g)[k].1.body, x) is Some,
    ensures
        visible_kind_list(g).contains(x),
{
    let es = entries(g);
    lemma_alias_body_collected(g, es[k].1.body, x);
    lemma_rule_alias_targets(g, es, k, x);
    let v = visible_rule_names(g, es);
    let t = rules_alias_targets(g, es);
    let j = choose|j: int| 0 <= j < t.len() && t[j] == x;
    assert((v + t)[v.len() + j] == x);
    lemma_add_all_contains(seq![], v + t, x);
}

/// Every collected alias target is found by [`alias_body_for`].
proof fn lemma_collected_alias_body(g: Grammar, n: GrammarNode, x: Seq<char>)
    ensures
        alias_targets(g, n).contains(x) ==> alias_body_for(g, n, x) is Some,
    decreases n,
{
    match n {
        GrammarNode::Alias(b, name) => {
            lemma_collected_alias_body(g, *b, x);
            let own = alias_target_of(g, *name);
            let inner = alias_targets(g, *b);
            if (own + inner).contains(x) {
                let k = choose|k: int| 0 <= k < (own + inner).len() && (own + inner)[k] == x;
                if k >= own.len() {
                    assert(inner[k - own.len()] == x);
                }
            }
        },
        GrammarNode::Sequence(cs) => lemma_collected_alias_body_list(g, cs@, x),
        GrammarNode::Choice(cs) => lemma_collected_alias_body_list(g, cs@, x),
        GrammarNode::Optional(i) => lemma_collected_alias_body(g, *i, x),
        GrammarNode::ZeroOrMore(i) => lemma_collected_alias_body(g, *i, x),
        GrammarNode::OneOrMore(i) => lemma_collected_alias_body(g, *i, x),
        GrammarNode::Token(i) => lemma_collected_alias_body(g, *i, x),
        GrammarNode::TokenImmediate(i) => lemma_collected_alias_body(g, *i, x),
        GrammarNode::Field(_, i) => lemma_collected_alias_body(g, *i, x),
        GrammarNode::Prec(_, _, i) => lemma_collected_alias_body(g, *i, x),
        GrammarNode::Reserved(_, i) => lemma_collected_alias_body(g, *i, x),
        _ => {},
    }
}

proof fn lemma_collected_alias_body_list(g: Grammar, cs: Seq<GrammarNode>, x: Seq<char>)
    ensures
        alias_targets_list(g, cs).contains(x) ==> alias_body_for_list(g, cs, x) is Some,
    decreases cs,
{
    if cs.len() > 0 {
        lemma_collected_alias_body(g, cs[0], x);
        lemma_collected_alias_body_list(g, cs.drop_first(), x);
        let a = alias_targets(g, cs[0]);
        let b = alias_targets_list(g, cs.drop_first());
        if (a + b).contains(x) {
            let k = choose|k: int| 0 <= k < (a + b).len() && (a + b)[k] == x;
            if k < a.len() {
                assert(a[k] == x);
            } else {
                assert(b[k - a.len()] == x);
            }
        }
    }
}

/// An alias target of all the rules is one of some rule's body.
proof fn lemma_rules_alias_target_from(g: Grammar, es: Seq<(String, Production)>, x: Seq<char>)
    requires
        rules_alias_targets(g, es).contains(x),
    ensures
        exists|k: int| 0 <= k < es.len() && alias_targets(g, (#[trigger] es[k]).1.body).contains(x),
    decreases es.len(),
{
    let a = rules_alias_targets(g, es.drop_last());
    let b = alias_targets(g, es.last().1.body);
    let j = choose|j: int| 0 <= j < (a + b).len() && (a + b)[j] == x;
    if j < a.len() {
        assert(a[j] == x);
        lemma_rules_alias_target_from(g, es.drop_last(), x);
        let k = choose|k: int| 0 <= k < es.drop_last().len() && alias_targets(g, (#[trigger] es.drop_last()[k]).1.body).contains(x);
        assert(es.drop_last()[k] == es[k]);
    } else {
        assert(b[j - a.len()] == x);
        assert(alias_targets(g, es[es.len() - 1].1.body).contains(x));
    }
}

/// The names of the rules of `es` that are not transparent are the
/// visible rule names.
proof fn lemma_visible_rule_names(g: Grammar, es: Seq<(String, Production)>, x: Seq<char>)
    ensures
        visible_rule_names(g, es).contains(x) <==> has_key(es, x) && !transparent_name(g, x),
    decreases es.len(),
{
    if es.len() > 0 {
        lemma_visible_rule_names(g, es.drop_last(), x);
        let a = visible_rule_names(g, es.drop_last());
        let b: Seq<Seq<char>> = if transparent_name(g, es.last().0@) { seq![] } else { seq![es.last().0@] };
        if (a + b).contains(x) {
            let k = choose|k: int| 0 <= k < (a + b).len() && (a + b)[k] == x;
            if k < a.len() {
                assert(a[k] == x);
                let j = choose|j: int| 0 <= j < es.drop_last().len() && es.drop_last()[j].0@ == x;
                assert(es[j] == es.drop_last()[j]);
            } else {
                assert(es[es.len() - 1].0@ == x);
            }
        }
        if has_key(es, x) && !transparent_name(g, x) {
            let j = choose|j: int| 0 <= j < es.len() && es[j].0@ == x;
            if j < es.len() - 1 {
                assert(es.drop_last()[j] == es[j]);
                let k = choose|k: int| 0 <= k < a.len() && a[k] == x;
                assert((a + b)[k] == x);
            } else {
                assert((a + b)[a.len() as int] == x);
            }
        }
    }
}

/// The visible kinds, each listed once, are exactly the rules that are
/// neither hidden nor inline and the visible rule-name targets of aliases
/// anywhere in the rule bodies; a hidden name is never one.
pub proof fn lemma_visible_kinds_exactly(g: Grammar, x: Seq<char>)
    ensures
        visible_kind_list(g).no_duplicates(),
        visible_kind_list(g).contains(x) <==> (has_key(entries(g), x) && !transparent_name(g, x))
            || exists|k: int| 0 <= k < entries(g).len() && (#[trigger] alias_body_for(g, entries(g)[k].1.body, x)) is Some,
        visible_kind_list(g).contains(x) ==> !hidden_name(g, x),
{
    let es = entries(g);
    let v = visible_rule_names(g, es);
    let t = rules_alias_targets(g, es);
    lemma_add_all_contains(seq![], v + t, x);
    lemma_add_all_distinct(seq![], v + t);
    lemma_visible_rule_names(g, es, x);
    if (v + t).contains(x) {
        let j = choose|j: int| 0 <= j < (v + t).len() && (v + t)[j] == x;
        if j >= v.len() {
            assert(t[j - v.len()] == x);
            lemma_rules_alias_target_from(g, es, x);
            let k = choose|k: int| 0 <= k < es.len() && alias_targets(g, (#[trigger] es[k]).1.body).contains(x);
            lemma_collected_alias_body(g, es[k].1.body, x);
            lemma_alias_body_hidden(g, es[k].1.body, x);
            assert(alias_body_for(g, entries(g)[k].1.body, x) is Some);
        } else {
            assert(v[j] == x);
            assert(v.contains(x));
        }
    }
    if exists|k: int| 0 <= k < es.len() && (#[trigger] alias_body_for(g, es[k].1.body, x)) is Some {
        let k = choose|k: int| 0 <= k < es.len() && (#[trigger] alias_body_for(g, es[k].1.body, x)) is Some;
        lemma_alias_target_visible(g, k, x);
    }
    if has_key(es, x) && !transparent_name(g, x) {
        assert(v.contains(x));
        let j = choose|j: int| 0 <= j < v.len() && v[j] == x;
        assert((v + t)[j] == x);
    }
}

/// A target found by [`alias_body_for`] is not hidden.
proof fn lemma_alias_body_hidden(g: Grammar, n: GrammarNode, x: Seq<char>)
    ensures
        alias_body_for(g, n, x) is Some ==> !hidden_name(g, x),
    decreases n,
{
    match n {
        GrammarNode::Alias(b, _) => lemma_alias_body_hidden(g, *b, x),
        GrammarNode::Sequence(cs) => lemma_alias_body_hidden_list(g, cs@, x),
        GrammarNode::Choice(cs) => lemma_alias_body_hidden_list(g, cs@, x),
        GrammarNode::Optional(i) => lemma_alias_body_hidden(g, *i, x),
        GrammarNode::ZeroOrMore(i) => lemma_alias_body_hidden(g, *i, x),
        GrammarNode::OneOrMore(i) => lemma_alias_body_hidden(g, *i, x),
        GrammarNode::Token(i) => lemma_alias_body_hidden(g, *i, x),
        GrammarNode::TokenImmediate(i) => lemma_alias_body_hidden(g, *i, x),
        GrammarNode::Field(_, i) => lemma_alias_body_hidden(g, *i, x),
        GrammarNode::Prec(_, _, i) => lemma_alias_body_hidden(g, *i, x),
        GrammarNode::Reserved(_, i) => lemma_alias_body_hidden(g, *i, x),
        _ => {},
    }
}

proof fn lemma_alias_body_hidden_list(g: Grammar, cs: Seq<GrammarNode>, x: Seq<char>)
    ensures
        alias_body_for_list(g, cs, x) is Some ==> !hidden_name(g, x),
    decreases cs,
{
    if cs.len() > 0 {
        lemma_alias_body_hidden(g, cs[0], x);
        lemma_alias_body_hidden_list(g, cs.drop_first(), x);
    }
}

/// The first match of [`alias_body_for`] among the bodies of `es`.
pub open spec fn rules_alias_body_for(g: Grammar, es: Seq<(String, Production)>, target: Seq<char>) -> Option<GrammarNode>
    decreases es.len(),
{
    if es.len() == 0 {
        None
    } else {
        match alias_body_for(g, es[0].1.body, target) {
            Some(b) => Some(b),
            None => rules_alias_body_for(g, es.drop_first(), target),
        }
    }
}

/// The node that determines the shape of kind `kind`: the body of the rule
/// of that name, or else the body of the first alias to it.
pub open spec fn kind_body(g: Grammar, kind: Seq<char>) -> Option<GrammarNode> {
    match rule_named(g, kind) {
        Some(p) => Some(p.body),
        None => rules_alias_body_for(g, entries(g), kind),
    }
}

/// The body of the first alias in `node` to the visible name `target`.
fn find_alias_body_for_target<'g>(grammar: &Grammar, node: &'g GrammarNode, target: &str) -> (r: Option<&'g GrammarNode>)
    ensures
        r matches Some(b) ==> alias_body_for(*grammar, *node, target@) == Some(*b),
        r is None ==> alias_body_for(*grammar, *node, target@) is None,
    decreases node,
{
    match node {
        GrammarNode::Alias(body, name) => {
            match &**name {
                GrammarNode::NonTerminal(n) => {
                    if str_eq(n.as_str(), target) && !grammar.is_hidden_rule(n.as_str()) {
                        return Some(&**body);
                    }
                },
                _ => {},
            }
            find_alias_body_for_target(grammar, body, target)
        },
        GrammarNode::Sequence(children) => find_alias_body_in_list(grammar, children, target),
        GrammarNode::Choice(children) => find_alias_body_in_list(grammar, children, target),
        GrammarNode::Optional(inner) => find_alias_body_for_target(grammar, inner, target),
        GrammarNode::ZeroOrMore(inner) => find_alias_body_for_target(grammar, inner, target),
        GrammarNode::OneOrMore(inner) => find_alias_body_for_target(grammar, inner, target),
        GrammarNode::Token(inner) => find_alias_body_for_target(grammar, inner, target),
        GrammarNode::TokenImmediate(inner) => find_alias_body_for_target(grammar, inner, target),
        GrammarNode::Field(_, inner) => find_alias_body_for_target(grammar, inner, target),
        GrammarNode::Prec(_, _, inner) => find_alias_body_for_target(grammar, inner, target),
        GrammarNode::Reserved(_, inner) => find_alias_body_for_target(grammar, inner, target),
        _ => None,
    }
}

/// The first match of [`find_alias_body_for_target`] among `children`.
fn find_alias_body_in_list<'g>(grammar: &Grammar, children: &'g Vec<GrammarNode>, target: &str) -> (r: Option<&'g GrammarNode>)
    ensures
        r matches Some(b) ==> alias_body_for_list(*grammar, children@, target@) == Some(*b),
        r is None ==> alias_body_for_list(*grammar, children@, target@) is None,
    decreases children,
{
    let mut i: usize = 0;
    assert(children@.skip(0) =~= children@);
    while i < children.len()
        invariant
            0 <= i <= children.len(),
            alias_body_for_list(*grammar, children@, target@) == alias_body_for_list(*grammar, children@.skip(i as int), target@),
        decreases children.len() - i,
    {
        proof {
            assert(decreases_to!(*children => children[i as int]));
            let rest = children@.skip(i as int);
            assert(rest[0] == children@[i as int]);
            assert(rest.drop_first() =~= children@.skip(i + 1));
        }
        match find_alias_body_for_target(grammar, &children[i], target) {
            Some(b) => return Some(b),
            None => {},
        }
        i += 1;
    }
    None
}

/// The node that determines the visitor shape of kind `kind`: the body of
/// the rule named `kind`, or, for a kind that exists only as an alias
/// target, the body of the first alias to it in declaration order.
pub fn body_for_kind<'g>(grammar: &'g Grammar, kind: &str) -> (r: Option<&'g GrammarNode>)
    ensures
        r matches Some(b) ==> kind_body(*grammar, kind@) == Some(*b),
        r is None ==> kind_body(*grammar, kind@) is None,
{
    match grammar.get_rule(kind) {
        Some(p) => return Some(&p.body),
        None => {},
    }
    let ghost es = entries(*grammar);
    let n = rules_len(&grammar.productions);
    let mut i: usize = 0;
    assert(es.skip(0) =~= es);
    while i < n
        invariant
            0 <= i <= n,
            n == es.len(),
            es == entries(*grammar),
            rule_named(*grammar, kind@) is None,
            rules_alias_body_for(*grammar, es, kind@) == rules_alias_body_for(*grammar, es.skip(i as int), kind@),
        decreases n - i,
    {
        let (_, p) = rules_get_index(&grammar.productions, i);
        proof {
            let rest = es.skip(i as int);
            assert(rest[0] == es[i as int]);
            assert(rest.drop_first() =~= es.skip(i + 1));
        }
        match find_alias_body_for_target(grammar, &p.body, kind) {
            Some(b) => return Some(b),
            None => {},
        }
        i += 1;
    }
    None
}

} // verus!
