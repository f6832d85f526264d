//! Safe mechanical renaming of a rule throughout a [`Grammar`]: its
//! definition, every reference in rule bodies, and every directive that
//! names rules.

use vstd::prelude::*;
use vstd::string::*;
use crate::directive::{ConflictGroup, DirectiveItem, NameOrLiteral, PrecedenceGroup, ReservedEntry};
use crate::nodes::{GrammarNode, PrecLevel};
use crate::production::Production;
use crate::rules::{entry_keys, has_key, keys_distinct, rule_entries, rules_insert, rules_into_entries, rules_new};
use crate::text::{owned, str_eq};
use crate::types::{entries, key_pos, lemma_key_pos, map_insert, Grammar};
use crate::nameset::lemma_filter_all;

verus! {

/// `x` with `from` replaced by `to`.
pub open spec fn rename_name(x: Seq<char>, from: Seq<char>, to: Seq<char>) -> Seq<char> {
    if x == from {
        to
    } else {
        x
    }
}

/// Two precedence levels are the same, strings compared by their characters.
pub open spec fn level_same(a: Option<PrecLevel>, b: Option<PrecLevel>) -> bool {
    match (a, b) {
        (None, None) => true,
        (Some(PrecLevel::Integer(i)), Some(PrecLevel::Integer(j))) => i == j,
        (Some(PrecLevel::Name(x)), Some(PrecLevel::Name(y))) => x@ == y@,
        _ => false,
    }
}

/// `b` is `a` with every non-terminal `from` (alias names included) made
/// `to`, and everything else the same.
pub open spec fn renamed_node(a: GrammarNode, b: GrammarNode, from: Seq<char>, to: Seq<char>) -> bool
    decreases a,
{
    match a {
        GrammarNode::NonTerminal(x) => b matches GrammarNode::NonTerminal(y) && y@ == rename_name(x@, from, to),
        GrammarNode::TerminalLiteral(x) => b matches GrammarNode::TerminalLiteral(y) && y@ == x@,
        GrammarNode::TerminalPattern(x) => b matches GrammarNode::TerminalPattern(y) && y@ == x@,
        GrammarNode::Sequence(xs) => b matches GrammarNode::Sequence(ys) && renamed_list(xs@, ys@, from, to),
        GrammarNode::Choice(xs) => b matches GrammarNode::Choice(ys) && renamed_list(xs@, ys@, from, to),
        GrammarNode::Optional(x) => b matches GrammarNode::Optional(y) && renamed_node(*x, *y, from, to),
        GrammarNode::ZeroOrMore(x) => b matches GrammarNode::ZeroOrMore(y) && renamed_node(*x, *y, from, to),
        GrammarNode::OneOrMore(x) => b matches GrammarNode::OneOrMore(y) && renamed_node(*x, *y, from, to),
        GrammarNode::Token(x) => b matches GrammarNode::Token(y) && renamed_node(*x, *y, from, to),
        GrammarNode::TokenImmediate(x) => b matches GrammarNode::TokenImmediate(y) && renamed_node(*x, *y, from, to),
        GrammarNode::Field(f, x) => b matches GrammarNode::Field(g, y) && g@ == f@ && renamed_node(*x, *y, from, to),
        GrammarNode::Alias(x, n) => b matches GrammarNode::Alias(y, m) && renamed_node(*x, *y, from, to) && renamed_node(*n, *m, from, to),
        GrammarNode::Prec(k, l, x) => b matches GrammarNode::Prec(k2, l2, y) && k2 == k && level_same(l, l2) && renamed_node(*x, *y, from, to),
        GrammarNode::Reserved(s, x) => b matches GrammarNode::Reserved(t, y) && t@ == s@ && renamed_node(*x, *y, from, to),
    }
}

/// Element-wise [`renamed_node`].
pub open spec fn renamed_list(xs: Seq<GrammarNode>, ys: Seq<GrammarNode>, from: Seq<char>, to: Seq<char>) -> bool
    decreases xs,
{
    if xs.len() == 0 {
        ys.len() == 0
    } else {
        ys.len() > 0 && renamed_node(xs[0], ys[0], from, to) && renamed_list(xs.drop_first(), ys.drop_first(), from, to)
    }
}

/// Whether `n` mentions the non-terminal `x` anywhere, alias names included.
pub open spec fn mentions(n: GrammarNode, x: Seq<char>) -> bool
    decreases n,
{
    match n {
        GrammarNode::NonTerminal(y) => y@ == x,
        GrammarNode::TerminalLiteral(_) => false,
        GrammarNode::TerminalPattern(_) => false,
        GrammarNode::Sequence(cs) => mentions_list(cs@, x),
        GrammarNode::Choice(cs) => mentions_list(cs@, x),
        GrammarNode::Optional(i) => mentions(*i, x),
        GrammarNode::ZeroOrMore(i) => mentions(*i, x),
        GrammarNode::OneOrMore(i) => mentions(*i, x),
        GrammarNode::Token(i) => mentions(*i, x),
        GrammarNode::TokenImmediate(i) => mentions(*i, x),
        GrammarNode::Field(_, i) => mentions(*i, x),
        GrammarNode::Alias(b, m) => mentions(*b, x) || mentions(*m, x),
        GrammarNode::Prec(_, _, i) => mentions(*i, x),
        GrammarNode::Reserved(_, i) => mentions(*i, x),
    }
}

/// Whether some element of `cs` mentions `x`.
pub open spec fn mentions_list(cs: Seq<GrammarNode>, x: Seq<char>) -> bool
    decreases cs,
{
    if cs.len() == 0 {
        false
    } else {
        mentions(cs[0], x) || mentions_list(cs.drop_first(), x)
    }
}

/// Renaming `from` to `to` and then `to` back to `from` restores a node
/// that did not mention `to`.
pub proof fn lemma_rename_node_back(a: GrammarNode, b: GrammarNode, c: GrammarNode, from: Seq<char>, to: Seq<char>)
    requires
        renamed_node(a, b, from, to),
        renamed_node(b, c, to, from),
        !mentions(a, to),
    ensures
        renamed_node(a, c, from, from),
    decreases a,
{
    match a {
        GrammarNode::Sequence(xs) => {
            let ys = b->Sequence_0;
            let zs = c->Sequence_0;
            lemma_rename_list_back(xs@, ys@, zs@, from, to);
        },
        GrammarNode::Choice(xs) => {
            let ys = b->Choice_0;
            let zs = c->Choice_0;
            lemma_rename_list_back(xs@, ys@, zs@, from, to);
        },
        GrammarNode::Optional(x) => lemma_rename_node_back(*x, *b->Optional_0, *c->Optional_0, from, to),
        GrammarNode::ZeroOrMore(x) => lemma_rename_node_back(*x, *b->ZeroOrMore_0, *c->ZeroOrMore_0, from, to),
        GrammarNode::OneOrMore(x) => lemma_rename_node_back(*x, *b->OneOrMore_0, *c->OneOrMore_0, from, to),
        GrammarNode::Token(x) => lemma_rename_node_back(*x, *b->Token_0, *c->Token_0, from, to),
        GrammarNode::TokenImmediate(x) => lemma_rename_node_back(*x, *b->TokenImmediate_0, *c->TokenImmediate_0, from, to),
        GrammarNode::Field(_, x) => lemma_rename_node_back(*x, *b->Field_1, *c->Field_1, from, to),
        GrammarNode::Alias(x, n) => {
            lemma_rename_node_back(*x, *b->Alias_0, *c->Alias_0, from, to);
            lemma_rename_node_back(*n, *b->Alias_1, *c->Alias_1, from, to);
        },
        GrammarNode::Prec(_, _, x) => lemma_rename_node_back(*x, *b->Prec_2, *c->Prec_2, from, to),
        GrammarNode::Reserved(_, x) => lemma_rename_node_back(*x, *b->Reserved_1, *c->Reserved_1, from, to),
        _ => {},
    }
}

/// List form of [`lemma_rename_node_back`].
pub proof fn lemma_rename_list_back(xs: Seq<GrammarNode>, ys: Seq<GrammarNode>, zs: Seq<GrammarNode>, from: Seq<char>, to: Seq<char>)
    requires
        renamed_list(xs, ys, from, to),
        renamed_list(ys, zs, to, from),
        !mentions_list(xs, to),
    ensures
        renamed_list(xs, zs, from, from),
    decreases xs,
{
    if xs.len() > 0 {
        lemma_rename_node_back(xs[0], ys[0], zs[0], from, to);
        lemma_rename_list_back(xs.drop_first(), ys.drop_first(), zs.drop_first(), from, to);
    }
}

/// A fresh copy of `node` with every non-terminal `from` (alias names
/// included) renamed to `to`.
fn renamed_copy(node: &GrammarNode, from: &str, to: &str) -> (r: GrammarNode)
    ensures
        renamed_node(*node, r, from@, to@),
    decreases node,
{
    match node {
        GrammarNode::NonTerminal(name) => GrammarNode::NonTerminal(if str_eq(name.as_str(), from) {
            owned(to)
        } else {
            owned(name.as_str())
        }),
        GrammarNode::TerminalLiteral(s) => GrammarNode::TerminalLiteral(owned(s.as_str())),
        GrammarNode::TerminalPattern(s) => GrammarNode::TerminalPattern(owned(s.as_str())),
        GrammarNode::Sequence(items) => GrammarNode::Sequence(renamed_items_copy(items, from, to)),
        GrammarNode::Choice(items) => GrammarNode::Choice(renamed_items_copy(items, from, to)),
        GrammarNode::Optional(inner) => GrammarNode::Optional(Box::new(renamed_copy(inner, from, to))),
        GrammarNode::ZeroOrMore(inner) => GrammarNode::ZeroOrMore(Box::new(renamed_copy(inner, from, to))),
        GrammarNode::OneOrMore(inner) => GrammarNode::OneOrMore(Box::new(renamed_copy(inner, from, to))),
        GrammarNode::Token(inner) => GrammarNode::Token(Box::new(renamed_copy(inner, from, to))),
        GrammarNode::TokenImmediate(inner) => GrammarNode::TokenImmediate(Box::new(renamed_copy(inner, from, to))),
        GrammarNode::Field(f, inner) => GrammarNode::Field(owned(f.as_str()), Box::new(renamed_copy(inner, from, to))),
        GrammarNode::Alias(body, name) => GrammarNode::Alias(
            Box::new(renamed_copy(body, from, to)),
            Box::new(renamed_copy(name, from, to)),
        ),
        GrammarNode::Prec(kind, level, inner) => {
            let l = match level {
                Some(PrecLevel::Integer(i)) => Some(PrecLevel::Integer(*i)),
                Some(PrecLevel::Name(s)) => Some(PrecLevel::Name(owned(s.as_str()))),
                None => None,
            };
            GrammarNode::Prec(*kind, l, Box::new(renamed_copy(inner, from, to)))
        },
        GrammarNode::Reserved(s, inner) => GrammarNode::Reserved(owned(s.as_str()), Box::new(renamed_copy(inner, from, to))),
    }
}

/// [`renamed_copy`] of each of `items`.
fn renamed_items_copy(items: &Vec<GrammarNode>, from: &str, to: &str) -> (r: Vec<GrammarNode>)
    ensures
        renamed_list(items@, r@, from@, to@),
    decreases items,
{
    let mut out: Vec<GrammarNode> = Vec::new();
    let mut i: usize = 0;
    while i < items.len()
        invariant
            0 <= i <= items.len(),
            out@.len() == i,
            forall|j: int| 0 <= j < i ==> renamed_node(items@[j], #[trigger] out@[j], from@, to@),
        decreases items.len() - i,
    {
        proof {
            assert(decreases_to!(*items => items[i as int]));
        }
        out.push(renamed_copy(&items[i], from, to));
        i += 1;
    }
    proof {
        lemma_renamed_list_from_pointwise(items@, out@, from@, to@);
    }
    out
}

/// Pointwise renaming of equal-length lists is [`renamed_list`].
proof fn lemma_renamed_list_from_pointwise(xs: Seq<GrammarNode>, ys: Seq<GrammarNode>, from: Seq<char>, to: Seq<char>)
    requires
        xs.len() == ys.len(),
        forall|j: int| 0 <= j < xs.len() ==> renamed_node(xs[j], #[trigger] ys[j], from, to),
    ensures
        renamed_list(xs, ys, from, to),
    decreases xs.len(),
{
    if xs.len() > 0 {
        assert forall|j: int| 0 <= j < xs.drop_first().len() implies renamed_node(xs.drop_first()[j], #[trigger] ys.drop_first()[j], from, to) by {
            assert(renamed_node(xs[j + 1], ys[j + 1], from, to));
        }
        lemma_renamed_list_from_pointwise(xs.drop_first(), ys.drop_first(), from, to);
        assert(renamed_node(xs[0], ys[0], from, to));
    }
}

/// Renames every `NonTerminal(from)` in `node` (alias names included) to
/// `NonTerminal(to)`.
pub fn rename_node(node: &mut GrammarNode, from: &str, to: &str)
    ensures
        renamed_node(*old(node), *final(node), from@, to@),
{
    let r = renamed_copy(node, from, to);
    *node = r;
}

// ── Renaming throughout a grammar ────────────────────────────────────────

/// `b` is directive item `a` with its name renamed.
pub open spec fn renamed_item(a: DirectiveItem, b: DirectiveItem, from: Seq<char>, to: Seq<char>) -> bool {
    &&& b.name@ == rename_name(a.name@, from, to)
    &&& b.line == a.line
    &&& b.filename@ == a.filename@
}

/// [`renamed_item`] of an optional directive.
pub open spec fn renamed_opt_item(a: Option<DirectiveItem>, b: Option<DirectiveItem>, from: Seq<char>, to: Seq<char>) -> bool {
    match (a, b) {
        (None, None) => true,
        (Some(x), Some(y)) => renamed_item(x, y, from, to),
        _ => false,
    }
}

/// Element-wise [`renamed_item`].
pub open spec fn renamed_items(a: Seq<DirectiveItem>, b: Seq<DirectiveItem>, from: Seq<char>, to: Seq<char>) -> bool {
    &&& a.len() == b.len()
    &&& forall|i: int| 0 <= i < a.len() ==> renamed_item(a[i], #[trigger] b[i], from, to)
}

/// Element-wise renaming of plain names.
pub open spec fn renamed_names(a: Seq<String>, b: Seq<String>, from: Seq<char>, to: Seq<char>) -> bool {
    &&& a.len() == b.len()
    &&& forall|i: int| 0 <= i < a.len() ==> (#[trigger] b[i])@ == rename_name(a[i]@, from, to)
}

/// A rule name is renamed; a literal stays.
pub open spec fn renamed_nl(a: NameOrLiteral, b: NameOrLiteral, from: Seq<char>, to: Seq<char>) -> bool {
    match (a, b) {
        (NameOrLiteral::Name(x), NameOrLiteral::Name(y)) => y@ == rename_name(x@, from, to),
        (NameOrLiteral::Literal(x), NameOrLiteral::Literal(y)) => y@ == x@,
        _ => false,
    }
}

/// Element-wise [`renamed_nl`].
pub open spec fn renamed_nls(a: Seq<NameOrLiteral>, b: Seq<NameOrLiteral>, from: Seq<char>, to: Seq<char>) -> bool {
    &&& a.len() == b.len()
    &&& forall|i: int| 0 <= i < a.len() ==> renamed_nl(a[i], #[trigger] b[i], from, to)
}

/// A `%conflicts` group with its rule names renamed.
pub open spec fn renamed_group(a: ConflictGroup, b: ConflictGroup, from: Seq<char>, to: Seq<char>) -> bool {
    renamed_names(a.rules@, b.rules@, from, to) && b.line == a.line && b.filename@ == a.filename@
}

/// A `%precedences` group with its rule names renamed.
pub open spec fn renamed_prec_group(a: PrecedenceGroup, b: PrecedenceGroup, from: Seq<char>, to: Seq<char>) -> bool {
    renamed_nls(a.items@, b.items@, from, to) && b.line == a.line && b.filename@ == a.filename@
}

/// A `%reserved` set with its rule names renamed and its own name kept.
pub open spec fn renamed_reserved(a: ReservedEntry, b: ReservedEntry, from: Seq<char>, to: Seq<char>) -> bool {
    &&& b.set_name@ == a.set_name@
    &&& renamed_nls(a.rule_names@, b.rule_names@, from, to)
    &&& b.line == a.line
    &&& b.filename@ == a.filename@
}

/// A rule-table entry renamed: the key, the production's name when the key
/// is the renamed one, and the body.
pub open spec fn renamed_entry(a: (String, Production), b: (String, Production), from: Seq<char>, to: Seq<char>) -> bool {
    &&& b.0@ == rename_name(a.0@, from, to)
    &&& b.1.name@ == (if a.0@ == from { to } else { a.1.name@ })
    &&& renamed_node(a.1.body, b.1.body, from, to)
    &&& b.1.line == a.1.line
    &&& b.1.filename@ == a.1.filename@
}

/// `h` is `g` with the rule `from` renamed to `to` everywhere a rule name
/// can stand: rule keys, bodies, `%axiom`, `%word`, `%inline`,
/// `%supertypes`, `%extras`, `%conflicts`, `%precedences` and `%reserved`
/// rule names, and the set of referenced names.  `%externals`, parse
/// diagnostics, reserved-set names and `%prec` name references stay.
pub open spec fn renamed_grammar(g: Grammar, h: Grammar, from: Seq<char>, to: Seq<char>) -> bool {
    &&& entries(h).len() == entries(g).len()
    &&& forall|i: int| 0 <= i < entries(g).len() ==> renamed_entry(entries(g)[i], #[trigger] entries(h)[i], from, to)
    &&& renamed_opt_item(g.axiom_of(), h.axiom_of(), from, to)
    &&& renamed_opt_item(g.word, h.word, from, to)
    &&& renamed_items(g.inline@, h.inline@, from, to)
    &&& renamed_items(g.supertypes@, h.supertypes@, from, to)
    &&& renamed_items(g.extras@, h.extras@, from, to)
    &&& g.conflicts@.len() == h.conflicts@.len()
    &&& forall|i: int| 0 <= i < g.conflicts@.len() ==> renamed_group(g.conflicts@[i], #[trigger] h.conflicts@[i], from, to)
    &&& g.precedences@.len() == h.precedences@.len()
    &&& forall|i: int| 0 <= i < g.precedences@.len() ==> renamed_prec_group(g.precedences@[i], #[trigger] h.precedences@[i], from, to)
    &&& g.reserved_sets@.len() == h.reserved_sets@.len()
    &&& forall|i: int| 0 <= i < g.reserved_sets@.len() ==> renamed_reserved(g.reserved_sets@[i], #[trigger] h.reserved_sets@[i], from, to)
    &&& h.rhs_nonterminals@.to_set() == (if g.rhs_nonterminals@.contains(from) {
        g.rhs_nonterminals@.to_set().remove(from).insert(to)
    } else {
        g.rhs_nonterminals@.to_set()
    })
    &&& h.externals == g.externals
    &&& h.parse_diagnostics == g.parse_diagnostics
    &&& h.reserved_set_refs == g.reserved_set_refs
    &&& h.prec_name_refs == g.prec_name_refs
}

/// A copy of `item` with its name renamed.
fn renamed_item_copy(item: &DirectiveItem, from: &str, to: &str) -> (r: DirectiveItem)
    ensures
        renamed_item(*item, r, from@, to@),
{
    DirectiveItem {
        name: if str_eq(item.name.as_str(), from) { owned(to) } else { owned(item.name.as_str()) },
        line: item.line,
        filename: owned(item.filename.as_str()),
    }
}

/// Copies of `items` with their names renamed.
fn renamed_item_list(items: &Vec<DirectiveItem>, from: &str, to: &str) -> (r: Vec<DirectiveItem>)
    ensures
        renamed_items(items@, r@, from@, to@),
{
    let mut out: Vec<DirectiveItem> = Vec::new();
    let mut i: usize = 0;
    while i < items.len()
        invariant
            0 <= i <= items.len(),
            out@.len() == i,
            forall|j: int| 0 <= j < i ==> renamed_item(items@[j], #[trigger] out@[j], from@, to@),
        decreases items.len() - i,
    {
        out.push(renamed_item_copy(&items[i], from, to));
        i += 1;
    }
    out
}

/// Copies of `names` with `from` renamed.
fn renamed_name_list(names: &Vec<String>, from: &str, to: &str) -> (r: Vec<String>)
    ensures
        renamed_names(names@, r@, from@, to@),
{
    let mut out: Vec<String> = Vec::new();
    let mut i: usize = 0;
    while i < names.len()
        invariant
            0 <= i <= names.len(),
            out@.len() == i,
            forall|j: int| 0 <= j < i ==> (#[trigger] out@[j])@ == rename_name(names@[j]@, from@, to@),
        decreases names.len() - i,
    {
        out.push(if str_eq(names[i].as_str(), from) { owned(to) } else { owned(names[i].as_str()) });
        i += 1;
    }
    out
}

/// Copies of `items` with rule names renamed and literals kept.
fn renamed_nl_list(items: &Vec<NameOrLiteral>, from: &str, to: &str) -> (r: Vec<NameOrLiteral>)
    ensures
        renamed_nls(items@, r@, from@, to@),
{
    let mut out: Vec<NameOrLiteral> = Vec::new();
    let mut i: usize = 0;
    while i < items.len()
        invariant
            0 <= i <= items.len(),
            out@.len() == i,
            forall|j: int| 0 <= j < i ==> renamed_nl(items@[j], #[trigger] out@[j], from@, to@),
        decreases items.len() - i,
    {
        let item = match &items[i] {
            NameOrLiteral::Name(n) => NameOrLiteral::Name(if str_eq(n.as_str(), from) { owned(to) } else { owned(n.as_str()) }),
            NameOrLiteral::Literal(l) => NameOrLiteral::Literal(owned(l.as_str())),
        };
        out.push(item);
        i += 1;
    }
    out
}

/// Rebuilds the rule table with the rule `from` renamed to `to` (key and
/// production name) and every body renamed, keeping declaration order.
fn rename_productions(grammar: &mut Grammar, from: &str, to: &str)
    requires
        !has_key(entries(*old(grammar)), to@),
    ensures
        entries(*final(grammar)).len() == entries(*old(grammar)).len(),
        forall|i: int| 0 <= i < entries(*old(grammar)).len() ==> renamed_entry(entries(*old(grammar))[i], #[trigger] entries(*final(grammar))[i], from@, to@),
        final(grammar).axiom_item == old(grammar).axiom_item,
        final(grammar).word == old(grammar).word,
        final(grammar).conflicts == old(grammar).conflicts,
        final(grammar).precedences == old(grammar).precedences,
        final(grammar).inline == old(grammar).inline,
        final(grammar).supertypes == old(grammar).supertypes,
        final(grammar).extras == old(grammar).extras,
        final(grammar).externals == old(grammar).externals,
        final(grammar).rhs_nonterminals == old(grammar).rhs_nonterminals,
        final(grammar).parse_diagnostics == old(grammar).parse_diagnostics,
        final(grammar).reserved_sets == old(grammar).reserved_sets,
        final(grammar).reserved_set_refs == old(grammar).reserved_set_refs,
        final(grammar).prec_name_refs == old(grammar).prec_name_refs,
{
    let ghost es = entries(*grammar);
    let mut taken = rules_new();
    std::mem::swap(&mut grammar.productions, &mut taken);
    let table = rules_into_entries(taken);
    let mut fresh = rules_new();
    let mut i: usize = 0;
    while i < table.len()
        invariant
            0 <= i <= table@.len(),
            table@ == es,
            keys_distinct(es),
            !has_key(es, to@),
            rule_entries(fresh).len() == i,
            forall|j: int| 0 <= j < i ==> renamed_entry(es[j], #[trigger] rule_entries(fresh)[j], from@, to@),
        decreases table@.len() - i,
    {
        let (k, p) = &table[i];
        let is_from = str_eq(k.as_str(), from);
        let key = if is_from { owned(to) } else { owned(k.as_str()) };
        let name = if is_from { owned(to) } else { owned(p.name.as_str()) };
        let prod = Production { name, body: renamed_copy(&p.body, from, to), line: p.line, filename: owned(p.filename.as_str()) };
        let ghost before = rule_entries(fresh);
        proof {
            assert(!has_key(before, key@)) by {
                if has_key(before, key@) {
                    let j = choose|j: int| 0 <= j < before.len() && before[j].0@ == key@;
                    assert(renamed_entry(es[j], before[j], from@, to@));
                    assert(es[j].0@ != es[i as int].0@);
                }
            }
            lemma_key_pos(before, key@);
        }
        let _ = rules_insert(&mut fresh, key, prod);
        proof {
            assert(rule_entries(fresh) == before.push((key, prod)));
            assert forall|j: int| 0 <= j < i + 1 implies renamed_entry(es[j], #[trigger] rule_entries(fresh)[j], from@, to@) by {
                if j < i {
                    assert(rule_entries(fresh)[j] == before[j]);
                }
            }
        }
        i += 1;
    }
    std::mem::swap(&mut grammar.productions, &mut fresh);
}

/// Renames `from` to `to` in every directive that names rules: `%axiom`,
/// `%word`, `%inline`, `%supertypes`, `%extras`, `%conflicts`, and the rule
/// names of `%precedences` and `%reserved`.
fn rename_directives(grammar: &mut Grammar, from: &str, to: &str)
    ensures
        entries(*final(grammar)) == entries(*old(grammar)),
        renamed_opt_item(old(grammar).axiom_of(), final(grammar).axiom_of(), from@, to@),
        renamed_opt_item(old(grammar).word, final(grammar).word, from@, to@),
        renamed_items(old(grammar).inline@, final(grammar).inline@, from@, to@),
        renamed_items(old(grammar).supertypes@, final(grammar).supertypes@, from@, to@),
        renamed_items(old(grammar).extras@, final(grammar).extras@, from@, to@),
        old(grammar).conflicts@.len() == final(grammar).conflicts@.len(),
        forall|i: int| 0 <= i < old(grammar).conflicts@.len() ==> renamed_group(old(grammar).conflicts@[i], #[trigger] final(grammar).conflicts@[i], from@, to@),
        old(grammar).precedences@.len() == final(grammar).precedences@.len(),
        forall|i: int| 0 <= i < old(grammar).precedences@.len() ==> renamed_prec_group(old(grammar).precedences@[i], #[trigger] final(grammar).precedences@[i], from@, to@),
        old(grammar).reserved_sets@.len() == final(grammar).reserved_sets@.len(),
        forall|i: int| 0 <= i < old(grammar).reserved_sets@.len() ==> renamed_reserved(old(grammar).reserved_sets@[i], #[trigger] final(grammar).reserved_sets@[i], from@, to@),
        final(grammar).rhs_nonterminals == old(grammar).rhs_nonterminals,
        final(grammar).externals == old(grammar).externals,
        final(grammar).parse_diagnostics == old(grammar).parse_diagnostics,
        final(grammar).reserved_set_refs == old(grammar).reserved_set_refs,
        final(grammar).prec_name_refs == old(grammar).prec_name_refs,
{
    let axiom_dir = grammar.take_axiom();
    let renamed_axiom = match &axiom_dir {
        Some(item) => Some(renamed_item_copy(item, from, to)),
        None => None,
    };
    grammar.restore_axiom(renamed_axiom);
    let word = match &grammar.word {
        Some(item) => Some(renamed_item_copy(item, from, to)),
        None => None,
    };
    grammar.word = word;
    grammar.inline = renamed_item_list(&grammar.inline, from, to);
    grammar.supertypes = renamed_item_list(&grammar.supertypes, from, to);
    grammar.extras = renamed_item_list(&grammar.extras, from, to);
    let mut conflicts: Vec<ConflictGroup> = Vec::new();
    let mut i: usize = 0;
    while i < grammar.conflicts.len()
        invariant
            0 <= i <= grammar.conflicts@.len(),
            grammar.conflicts == old(grammar).conflicts,
            conflicts@.len() == i,
            forall|j: int| 0 <= j < i ==> renamed_group(grammar.conflicts@[j], #[trigger] conflicts@[j], from@, to@),
        decreases grammar.conflicts@.len() - i,
    {
        let g = &grammar.conflicts[i];
        conflicts.push(ConflictGroup { rules: renamed_name_list(&g.rules, from, to), line: g.line, filename: owned(g.filename.as_str()) });
        i += 1;
    }
    grammar.conflicts = conflicts;
    let mut precedences: Vec<PrecedenceGroup> = Vec::new();
    let mut i: usize = 0;
    while i < grammar.precedences.len()
        invariant
            0 <= i <= grammar.precedences@.len(),
            grammar.precedences == old(grammar).precedences,
            precedences@.len() == i,
            forall|j: int| 0 <= j < i ==> renamed_prec_group(grammar.precedences@[j], #[trigger] precedences@[j], from@, to@),
        decreases grammar.precedences@.len() - i,
    {
        let g = &grammar.precedences[i];
        precedences.push(PrecedenceGroup { items: renamed_nl_list(&g.items, from, to), line: g.line, filename: owned(g.filename.as_str()) });
        i += 1;
    }
    grammar.precedences = precedences;
    let mut reserved: Vec<ReservedEntry> = Vec::new();
    let mut i: usize = 0;
    while i < grammar.reserved_sets.len()
        invariant
            0 <= i <= grammar.reserved_sets@.len(),
            grammar.reserved_sets == old(grammar).reserved_sets,
            reserved@.len() == i,
            forall|j: int| 0 <= j < i ==> renamed_reserved(grammar.reserved_sets@[j], #[trigger] reserved@[j], from@, to@),
        decreases grammar.reserved_sets@.len() - i,
    {
        let e = &grammar.reserved_sets[i];
        reserved.push(ReservedEntry {
            set_name: owned(e.set_name.as_str()),
            rule_names: renamed_nl_list(&e.rule_names, from, to),
            line: e.line,
            filename: owned(e.filename.as_str()),
        });
        i += 1;
    }
    grammar.reserved_sets = reserved;
}

/// Renames rule `old` to `new` throughout `grammar`: its definition (key
/// and name), every reference in rule bodies, every directive that names
/// rules, and the set of referenced names.  Fails, leaving the grammar
/// unchanged, when `old` is not defined or `new` already is.
pub fn rename_grammar(grammar: &mut Grammar, from: &str, to: &str) -> (r: Result<(), String>)
    ensures
        !has_key(entries(*old(grammar)), from@) ==> (r matches Err(e) && e@ == "rule '"@ + from@ + "' is not defined"@),
        has_key(entries(*old(grammar)), from@) && has_key(entries(*old(grammar)), to@) ==> (r matches Err(e) && e@ == "rule '"@ + to@ + "' is already defined"@),
        r is Err ==> *final(grammar) == *old(grammar),
        r is Ok <==> has_key(entries(*old(grammar)), from@) && !has_key(entries(*old(grammar)), to@),
        r is Ok ==> renamed_grammar(*old(grammar), *final(grammar), from@, to@),
        r is Ok ==> has_key(entries(*final(grammar)), to@) && !has_key(entries(*final(grammar)), from@),
        r is Ok ==> entry_keys(entries(*final(grammar))) == entry_keys(entries(*old(grammar))).map_values(|k: Seq<char>| rename_name(k, from@, to@)),
{
    if !grammar.has_rule(from) {
        let mut e = String::from_str("rule '");
        e.append(from);
        e.append("' is not defined");
        return Err(e);
    }
    if grammar.has_rule(to) {
        let mut e = String::from_str("rule '");
        e.append(to);
        e.append("' is already defined");
        return Err(e);
    }
    let ghost g0 = *grammar;
    rename_productions(grammar, from, to);
    rename_directives(grammar, from, to);
    let ghost before = grammar.rhs_nonterminals@;
    if grammar.rhs_nonterminals.remove(from) {
        grammar.rhs_nonterminals.insert(to);
    }
    proof {
        let es0 = entries(g0);
        let es1 = entries(*grammar);
        let pred = |x: Seq<char>| x != from@;
        let f = before.filter(pred);
        assert(f.to_set() =~= before.to_set().remove(from@)) by {
            assert forall|x: Seq<char>| f.to_set().contains(x) <==> before.to_set().remove(from@).contains(x) by {
                broadcast use vstd::seq_lib::group_filter_ensures;
                if f.contains(x) {
                    before.lemma_filter_contains_rev(pred, x);
                    let i = choose|i: int| 0 <= i < f.len() && f[i] == x;
                    assert(pred(f[i]));
                }
                if before.contains(x) && x != from@ {
                    let i = choose|i: int| 0 <= i < before.len() && before[i] == x;
                    assert(pred(before[i]));
                    assert(f.contains(before[i]));
                }
            }
        }
        if before.contains(from@) {
            assert(grammar.rhs_nonterminals@.to_set() =~= before.to_set().remove(from@).insert(to@));
        } else {
            assert forall|i: int| 0 <= i < before.len() implies pred(before[i]) by {
                assert(before.contains(before[i]));
            }
            lemma_filter_all(before, pred);
        }
        let k0 = key_pos(es0, from@);
        lemma_key_pos(es0, from@);
        assert(es1[k0].0@ == to@);
        assert(has_key(es1, to@));
        assert(!has_key(es1, from@)) by {
            if has_key(es1, from@) {
                let j = choose|j: int| 0 <= j < es1.len() && es1[j].0@ == from@;
                assert(renamed_entry(es0[j], es1[j], from@, to@));
            }
        }
        assert(entry_keys(es1) =~= entry_keys(es0).map_values(|k: Seq<char>| rename_name(k, from@, to@))) by {
            assert forall|j: int| 0 <= j < es1.len() implies entry_keys(es1)[j] == entry_keys(es0).map_values(|k: Seq<char>| rename_name(k, from@, to@))[j] by {
                assert(renamed_entry(es0[j], es1[j], from@, to@));
            }
        }
    }
    Ok(())
}

// ── Renaming back ────────────────────────────────────────────────────────

/// Whether some directive item is named `x`.
pub open spec fn items_name(items: Seq<DirectiveItem>, x: Seq<char>) -> bool {
    exists|i: int| 0 <= i < items.len() && (#[trigger] items[i]).name@ == x
}

/// Whether some item is the rule name `x`.
pub open spec fn nls_name(items: Seq<NameOrLiteral>, x: Seq<char>) -> bool {
    exists|i: int| 0 <= i < items.len() && (#[trigger] items[i] matches NameOrLiteral::Name(n) && n@ == x)
}

/// Whether `x` stands anywhere in `g` where a rename would touch it.
pub open spec fn grammar_mentions(g: Grammar, x: Seq<char>) -> bool {
    ||| has_key(entries(g), x)
    ||| exists|i: int| 0 <= i < entries(g).len() && mentions((#[trigger] entries(g)[i]).1.body, x)
    ||| (g.axiom_of() matches Some(a) && a.name@ == x)
    ||| (g.word matches Some(w) && w.name@ == x)
    ||| items_name(g.inline@, x)
    ||| items_name(g.supertypes@, x)
    ||| items_name(g.extras@, x)
    ||| exists|i: int, j: int| 0 <= i < g.conflicts@.len() && 0 <= j < g.conflicts@[i].rules@.len() && (#[trigger] g.conflicts@[i].rules@[j])@ == x
    ||| exists|i: int| 0 <= i < g.precedences@.len() && nls_name((#[trigger] g.precedences@[i]).items@, x)
    ||| exists|i: int| 0 <= i < g.reserved_sets@.len() && nls_name((#[trigger] g.reserved_sets@[i]).rule_names@, x)
    ||| g.rhs_nonterminals@.contains(x)
}

/// Item lists renamed there and back are restored.
proof fn lemma_items_back(a: Seq<DirectiveItem>, b: Seq<DirectiveItem>, c: Seq<DirectiveItem>, from: Seq<char>, to: Seq<char>)
    requires
        renamed_items(a, b, from, to),
        renamed_items(b, c, to, from),
        !items_name(a, to),
    ensures
        renamed_items(a, c, from, from),
{
    assert forall|i: int| 0 <= i < a.len() implies renamed_item(a[i], #[trigger] c[i], from, from) by {
        assert(renamed_item(a[i], b[i], from, to));
        assert(renamed_item(b[i], c[i], to, from));
        assert(a[i].name@ != to);
    }
}

/// Name-or-literal lists renamed there and back are restored.
proof fn lemma_nls_back(a: Seq<NameOrLiteral>, b: Seq<NameOrLiteral>, c: Seq<NameOrLiteral>, from: Seq<char>, to: Seq<char>)
    requires
        renamed_nls(a, b, from, to),
        renamed_nls(b, c, to, from),
        !nls_name(a, to),
    ensures
        renamed_nls(a, c, from, from),
{
    assert forall|i: int| 0 <= i < a.len() implies renamed_nl(a[i], #[trigger] c[i], from, from) by {
        assert(renamed_nl(a[i], b[i], from, to));
        assert(renamed_nl(b[i], c[i], to, from));
        assert(!(a[i] matches NameOrLiteral::Name(n) && n@ == to));
    }
}

/// Renaming a rule to a name the grammar does not mention, and back,
/// restores the grammar: every field equal to the original, strings taken
/// by their characters (a rename of a name to itself changes nothing).
pub proof fn lemma_rename_grammar_back(g: Grammar, h: Grammar, k: Grammar, from: Seq<char>, to: Seq<char>)
    requires
        renamed_grammar(g, h, from, to),
        renamed_grammar(h, k, to, from),
        !grammar_mentions(g, to),
    ensures
        renamed_grammar(g, k, from, from),
{
    let eg = entries(g);
    let eh = entries(h);
    let ek = entries(k);
    assert forall|i: int| 0 <= i < eg.len() implies renamed_entry(eg[i], #[trigger] ek[i], from, from) by {
        assert(renamed_entry(eg[i], eh[i], from, to));
        assert(renamed_entry(eh[i], ek[i], to, from));
        assert(eg[i].0@ != to);
        assert(!mentions(eg[i].1.body, to));
        lemma_rename_node_back(eg[i].1.body, eh[i].1.body, ek[i].1.body, from, to);
    }
    lemma_items_back(g.inline@, h.inline@, k.inline@, from, to);
    lemma_items_back(g.supertypes@, h.supertypes@, k.supertypes@, from, to);
    lemma_items_back(g.extras@, h.extras@, k.extras@, from, to);
    assert forall|i: int| 0 <= i < g.conflicts@.len() implies renamed_group(g.conflicts@[i], #[trigger] k.conflicts@[i], from, from) by {
        let (x, y, z) = (g.conflicts@[i], h.conflicts@[i], k.conflicts@[i]);
        assert(renamed_group(x, y, from, to));
        assert(renamed_group(y, z, to, from));
        assert forall|j: int| 0 <= j < x.rules@.len() implies (#[trigger] z.rules@[j])@ == rename_name(x.rules@[j]@, from, from) by {
            assert(y.rules@[j]@ == rename_name(x.rules@[j]@, from, to));
            assert(x.rules@[j]@ != to);
        }
    }
    assert forall|i: int| 0 <= i < g.precedences@.len() implies renamed_prec_group(g.precedences@[i], #[trigger] k.precedences@[i], from, from) by {
        assert(renamed_prec_group(g.precedences@[i], h.precedences@[i], from, to));
        assert(renamed_prec_group(h.precedences@[i], k.precedences@[i], to, from));
        lemma_nls_back(g.precedences@[i].items@, h.precedences@[i].items@, k.precedences@[i].items@, from, to);
    }
    assert forall|i: int| 0 <= i < g.reserved_sets@.len() implies renamed_reserved(g.reserved_sets@[i], #[trigger] k.reserved_sets@[i], from, from) by {
        assert(renamed_reserved(g.reserved_sets@[i], h.reserved_sets@[i], from, to));
        assert(renamed_reserved(h.reserved_sets@[i], k.reserved_sets@[i], to, from));
        lemma_nls_back(g.reserved_sets@[i].rule_names@, h.reserved_sets@[i].rule_names@, k.reserved_sets@[i].rule_names@, from, to);
    }
    let s = g.rhs_nonterminals@;
    assert(!s.contains(to));
    if s.contains(from) {
        assert(h.rhs_nonterminals@.to_set().contains(to));
        assert(k.rhs_nonterminals@.to_set() =~= s.to_set().remove(from).insert(from));
    } else {
        assert(!h.rhs_nonterminals@.to_set().contains(to));
    }
}

} // verus!
