//! Pretty-printer that re-emits a [`Grammar`] as canonical BNF text:
//! directives first, in a fixed order, then each rule in declaration order.

use vstd::prelude::*;
use vstd::string::*;
use crate::directive::{item_text, ConflictGroup, DirectiveItem, NameOrLiteral, PrecedenceGroup, ReservedEntry};
use crate::nodes::{prec_kind_text, prec_level_text, GrammarNode, PrecKind, PrecLevel};
use crate::production::Production;
use crate::rules::{rules_get_index, rules_len};
use crate::text::{join, join_strings, lemma_utf8_len_concat, lemma_utf8_len_ge, owned, repeat_char, spaces, str_len, utf8_len, views};
use crate::types::{entries, Grammar};

verus! {

/// Maximum length in bytes of a rule printed on one line.
pub const LINE_WIDTH: usize = 80;

// ── Nodes ────────────────────────────────────────────────────────────────

/// A node in alternative position: a top-level precedence has no
/// parentheses and a sequence is its items joined by spaces.
pub open spec fn fmt_top(n: GrammarNode) -> Seq<char>
    decreases n, 1int,
{
    match n {
        GrammarNode::Prec(k, l, i) => seq_items(*i) + " "@ + prec_ann(k, l),
        GrammarNode::Sequence(cs) => join(nested_list(cs@), " "@),
        _ => fmt_nested(n),
    }
}

/// A node in nested position: choices gain parentheses so `|` is not read
/// as a rule-level separator, and a precedence is parenthesised.
pub open spec fn fmt_nested(n: GrammarNode) -> Seq<char>
    decreases n, 0int,
{
    match n {
        GrammarNode::NonTerminal(x) => x@,
        GrammarNode::TerminalLiteral(s) => s@,
        GrammarNode::TerminalPattern(s) => s@,
        GrammarNode::Sequence(cs) => join(nested_list(cs@), " "@),
        GrammarNode::Choice(cs) => "("@ + join(top_list(cs@), " | "@) + ")"@,
        GrammarNode::Optional(i) => quant_inner(*i) + "?"@,
        GrammarNode::ZeroOrMore(i) => quant_inner(*i) + "*"@,
        GrammarNode::OneOrMore(i) => quant_inner(*i) + "+"@,
        GrammarNode::Token(i) => "<< "@ + fmt_top(*i) + " >>"@,
        GrammarNode::TokenImmediate(i) => "<<! "@ + fmt_top(*i) + " >>"@,
        GrammarNode::Field(name, i) => name@ + ": "@ + fmt_nested(*i),
        GrammarNode::Alias(b, name) => "("@ + fmt_top(*b) + " => "@ + fmt_nested(*name) + ")"@,
        GrammarNode::Prec(k, l, i) => "("@ + seq_items(*i) + " "@ + prec_ann(k, l) + ")"@,
        GrammarNode::Reserved(name, i) => "("@ + seq_items(*i) + " %reserved "@ + name@ + ")"@,
    }
}

/// The operand of `?`, `*` or `+`: sequences and choices in parentheses.
pub open spec fn quant_inner(n: GrammarNode) -> Seq<char>
    decreases n, 1int,
{
    match n {
        GrammarNode::Sequence(cs) => "("@ + join(nested_list(cs@), " "@) + ")"@,
        GrammarNode::Choice(cs) => "("@ + join(top_list(cs@), " | "@) + ")"@,
        _ => fmt_nested(n),
    }
}

/// The body of a precedence or reserved annotation: a sequence's items
/// joined by spaces, without parentheses.
pub open spec fn seq_items(n: GrammarNode) -> Seq<char>
    decreases n, 1int,
{
    match n {
        GrammarNode::Sequence(cs) => join(nested_list(cs@), " "@),
        _ => fmt_nested(n),
    }
}

/// [`fmt_nested`] of each element.
pub open spec fn nested_list(cs: Seq<GrammarNode>) -> Seq<Seq<char>>
    decreases cs, 0int,
{
    if cs.len() == 0 {
        seq![]
    } else {
        seq![fmt_nested(cs[0])] + nested_list(cs.drop_first())
    }
}

/// [`fmt_top`] of each element.
pub open spec fn top_list(cs: Seq<GrammarNode>) -> Seq<Seq<char>>
    decreases cs, 0int,
{
    if cs.len() == 0 {
        seq![]
    } else {
        seq![fmt_top(cs[0])] + top_list(cs.drop_first())
    }
}

/// The `%prec[.left|.right|.dynamic] [level]` annotation.
pub open spec fn prec_ann(k: PrecKind, l: Option<PrecLevel>) -> Seq<char> {
    match l {
        Some(lv) => "%"@ + prec_kind_text(k) + " "@ + prec_level_text(lv),
        None => "%"@ + prec_kind_text(k),
    }
}

/// Builds the `%prec[.left|.right|.dynamic] [level]` annotation.
fn prec_annotation(kind: &PrecKind, level: &Option<PrecLevel>) -> (r: String)
    ensures
        r@ == prec_ann(*kind, *level),
{
    let mut out = String::from_str("%");
    out.append(kind.as_str());
    match level {
        Some(l) => {
            out.append(" ");
            out.append(l.to_text().as_str());
        },
        None => {},
    }
    out
}

/// [`format_node_nested`] of each of `items`.
fn nested_parts(items: &Vec<GrammarNode>) -> (r: Vec<String>)
    ensures
        views(r@) == nested_list(items@),
    decreases items, 0int,
{
    let mut parts: Vec<String> = Vec::new();
    let mut i: usize = 0;
    assert(items@.skip(0) =~= items@);
    while i < items.len()
        invariant
            0 <= i <= items.len(),
            views(parts@) + nested_list(items@.skip(i as int)) == nested_list(items@),
        decreases items.len() - i,
    {
        proof {
            assert(decreases_to!(*items => items[i as int]));
        }
        let s = format_node_nested(&items[i]);
        proof {
            let rest = items@.skip(i as int);
            assert(rest[0] == items@[i as int]);
            assert(rest.drop_first() =~= items@.skip(i + 1));
            assert(views(parts@.push(s)) =~= views(parts@).push(s@));
            assert(views(parts@) + nested_list(rest) =~= views(parts@).push(s@) + nested_list(items@.skip(i + 1)));
        }
        parts.push(s);
        i += 1;
    }
    assert(items@.skip(items@.len() as int) =~= Seq::<GrammarNode>::empty());
    assert(views(parts@) + nested_list(Seq::<GrammarNode>::empty()) =~= views(parts@));
    parts
}

/// [`format_node_top`] of each of `items`.
fn top_parts(items: &Vec<GrammarNode>) -> (r: Vec<String>)
    ensures
        views(r@) == top_list(items@),
    decreases items, 0int,
{
    let mut parts: Vec<String> = Vec::new();
    let mut i: usize = 0;
    assert(items@.skip(0) =~= items@);
    while i < items.len()
        invariant
            0 <= i <= items.len(),
            views(parts@) + top_list(items@.skip(i as int)) == top_list(items@),
        decreases items.len() - i,
    {
        proof {
            assert(decreases_to!(*items => items[i as int]));
        }
        let s = format_node_top(&items[i]);
        proof {
            let rest = items@.skip(i as int);
            assert(rest[0] == items@[i as int]);
            assert(rest.drop_first() =~= items@.skip(i + 1));
            assert(views(parts@.push(s)) =~= views(parts@).push(s@));
            assert(views(parts@) + top_list(rest) =~= views(parts@).push(s@) + top_list(items@.skip(i + 1)));
        }
        parts.push(s);
        i += 1;
    }
    assert(items@.skip(items@.len() as int) =~= Seq::<GrammarNode>::empty());
    assert(views(parts@) + top_list(Seq::<GrammarNode>::empty()) =~= views(parts@));
    parts
}

/// `open`, then `inner`, then `close`.
fn wrapped(open: &str, inner: &str, close: &str) -> (r: String)
    ensures
        r@ == open@ + inner@ + close@,
{
    let mut out = String::from_str(open);
    out.append(inner);
    out.append(close);
    out
}

/// Formats a node in alternative (top-level) position.
pub fn format_node_top(node: &GrammarNode) -> (r: String)
    ensures
        r@ == fmt_top(*node),
    decreases node, 1int,
{
    match node {
        GrammarNode::Prec(kind, level, inner) => {
            let mut out = format_sequence_items(inner);
            out.append(" ");
            out.append(prec_annotation(kind, level).as_str());
            out
        },
        GrammarNode::Sequence(items) => join_strings(&nested_parts(items), " "),
        _ => format_node_nested(node),
    }
}

/// Formats a node in nested position (inside a quantifier, token, field…).
pub fn format_node_nested(node: &GrammarNode) -> (r: String)
    ensures
        r@ == fmt_nested(*node),
    decreases node, 0int,
{
    proof {
        reveal_strlit("");
    }
    match node {
        GrammarNode::NonTerminal(name) => owned(name.as_str()),
        GrammarNode::TerminalLiteral(s) => owned(s.as_str()),
        GrammarNode::TerminalPattern(s) => owned(s.as_str()),
        GrammarNode::Sequence(items) => join_strings(&nested_parts(items), " "),
        GrammarNode::Choice(alts) => wrapped("(", join_strings(&top_parts(alts), " | ").as_str(), ")"),
        GrammarNode::Optional(inner) => wrapped("", quantifier_inner(inner).as_str(), "?"),
        GrammarNode::ZeroOrMore(inner) => wrapped("", quantifier_inner(inner).as_str(), "*"),
        GrammarNode::OneOrMore(inner) => wrapped("", quantifier_inner(inner).as_str(), "+"),
        GrammarNode::Token(inner) => wrapped("<< ", format_node_top(inner).as_str(), " >>"),
        GrammarNode::TokenImmediate(inner) => wrapped("<<! ", format_node_top(inner).as_str(), " >>"),
        GrammarNode::Field(name, inner) => wrapped(name.as_str(), ": ", format_node_nested(inner).as_str()),
        GrammarNode::Alias(body, name) => {
            let mut out = String::from_str("(");
            out.append(format_node_top(body).as_str());
            out.append(" => ");
            out.append(format_node_nested(name).as_str());
            out.append(")");
            out
        },
        GrammarNode::Prec(kind, level, inner) => {
            let mut out = String::from_str("(");
            out.append(format_sequence_items(inner).as_str());
            out.append(" ");
            out.append(prec_annotation(kind, level).as_str());
            out.append(")");
            out
        },
        GrammarNode::Reserved(name, inner) => {
            let mut out = String::from_str("(");
            out.append(format_sequence_items(inner).as_str());
            out.append(" %reserved ");
            out.append(name.as_str());
            out.append(")");
            out
        },
    }
}

/// Formats the operand of a quantifier, parenthesising a sequence or a
/// choice so the quantifier applies to the whole group.
fn quantifier_inner(node: &GrammarNode) -> (r: String)
    ensures
        r@ == quant_inner(*node),
    decreases node, 1int,
{
    match node {
        GrammarNode::Sequence(items) => wrapped("(", join_strings(&nested_parts(items), " ").as_str(), ")"),
        GrammarNode::Choice(alts) => wrapped("(", join_strings(&top_parts(alts), " | ").as_str(), ")"),
        _ => format_node_nested(node),
    }
}

/// Formats the body of a precedence or reserved annotation: a sequence's
/// items joined by spaces, anything else as nested.
fn format_sequence_items(node: &GrammarNode) -> (r: String)
    ensures
        r@ == seq_items(*node),
    decreases node, 1int,
{
    match node {
        GrammarNode::Sequence(items) => join_strings(&nested_parts(items), " "),
        _ => format_node_nested(node),
    }
}

// ── Directives ───────────────────────────────────────────────────────────

/// The texts of name-or-literal items, as written.
pub open spec fn nl_texts(items: Seq<NameOrLiteral>) -> Seq<Seq<char>> {
    items.map_values(|i: NameOrLiteral| item_text(i))
}

/// A simple directive: `%name item, item`.
pub open spec fn directive_text(name: Seq<char>, items: Seq<DirectiveItem>) -> Seq<char> {
    "%"@ + name + " "@ + join(items.map_values(|i: DirectiveItem| i.name@), ", "@)
}

/// `%conflicts [a, b], [c, d]`.
pub open spec fn conflicts_text(gs: Seq<ConflictGroup>) -> Seq<char> {
    "%conflicts "@ + join(gs.map_values(|g: ConflictGroup| "["@ + join(views(g.rules@), ", "@) + "]"@), ", "@)
}

/// `%externals a, 'b'`.
pub open spec fn externals_text(items: Seq<NameOrLiteral>) -> Seq<char> {
    "%externals "@ + join(nl_texts(items), ", "@)
}

/// `%reserved set: [a, b], other: []`.
pub open spec fn reserved_text(es: Seq<ReservedEntry>) -> Seq<char> {
    "%reserved "@ + join(es.map_values(|e: ReservedEntry| e.set_name@ + ": ["@ + join(nl_texts(e.rule_names@), ", "@) + "]"@), ", "@)
}

/// `%precedences [a, b], [c, 'd']`.
pub open spec fn precedences_text(gs: Seq<PrecedenceGroup>) -> Seq<char> {
    "%precedences "@ + join(gs.map_values(|g: PrecedenceGroup| "["@ + join(nl_texts(g.items@), ", "@) + "]"@), ", "@)
}

/// The line `prefix name` for a declared single-name directive, or none.
pub open spec fn named_line(prefix: Seq<char>, item: Option<DirectiveItem>) -> Seq<Seq<char>> {
    match item {
        Some(a) => seq![prefix + a.name@],
        None => seq![],
    }
}

/// One line per declared directive, in canonical order: `%axiom`,
/// `%reserved`, `%word`, `%extras`, `%conflicts`, `%precedences`,
/// `%inline`, `%supertypes`, `%externals`.
pub open spec fn directive_lines(g: Grammar) -> Seq<Seq<char>> {
    named_line("%axiom "@, g.axiom_of())
    + (if g.reserved_sets@.len() > 0 { seq![reserved_text(g.reserved_sets@)] } else { seq![] })
    + named_line("%word "@, g.word)
    + (if g.extras@.len() > 0 { seq![directive_text("extras"@, g.extras@)] } else { seq![] })
    + (if g.conflicts@.len() > 0 { seq![conflicts_text(g.conflicts@)] } else { seq![] })
    + (if g.precedences@.len() > 0 { seq![precedences_text(g.precedences@)] } else { seq![] })
    + (if g.inline@.len() > 0 { seq![directive_text("inline"@, g.inline@)] } else { seq![] })
    + (if g.supertypes@.len() > 0 { seq![directive_text("supertypes"@, g.supertypes@)] } else { seq![] })
    + (if g.externals@.len() > 0 { seq![externals_text(g.externals@)] } else { seq![] })
}

/// The names of `items`, as strings.
fn item_name_strings(items: &[DirectiveItem]) -> (r: Vec<String>)
    ensures
        views(r@) == items@.map_values(|i: DirectiveItem| i.name@),
{
    let mut out: Vec<String> = Vec::new();
    let mut k: usize = 0;
    while k < items.len()
        invariant
            0 <= k <= items@.len(),
            views(out@) == items@.take(k as int).map_values(|i: DirectiveItem| i.name@),
        decreases items@.len() - k,
    {
        let ghost bo = out@;
        out.push(owned(items[k].name.as_str()));
        proof {
            assert(views(out@) =~= views(bo).push(items@[k as int].name@));
            assert(items@.take(k as int + 1).map_values(|i: DirectiveItem| i.name@)
                =~= items@.take(k as int).map_values(|i: DirectiveItem| i.name@).push(items@[k as int].name@));
        }
        k += 1;
    }
    assert(items@.take(items@.len() as int) =~= items@);
    out
}

/// The texts of `items`, as strings.
fn nl_strings(items: &[NameOrLiteral]) -> (r: Vec<String>)
    ensures
        views(r@) == nl_texts(items@),
{
    let mut out: Vec<String> = Vec::new();
    let mut k: usize = 0;
    while k < items.len()
        invariant
            0 <= k <= items@.len(),
            views(out@) == nl_texts(items@.take(k as int)),
        decreases items@.len() - k,
    {
        let ghost bo = out@;
        out.push(owned(items[k].text().as_str()));
        proof {
            assert(views(out@) =~= views(bo).push(item_text(items@[k as int])));
            assert(nl_texts(items@.take(k as int + 1)) =~= nl_texts(items@.take(k as int)).push(item_text(items@[k as int])));
        }
        k += 1;
    }
    assert(items@.take(items@.len() as int) =~= items@);
    out
}

/// Formats a simple directive (`%extras`, `%inline`, `%supertypes`) as
/// `%name item, item`.
pub fn format_directive(name: &str, items: &[DirectiveItem]) -> (r: String)
    ensures
        r@ == directive_text(name@, items@),
{
    let mut out = String::from_str("%");
    out.append(name);
    out.append(" ");
    out.append(join_strings(&item_name_strings(items), ", ").as_str());
    out
}

/// Formats a `%conflicts` directive as `%conflicts [a, b], [c, d]`.
pub fn format_conflicts(groups: &[ConflictGroup]) -> (r: String)
    ensures
        r@ == conflicts_text(groups@),
{
    let ghost f = |g: ConflictGroup| "["@ + join(views(g.rules@), ", "@) + "]"@;
    let mut parts: Vec<String> = Vec::new();
    let mut k: usize = 0;
    while k < groups.len()
        invariant
            0 <= k <= groups@.len(),
            f == (|g: ConflictGroup| "["@ + join(views(g.rules@), ", "@) + "]"@),
            views(parts@) == groups@.take(k as int).map_values(f),
        decreases groups@.len() - k,
    {
        let mut s = String::from_str("[");
        s.append(join_strings(&groups[k].rules, ", ").as_str());
        s.append("]");
        let ghost bp = parts@;
        let ghost sv = s@;
        parts.push(s);
        proof {
            assert(sv == f(groups@[k as int]));
            assert(views(parts@) =~= views(bp).push(sv));
            assert(groups@.take(k as int + 1).map_values(f) =~= groups@.take(k as int).map_values(f).push(f(groups@[k as int])));
        }
        k += 1;
    }
    assert(groups@.take(groups@.len() as int) =~= groups@);
    let mut out = String::from_str("%conflicts ");
    out.append(join_strings(&parts, ", ").as_str());
    out
}

/// Formats a `%externals` directive as `%externals a, 'b'`.
pub fn format_externals(items: &[NameOrLiteral]) -> (r: String)
    ensures
        r@ == externals_text(items@),
{
    let mut out = String::from_str("%externals ");
    out.append(join_strings(&nl_strings(items), ", ").as_str());
    out
}

/// Formats a `%reserved` directive as `%reserved set: [a, b], other: []`.
pub fn format_reserved(entries: &[ReservedEntry]) -> (r: String)
    ensures
        r@ == reserved_text(entries@),
{
    let ghost f = |e: ReservedEntry| e.set_name@ + ": ["@ + join(nl_texts(e.rule_names@), ", "@) + "]"@;
    let mut parts: Vec<String> = Vec::new();
    let mut k: usize = 0;
    while k < entries.len()
        invariant
            0 <= k <= entries@.len(),
            f == (|e: ReservedEntry| e.set_name@ + ": ["@ + join(nl_texts(e.rule_names@), ", "@) + "]"@),
            views(parts@) == entries@.take(k as int).map_values(f),
        decreases entries@.len() - k,
    {
        let mut s = owned(entries[k].set_name.as_str());
        s.append(": [");
        s.append(join_strings(&nl_strings(entries[k].rule_names.as_slice()), ", ").as_str());
        s.append("]");
        let ghost bp = parts@;
        let ghost sv = s@;
        parts.push(s);
        proof {
            assert(sv == f(entries@[k as int]));
            assert(views(parts@) =~= views(bp).push(sv));
            assert(entries@.take(k as int + 1).map_values(f) =~= entries@.take(k as int).map_values(f).push(f(entries@[k as int])));
        }
        k += 1;
    }
    assert(entries@.take(entries@.len() as int) =~= entries@);
    let mut out = String::from_str("%reserved ");
    out.append(join_strings(&parts, ", ").as_str());
    out
}

/// Formats a `%precedences` directive as `%precedences [a, b], [c, 'd']`.
pub fn format_precedences(groups: &[PrecedenceGroup]) -> (r: String)
    ensures
        r@ == precedences_text(groups@),
{
    let ghost f = |g: PrecedenceGroup| "["@ + join(nl_texts(g.items@), ", "@) + "]"@;
    let mut parts: Vec<String> = Vec::new();
    let mut k: usize = 0;
    while k < groups.len()
        invariant
            0 <= k <= groups@.len(),
            f == (|g: PrecedenceGroup| "["@ + join(nl_texts(g.items@), ", "@) + "]"@),
            views(parts@) == groups@.take(k as int).map_values(f),
        decreases groups@.len() - k,
    {
        let mut s = String::from_str("[");
        s.append(join_strings(&nl_strings(groups[k].items.as_slice()), ", ").as_str());
        s.append("]");
        let ghost bp = parts@;
        let ghost sv = s@;
        parts.push(s);
        proof {
            assert(sv == f(groups@[k as int]));
            assert(views(parts@) =~= views(bp).push(sv));
            assert(groups@.take(k as int + 1).map_values(f) =~= groups@.take(k as int).map_values(f).push(f(groups@[k as int])));
        }
        k += 1;
    }
    assert(groups@.take(groups@.len() as int) =~= groups@);
    let mut out = String::from_str("%precedences ");
    out.append(join_strings(&parts, ", ").as_str());
    out
}

/// Appends `line` to `out`.
fn push_line(out: &mut Vec<String>, line: String)
    ensures
        views(final(out)@) == views(old(out)@).push(line@),
{
    out.push(line);
    assert(views(out@) =~= views(old(out)@).push(line@));
}

/// Collects every declared directive as a line, in canonical order.
#[verifier::spinoff_prover]
#[verifier::rlimit(60)]
fn collect_directives(grammar: &Grammar) -> (r: Vec<String>)
    ensures
        views(r@) == directive_lines(*grammar),
{
    let mut out: Vec<String> = Vec::new();
    let ghost mut acc: Seq<Seq<char>> = seq![];
    match grammar.axiom_directive() {
        Some(a) => {
            let mut s = String::from_str("%axiom ");
            s.append(a.name.as_str());
            push_line(&mut out, s);
        },
        None => {},
    }
    proof {
        acc = named_line("%axiom "@, grammar.axiom_of());
        assert(views(out@) =~= acc);
    }
    if grammar.reserved_sets.len() > 0 {
        push_line(&mut out, format_reserved(grammar.reserved_sets.as_slice()));
    }
    proof {
        acc = acc + (if grammar.reserved_sets@.len() > 0 { seq![reserved_text(grammar.reserved_sets@)] } else { seq![] });
        assert(views(out@) =~= acc);
    }
    match &grammar.word {
        Some(w) => {
            let mut s = String::from_str("%word ");
            s.append(w.name.as_str());
            push_line(&mut out, s);
        },
        None => {},
    }
    proof {
        acc = acc + named_line("%word "@, grammar.word);
        assert(views(out@) =~= acc);
    }
    if grammar.extras.len() > 0 {
        push_line(&mut out, format_directive("extras", grammar.extras.as_slice()));
    }
    proof {
        acc = acc + (if grammar.extras@.len() > 0 { seq![directive_text("extras"@, grammar.extras@)] } else { seq![] });
        assert(views(out@) =~= acc);
    }
    if grammar.conflicts.len() > 0 {
        push_line(&mut out, format_conflicts(grammar.conflicts.as_slice()));
    }
    proof {
        acc = acc + (if grammar.conflicts@.len() > 0 { seq![conflicts_text(grammar.conflicts@)] } else { seq![] });
        assert(views(out@) =~= acc);
    }
    if grammar.precedences.len() > 0 {
        push_line(&mut out, format_precedences(grammar.precedences.as_slice()));
    }
    proof {
        acc = acc + (if grammar.precedences@.len() > 0 { seq![precedences_text(grammar.precedences@)] } else { seq![] });
        assert(views(out@) =~= acc);
    }
    if grammar.inline.len() > 0 {
        push_line(&mut out, format_directive("inline", grammar.inline.as_slice()));
    }
    proof {
        acc = acc + (if grammar.inline@.len() > 0 { seq![directive_text("inline"@, grammar.inline@)] } else { seq![] });
        assert(views(out@) =~= acc);
    }
    if grammar.supertypes.len() > 0 {
        push_line(&mut out, format_directive("supertypes", grammar.supertypes.as_slice()));
    }
    proof {
        acc = acc + (if grammar.supertypes@.len() > 0 { seq![directive_text("supertypes"@, grammar.supertypes@)] } else { seq![] });
        assert(views(out@) =~= acc);
    }
    if grammar.externals.len() > 0 {
        push_line(&mut out, format_externals(grammar.externals.as_slice()));
    }
    proof {
        acc = acc + (if grammar.externals@.len() > 0 { seq![externals_text(grammar.externals@)] } else { seq![] });
        assert(views(out@) =~= acc);
    }
    out
}

// ── Rules and grammar ────────────────────────────────────────────────────

/// The alternatives of a rule body: a choice's options, or the body itself.
pub open spec fn alternatives(n: GrammarNode) -> Seq<GrammarNode> {
    match n {
        GrammarNode::Choice(cs) => cs@,
        _ => seq![n],
    }
}

/// A rule on one line: `name -> alt | alt;`.
pub open spec fn single_line(p: Production) -> Seq<char> {
    p.name@ + " -> "@ + join(top_list(alternatives(p.body)), " | "@) + ";"@
}

/// The lines of a rule split by alternative: the first after `name -> `,
/// each further one after `| ` aligned under the arrow, then `;`.
pub open spec fn alt_lines(name: Seq<char>, alts: Seq<GrammarNode>) -> Seq<Seq<char>> {
    let indent = repeat_char(' ', (utf8_len(name + " -> "@) - 2) as nat);
    Seq::new(alts.len(), |i: int| if i == 0 {
        name + " -> "@ + fmt_top(alts[0])
    } else {
        indent + "| "@ + fmt_top(alts[i])
    }).push(indent + ";"@)
}

/// A rule as BNF: on one line when that takes at most [`LINE_WIDTH`]
/// bytes, otherwise one alternative per line.
pub open spec fn production_format(p: Production) -> Seq<char> {
    if utf8_len(single_line(p)) <= LINE_WIDTH {
        single_line(p)
    } else {
        join(alt_lines(p.name@, alternatives(p.body)), "\n"@)
    }
}

/// `top_list` element by element.
proof fn lemma_top_list_index(cs: Seq<GrammarNode>)
    ensures
        top_list(cs).len() == cs.len(),
        forall|i: int| 0 <= i < cs.len() ==> #[trigger] top_list(cs)[i] == fmt_top(cs[i]),
    decreases cs.len(),
{
    if cs.len() > 0 {
        lemma_top_list_index(cs.drop_first());
        assert forall|i: int| 0 <= i < cs.len() implies #[trigger] top_list(cs)[i] == fmt_top(cs[i]) by {
            if i > 0 {
                assert(top_list(cs)[i] == top_list(cs.drop_first())[i - 1]);
                assert(cs.drop_first()[i - 1] == cs[i]);
            }
        }
    }
}

/// The alternatives of a rule body: a choice's options, or the body itself.
fn flatten_alternatives(node: &GrammarNode) -> (r: Vec<&GrammarNode>)
    ensures
        r@.len() == alternatives(*node).len(),
        forall|i: int| 0 <= i < r@.len() ==> *(#[trigger] r@[i]) == alternatives(*node)[i],
{
    match node {
        GrammarNode::Choice(alts) => {
            let mut out: Vec<&GrammarNode> = Vec::new();
            let mut i: usize = 0;
            while i < alts.len()
                invariant
                    0 <= i <= alts.len(),
                    out@.len() == i,
                    forall|j: int| 0 <= j < i ==> *(#[trigger] out@[j]) == alts@[j],
                decreases alts.len() - i,
            {
                out.push(&alts[i]);
                i += 1;
            }
            out
        },
        _ => {
            let out = vec![node];
            out
        },
    }
}

/// Formats a rule as BNF text: on one line when `name -> body;` fits in
/// [`LINE_WIDTH`] bytes, otherwise one alternative per line with `|` and
/// `;` aligned under the arrow.
pub fn format_production(production: &Production) -> (r: String)
    ensures
        r@ == production_format(*production),
{
    let mut prefix = owned(production.name.as_str());
    prefix.append(" -> ");
    let alternatives_v = flatten_alternatives(&production.body);
    let ghost alts = alternatives(production.body);
    let mut parts: Vec<String> = Vec::new();
    let mut i: usize = 0;
    while i < alternatives_v.len()
        invariant
            0 <= i <= alternatives_v@.len(),
            alternatives_v@.len() == alts.len(),
            forall|j: int| 0 <= j < alternatives_v@.len() ==> *(#[trigger] alternatives_v@[j]) == alts[j],
            parts@.len() == i,
            forall|j: int| 0 <= j < i ==> (#[trigger] parts@[j])@ == fmt_top(alts[j]),
        decreases alternatives_v@.len() - i,
    {
        parts.push(format_node_top(alternatives_v[i]));
        i += 1;
    }
    proof {
        lemma_top_list_index(alts);
        assert(views(parts@) =~= top_list(alts));
    }
    let mut single = owned(prefix.as_str());
    single.append(join_strings(&parts, " | ").as_str());
    single.append(";");
    if str_len(single.as_str()) <= LINE_WIDTH {
        return single;
    }
    proof {
        lemma_utf8_len_concat(production.name@, " -> "@);
        reveal_strlit(" -> ");
        lemma_utf8_len_ge(" -> "@);
    }
    let indent = spaces(str_len(prefix.as_str()) - 2);
    let ghost name = production.name@;
    let mut lines: Vec<String> = Vec::new();
    let mut i: usize = 0;
    while i < parts.len()
        invariant
            0 <= i <= parts@.len(),
            parts@.len() == alts.len(),
            forall|j: int| 0 <= j < parts@.len() ==> (#[trigger] parts@[j])@ == fmt_top(alts[j]),
            prefix@ == name + " -> "@,
            indent@ == repeat_char(' ', (utf8_len(name + " -> "@) - 2) as nat),
            views(lines@) == alt_lines(name, alts).take(i as int),
        decreases parts@.len() - i,
    {
        let mut line = String::new();
        if i == 0 {
            line.append(prefix.as_str());
        } else {
            line.append(indent.as_str());
            line.append("| ");
        }
        line.append(parts[i].as_str());
        let ghost bl = lines@;
        lines.push(line);
        proof {
            assert(views(lines@) =~= views(bl).push(alt_lines(name, alts)[i as int]));
            assert(alt_lines(name, alts).take(i as int + 1) =~= alt_lines(name, alts).take(i as int).push(alt_lines(name, alts)[i as int]));
        }
        i += 1;
    }
    let mut last = owned(indent.as_str());
    last.append(";");
    let ghost bl = lines@;
    lines.push(last);
    proof {
        assert(views(lines@) =~= views(bl).push(indent@ + ";"@));
        assert(views(lines@) =~= alt_lines(name, alts));
    }
    join_strings(&lines, "\n")
}

/// Each line followed by a newline.
pub open spec fn lines_text(ls: Seq<Seq<char>>) -> Seq<char>
    decreases ls.len(),
{
    if ls.len() == 0 {
        seq![]
    } else {
        lines_text(ls.drop_last()) + ls.last() + "\n"@
    }
}

/// The rules of `es`, each followed by a newline and separated from what
/// comes before by a blank line.
pub open spec fn rules_text(es: Seq<(String, Production)>, after_directives: bool) -> Seq<char>
    decreases es.len(),
{
    if es.len() == 0 {
        seq![]
    } else {
        rules_text(es.drop_last(), after_directives) + (if es.len() > 1 || after_directives { "\n"@ } else { seq![] })
            + production_format(es.last().1) + "\n"@
    }
}

/// The canonical BNF text of `g`: directive lines, then the rules in
/// declaration order separated by blank lines.
pub open spec fn grammar_format(g: Grammar) -> Seq<char> {
    lines_text(directive_lines(g)) + rules_text(entries(g), directive_lines(g).len() > 0)
}

/// Formats `grammar` as canonical BNF: the directives (`%axiom`,
/// `%reserved`, `%word`, `%extras`, `%conflicts`, `%precedences`,
/// `%inline`, `%supertypes`, `%externals`), then every rule in declaration
/// order, each separated by a blank line.  Comments are not kept.
pub fn format_grammar(grammar: &Grammar) -> (r: String)
    ensures
        r@ == grammar_format(*grammar),
{
    let directives = collect_directives(grammar);
    let mut out = lines_section(&directives);
    out.append(rules_section(grammar, directives.len() > 0).as_str());
    out
}

/// Each of `lines` followed by a newline.
fn lines_section(lines: &Vec<String>) -> (r: String)
    ensures
        r@ == lines_text(views(lines@)),
{
    let mut out = String::new();
    let mut i: usize = 0;
    while i < lines.len()
        invariant
            0 <= i <= lines@.len(),
            out@ == lines_text(views(lines@).take(i as int)),
        decreases lines@.len() - i,
    {
        out.append(lines[i].as_str());
        out.append("\n");
        proof {
            let t = views(lines@).take(i as int + 1);
            assert(t.drop_last() =~= views(lines@).take(i as int));
            assert(t.last() == lines@[i as int]@);
        }
        i += 1;
    }
    assert(views(lines@).take(lines@.len() as int) =~= views(lines@));
    out
}

/// The rules of `grammar` in declaration order, separated by blank lines.
fn rules_section(grammar: &Grammar, after_directives: bool) -> (r: String)
    ensures
        r@ == rules_text(entries(*grammar), after_directives),
{
    let ghost es = entries(*grammar);
    let n = rules_len(&grammar.productions);
    let mut out = String::new();
    let mut first_rule = true;
    let mut i: usize = 0;
    while i < n
        invariant
            0 <= i <= n,
            n == es.len(),
            es == entries(*grammar),
            first_rule == (i == 0),
            out@ == rules_text(es.take(i as int), after_directives),
        decreases n - i,
    {
        let (_, p) = rules_get_index(&grammar.productions, i);
        let ghost before = out@;
        if !first_rule || after_directives {
            out.append("\n");
        }
        first_rule = false;
        out.append(format_production(p).as_str());
        out.append("\n");
        proof {
            let t = es.take(i as int + 1);
            assert(t.drop_last() =~= es.take(i as int));
            assert(t.last() == es[i as int]);
            assert(out@ =~= before + (if t.len() > 1 || after_directives { "\n"@ } else { seq![] }) + production_format(*p) + "\n"@);
        }
        i += 1;
    }
    assert(es.take(n as int) =~= es);
    out
}


// ── Grouping in nested position ──────────────────────────────────────────

/// `nested_list` element by element.
proof fn lemma_nested_list_index(cs: Seq<GrammarNode>)
    ensures
        nested_list(cs).len() == cs.len(),
        forall|i: int| 0 <= i < cs.len() ==> #[trigger] nested_list(cs)[i] == fmt_nested(cs[i]),
    decreases cs.len(),
{
    if cs.len() > 0 {
        lemma_nested_list_index(cs.drop_first());
        assert forall|i: int| 0 <= i < cs.len() implies #[trigger] nested_list(cs)[i] == fmt_nested(cs[i]) by {
            if i > 0 {
                assert(nested_list(cs)[i] == nested_list(cs.drop_first())[i - 1]);
                assert(cs.drop_first()[i - 1] == cs[i]);
            }
        }
    }
}

/// Each part of a text joined with the one-character separator `c`
/// stands in it whole, between separators.
proof fn lemma_join_part(parts: Seq<Seq<char>>, c: char, i: int)
    requires
        0 <= i < parts.len(),
    ensures
        exists|pre: Seq<char>, post: Seq<char>| join(parts, seq![c]) == pre + parts[i] + post
            && (pre.len() == 0 || pre.last() == c)
            && (post.len() == 0 || post[0] == c),
    decreases parts.len(),
{
    let sep = seq![c];
    if parts.len() == 1 {
        let pre = Seq::<char>::empty();
        let post = Seq::<char>::empty();
        assert(join(parts, sep) =~= pre + parts[i] + post);
    } else if i == 0 {
        let pre = Seq::<char>::empty();
        let post = sep + join(parts.drop_first(), sep);
        assert(join(parts, sep) =~= pre + parts[i] + post);
        assert(post[0] == c);
    } else {
        lemma_join_part(parts.drop_first(), c, i - 1);
        let (pre0, post) = choose|pre: Seq<char>, post: Seq<char>| join(parts.drop_first(), sep) == pre + parts.drop_first()[i - 1] + post
            && (pre.len() == 0 || pre.last() == c)
            && (post.len() == 0 || post[0] == c);
        let pre = parts[0] + sep + pre0;
        assert(parts.drop_first()[i - 1] == parts[i]);
        assert(join(parts, sep) =~= pre + parts[i] + post);
        assert(pre.last() == c);
    }
}

/// A choice in nested position (an element of a sequence, the operand of
/// a field, a token or a quantifier) is printed in parentheses, so that
/// its `|` cannot be read as separating the rule's alternatives: its text
/// opens with `(` and closes with `)`.  So is an alias, a precedence and a
/// reserved-word group in nested position.
pub proof fn lemma_nested_choice_parenthesised(n: GrammarNode)
    requires
        n is Choice || n is Alias || n is Prec || n is Reserved,
    ensures
        fmt_nested(n).len() >= 2,
        fmt_nested(n)[0] == '(',
        fmt_nested(n).last() == ')',
        n is Choice ==> quant_inner(n) == fmt_nested(n),
{
    reveal_strlit("(");
    reveal_strlit(")");
}

/// The operand of `?`, `*` or `+` that is a sequence or a choice is
/// printed in parentheses before the operator, so that the operator
/// applies to the whole of it.
pub proof fn lemma_quantified_group(n: GrammarNode)
    requires
        n is Optional || n is ZeroOrMore || n is OneOrMore,
        match n {
            GrammarNode::Optional(i) => *i is Sequence || *i is Choice,
            GrammarNode::ZeroOrMore(i) => *i is Sequence || *i is Choice,
            GrammarNode::OneOrMore(i) => *i is Sequence || *i is Choice,
            _ => false,
        },
    ensures
        fmt_nested(n).len() >= 3,
        fmt_nested(n)[0] == '(',
        fmt_nested(n)[fmt_nested(n).len() - 2] == ')',
        fmt_nested(n).last() == match n {
            GrammarNode::Optional(_) => '?',
            GrammarNode::ZeroOrMore(_) => '*',
            _ => '+',
        },
{
    reveal_strlit("(");
    reveal_strlit(")");
    reveal_strlit("?");
    reveal_strlit("*");
    reveal_strlit("+");
    let (inner, op) = match n {
        GrammarNode::Optional(i) => (*i, "?"@),
        GrammarNode::ZeroOrMore(i) => (*i, "*"@),
        GrammarNode::OneOrMore(i) => (*i, "+"@),
        _ => (n, "+"@),
    };
    let q = quant_inner(inner);
    assert(fmt_nested(n) == q + op);
    assert(q.len() >= 2 && q[0] == '(' && q.last() == ')');
    assert((q + op)[0] == q[0]);
    assert((q + op)[q.len() - 1] == q.last());
    assert((q + op).last() == op[0]);
}

/// Every element of a sequence is printed whole in the sequence's text,
/// in its nested form, set off from its neighbours by a space; a sequence
/// reads the same at the top of an alternative and nested.
pub proof fn lemma_sequence_element(n: GrammarNode, i: int)
    requires
        n is Sequence,
        0 <= i < n->Sequence_0@.len(),
    ensures
        fmt_top(n) == fmt_nested(n),
        exists|pre: Seq<char>, post: Seq<char>| fmt_nested(n) == pre + fmt_nested(n->Sequence_0@[i]) + post
            && (pre.len() == 0 || pre.last() == ' ')
            && (post.len() == 0 || post[0] == ' '),
{
    reveal_strlit(" ");
    let cs = n->Sequence_0@;
    assert(" "@ =~= seq![' ']);
    lemma_nested_list_index(cs);
    lemma_join_part(nested_list(cs), ' ', i);
    let (pre, post) = choose|pre: Seq<char>, post: Seq<char>| join(nested_list(cs), seq![' ']) == pre + nested_list(cs)[i] + post
        && (pre.len() == 0 || pre.last() == ' ')
        && (post.len() == 0 || post[0] == ' ');
    assert(fmt_nested(n) == pre + fmt_nested(cs[i]) + post);
}

} // verus!
