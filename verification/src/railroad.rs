//! Railroad diagrams of grammar rules: the tree of diagram combinators for
//! each rule, the warnings for undefined references, and the layout of a
//! document that stacks the rendered rules.

use vstd::prelude::*;
use vstd::string::*;
use crate::chars::{is_whitespace, unicode_whitespace};
use crate::nameset::NameSet;
use crate::nodes::{js, nt_names, nt_names_list, prec_kind_text, prec_level_text, GrammarNode, PrecKind, PrecLevel};
use crate::production::Production;
use crate::rules::{has_key, rules_find, rules_get_index, rules_len};
use crate::text::{chars_to_string, i64_to_decimal, int_decimal, lemma_seq_lt_total, lemma_seq_lt_trans, owned, seq_lt, str_eq, str_lt, str_to_chars, views};
use crate::util::trim_end;
use crate::types::{entries, key_pos, lemma_key_pos, Grammar};

verus! {

/// How links to other rules are written.
#[derive(Debug, Clone, Copy, PartialEq, Eq)]
pub enum LinkMode {
    /// All rules share one document; links are `#rule-<name>` anchors.
    SingleFile,
    /// Each rule has a file of its own; links are `<name>.svg`.
    Split,
}

/// A railroad-diagram combinator tree, as the renderer draws it.
#[derive(Debug)]
pub enum RailNode {
    /// The start marker of a diagram.
    Start,
    /// The end marker of a diagram.
    End,
    /// A terminal box with its label.
    Terminal(String),
    /// A non-terminal box, linked to the rule's diagram.
    NonTerminal { name: String, href: String },
    /// Children drawn one after another.
    Sequence(Vec<RailNode>),
    /// Alternatives drawn one above another.
    Choice(Vec<RailNode>),
    /// A bypassable node.
    Optional(Box<RailNode>),
    /// A node with a loop back over an empty separator.
    Repeat(Box<RailNode>),
    /// A node in a labelled box; `class` is the box's style class.
    Labeled { inner: Box<RailNode>, label: String, class: String },
}

/// The link target for rule `name` under `mode`.
pub open spec fn href_text(mode: LinkMode, name: Seq<char>) -> Seq<char> {
    match mode {
        LinkMode::SingleFile => "#rule-"@ + name,
        LinkMode::Split => name + ".svg"@,
    }
}

/// The label of an alias target: a rule name or a terminal verbatim,
/// anything else in its `grammar.js` form.
pub open spec fn alias_label_text(name: GrammarNode) -> Seq<char> {
    match name {
        GrammarNode::NonTerminal(n) => n@,
        GrammarNode::TerminalLiteral(s) => s@,
        GrammarNode::TerminalPattern(s) => s@,
        _ => js(name),
    }
}

/// The label of a precedence annotation, e.g. `prec.left(2)` or `prec.left`.
pub open spec fn prec_label_text(kind: PrecKind, level: Option<PrecLevel>) -> Seq<char> {
    match level {
        Some(l) => prec_kind_text(kind) + "("@ + prec_level_text(l) + ")"@,
        None => prec_kind_text(kind),
    }
}

/// The style class of an annotation box of kind `kind`.
pub open spec fn box_class(kind: Seq<char>) -> Seq<char> {
    "labeledbox annotation-"@ + kind
}

/// `r` is an annotation box labelled `label` of kind `kind` around a
/// drawing of `inner`.
pub open spec fn labeled_as(inner: GrammarNode, r: RailNode, label: Seq<char>, kind: Seq<char>, mode: LinkMode, annotate: bool) -> bool
    decreases inner, 1int,
{
    match r {
        RailNode::Labeled { inner: ri, label: l, class: c } => l@ == label && c@ == box_class(kind) && renders(inner, *ri, mode, annotate),
        _ => false,
    }
}

/// `r` draws `n`: terminals as boxes, rule references as linked boxes,
/// sequences, choices, options and repetitions as their combinators; the
/// tree-sitter annotations draw their body alone, or, when `annotate` is
/// set, inside a labelled box (a reserved-word set is never labelled).
pub open spec fn renders(n: GrammarNode, r: RailNode, mode: LinkMode, annotate: bool) -> bool
    decreases n, 0int,
{
    match n {
        GrammarNode::TerminalLiteral(s) => r matches RailNode::Terminal(t) && t@ == s@,
        GrammarNode::TerminalPattern(s) => r matches RailNode::Terminal(t) && t@ == s@,
        GrammarNode::NonTerminal(x) => r matches RailNode::NonTerminal { name, href } && name@ == x@ && href@ == href_text(mode, x@),
        GrammarNode::Sequence(cs) => match r {
            RailNode::Sequence(rs) => renders_list(cs@, rs@, mode, annotate),
            _ => false,
        },
        GrammarNode::Choice(cs) => match r {
            RailNode::Choice(rs) => renders_list(cs@, rs@, mode, annotate),
            _ => false,
        },
        GrammarNode::Optional(i) => match r {
            RailNode::Optional(ri) => renders(*i, *ri, mode, annotate),
            _ => false,
        },
        GrammarNode::OneOrMore(i) => match r {
            RailNode::Repeat(ri) => renders(*i, *ri, mode, annotate),
            _ => false,
        },
        GrammarNode::ZeroOrMore(i) => match r {
            RailNode::Optional(o) => match *o {
                RailNode::Repeat(ri) => renders(*i, *ri, mode, annotate),
                _ => false,
            },
            _ => false,
        },
        GrammarNode::Token(i) => if annotate {
            labeled_as(*i, r, "token"@, "token"@, mode, annotate)
        } else {
            renders(*i, r, mode, annotate)
        },
        GrammarNode::TokenImmediate(i) => if annotate {
            labeled_as(*i, r, "token.immediate"@, "token-immediate"@, mode, annotate)
        } else {
            renders(*i, r, mode, annotate)
        },
        GrammarNode::Field(name, i) => if annotate {
            labeled_as(*i, r, name@ + ":"@, "field"@, mode, annotate)
        } else {
            renders(*i, r, mode, annotate)
        },
        GrammarNode::Alias(b, name) => if annotate {
            labeled_as(*b, r, "=> "@ + alias_label_text(*name), "alias"@, mode, annotate)
        } else {
            renders(*b, r, mode, annotate)
        },
        GrammarNode::Prec(k, l, i) => if annotate {
            labeled_as(*i, r, prec_label_text(k, l), "prec"@, mode, annotate)
        } else {
            renders(*i, r, mode, annotate)
        },
        GrammarNode::Reserved(_, i) => renders(*i, r, mode, annotate),
    }
}

/// `rs` draws the nodes of `cs`, one for one.
pub open spec fn renders_list(cs: Seq<GrammarNode>, rs: Seq<RailNode>, mode: LinkMode, annotate: bool) -> bool
    decreases cs, 0int,
{
    if cs.len() == 0 {
        rs.len() == 0
    } else {
        rs.len() > 0 && renders_list(cs.drop_last(), rs.drop_last(), mode, annotate)
            && renders(cs.last(), rs.last(), mode, annotate)
    }
}

/// The warning for a reference to rule `name`, which is not defined.
pub open spec fn undefined_warning(name: Seq<char>) -> Seq<char> {
    "warning: rule '"@ + name + "' referenced but not defined"@
}

/// The warnings for the names of `names` missing from `defined`, in order.
pub open spec fn undefined_warnings(names: Seq<Seq<char>>, defined: Set<Seq<char>>) -> Seq<Seq<char>>
    decreases names.len(),
{
    if names.len() == 0 {
        seq![]
    } else {
        (if defined.contains(names[0]) { seq![] } else { seq![undefined_warning(names[0])] })
            + undefined_warnings(names.drop_first(), defined)
    }
}

/// The warnings of a concatenation are the warnings of each part.
pub proof fn lemma_undefined_warnings_concat(a: Seq<Seq<char>>, b: Seq<Seq<char>>, defined: Set<Seq<char>>)
    ensures
        undefined_warnings(a + b, defined) == undefined_warnings(a, defined) + undefined_warnings(b, defined),
    decreases a.len(),
{
    if a.len() == 0 {
        assert(a + b =~= b);
    } else {
        lemma_undefined_warnings_concat(a.drop_first(), b, defined);
        assert((a + b).drop_first() =~= a.drop_first() + b);
        assert((a + b)[0] == a[0]);
    }
}

impl LinkMode {
    /// The link target for rule `name`.
    pub fn href_for(&self, name: &str) -> (r: String)
        ensures
            r@ == href_text(*self, name@),
    {
        match self {
            LinkMode::SingleFile => {
                let mut out = String::from_str("#rule-");
                out.append(name);
                out
            },
            LinkMode::Split => {
                let mut out = String::from_str(name);
                out.append(".svg");
                out
            },
        }
    }
}

/// The label of an alias target.
fn alias_label(name: &GrammarNode) -> (r: String)
    ensures
        r@ == alias_label_text(*name),
{
    match name {
        GrammarNode::NonTerminal(n) => owned(n.as_str()),
        GrammarNode::TerminalLiteral(s) => owned(s.as_str()),
        GrammarNode::TerminalPattern(s) => owned(s.as_str()),
        _ => name.to_js(),
    }
}

/// The label of a precedence annotation.
fn prec_label(kind: &PrecKind, level: &Option<PrecLevel>) -> (r: String)
    ensures
        r@ == prec_label_text(*kind, *level),
{
    let mut out = String::from_str(kind.as_str());
    match level {
        Some(l) => {
            out.append("(");
            out.append(l.to_text().as_str());
            out.append(")");
        },
        None => {},
    }
    out
}

/// `inner` in an annotation box labelled `label` of kind `kind`.
fn labeled(inner: RailNode, label: String, kind: &str) -> (r: RailNode)
    ensures
        r matches RailNode::Labeled { inner: ri, label: l, class: c } && *ri == inner && l@ == label@ && c@ == box_class(kind@),
{
    let mut class = String::from_str("labeledbox annotation-");
    class.append(kind);
    RailNode::Labeled { inner: Box::new(inner), label, class }
}

/// Converts `node` into its diagram. Every reference to a rule missing
/// from `defined` still draws a linked box, and appends
/// `warning: rule 'X' referenced but not defined` to `warnings`, in the
/// order the references occur.
pub fn node_to_railroad(node: &GrammarNode, mode: &LinkMode, defined: &NameSet, warnings: &mut Vec<String>, annotate: bool) -> (r: RailNode)
    ensures
        renders(*node, r, *mode, annotate),
        views(final(warnings)@) == views(old(warnings)@) + undefined_warnings(nt_names(*node), defined@.to_set()),
    decreases node,
{
    let ghost w0 = views(warnings@);
    let ghost d = defined@.to_set();
    match node {
        GrammarNode::TerminalLiteral(s) => {
            assert(undefined_warnings(nt_names(*node), d) =~= seq![]);
            assert(views(warnings@) =~= w0 + seq![]);
            RailNode::Terminal(owned(s.as_str()))
        },
        GrammarNode::TerminalPattern(s) => {
            assert(undefined_warnings(nt_names(*node), d) =~= seq![]);
            assert(views(warnings@) =~= w0 + seq![]);
            RailNode::Terminal(owned(s.as_str()))
        },
        GrammarNode::NonTerminal(name) => {
            assert(nt_names(*node) =~= seq![name@]);
            assert(seq![name@].drop_first() =~= Seq::<Seq<char>>::empty());
            assert(undefined_warnings(Seq::<Seq<char>>::empty(), d) =~= Seq::<Seq<char>>::empty());
            assert(undefined_warnings(seq![name@], d) =~= (if d.contains(name@) { seq![] } else { seq![undefined_warning(name@)] }));
            assert(d.contains(name@) == defined@.contains(name@));
            if !defined.contains(name.as_str()) {
                let mut msg = String::from_str("warning: rule '");
                msg.append(name.as_str());
                msg.append("' referenced but not defined");
                warnings.push(msg);
                assert(views(warnings@) =~= w0 + seq![undefined_warning(name@)]);
            } else {
                assert(views(warnings@) =~= w0 + Seq::<Seq<char>>::empty());
            }
            RailNode::NonTerminal { name: owned(name.as_str()), href: mode.href_for(name.as_str()) }
        },
        GrammarNode::Sequence(children) => {
            let rs = node_list_to_railroad(children, mode, defined, warnings, annotate);
            RailNode::Sequence(rs)
        },
        GrammarNode::Choice(children) => {
            let rs = node_list_to_railroad(children, mode, defined, warnings, annotate);
            RailNode::Choice(rs)
        },
        GrammarNode::Optional(inner) => {
            let ri = node_to_railroad(inner, mode, defined, warnings, annotate);
            RailNode::Optional(Box::new(ri))
        },
        GrammarNode::OneOrMore(inner) => {
            let ri = node_to_railroad(inner, mode, defined, warnings, annotate);
            RailNode::Repeat(Box::new(ri))
        },
        GrammarNode::ZeroOrMore(inner) => {
            let ri = node_to_railroad(inner, mode, defined, warnings, annotate);
            RailNode::Optional(Box::new(RailNode::Repeat(Box::new(ri))))
        },
        GrammarNode::Token(inner) => {
            let ri = node_to_railroad(inner, mode, defined, warnings, annotate);
            if annotate {
                let r = labeled(ri, String::from_str("token"), "token");
                assert(labeled_as(**inner, r, "token"@, "token"@, *mode, annotate));
                r
            } else {
                ri
            }
        },
        GrammarNode::TokenImmediate(inner) => {
            let ri = node_to_railroad(inner, mode, defined, warnings, annotate);
            if annotate {
                let r = labeled(ri, String::from_str("token.immediate"), "token-immediate");
                assert(labeled_as(**inner, r, "token.immediate"@, "token-immediate"@, *mode, annotate));
                r
            } else {
                ri
            }
        },
        GrammarNode::Field(name, inner) => {
            let ri = node_to_railroad(inner, mode, defined, warnings, annotate);
            if annotate {
                let mut label = String::from_str(name.as_str());
                label.append(":");
                let r = labeled(ri, label, "field");
                assert(labeled_as(**inner, r, name@ + ":"@, "field"@, *mode, annotate));
                r
            } else {
                ri
            }
        },
        GrammarNode::Alias(body, name) => {
            let ri = node_to_railroad(body, mode, defined, warnings, annotate);
            if annotate {
                let mut label = String::from_str("=> ");
                label.append(alias_label(name).as_str());
                let r = labeled(ri, label, "alias");
                assert(labeled_as(**body, r, "=> "@ + alias_label_text(**name), "alias"@, *mode, annotate));
                r
            } else {
                ri
            }
        },
        GrammarNode::Prec(kind, level, inner) => {
            let ri = node_to_railroad(inner, mode, defined, warnings, annotate);
            if annotate {
                let r = labeled(ri, prec_label(kind, level), "prec");
                assert(labeled_as(**inner, r, prec_label_text(*kind, *level), "prec"@, *mode, annotate));
                r
            } else {
                ri
            }
        },
        GrammarNode::Reserved(_, inner) => node_to_railroad(inner, mode, defined, warnings, annotate),
    }
}

/// The diagrams of `children`, one for one, with their warnings appended
/// to `warnings` in order.
fn node_list_to_railroad(children: &Vec<GrammarNode>, mode: &LinkMode, defined: &NameSet, warnings: &mut Vec<String>, annotate: bool) -> (r: Vec<RailNode>)
    ensures
        renders_list(children@, r@, *mode, annotate),
        views(final(warnings)@) == views(old(warnings)@) + undefined_warnings(nt_names_list(children@), defined@.to_set()),
    decreases children,
{
    let ghost d = defined@.to_set();
    let ghost w0 = views(warnings@);
    let mut out: Vec<RailNode> = Vec::new();
    let mut i: usize = 0;
    assert(children@.skip(0) =~= children@);
    assert(children@.take(0) =~= Seq::<GrammarNode>::empty());
    while i < children.len()
        invariant
            0 <= i <= children.len(),
            out@.len() == i,
            renders_list(children@.take(i as int), out@, *mode, annotate),
            d == defined@.to_set(),
            w0 + undefined_warnings(nt_names_list(children@), d)
                == views(warnings@) + undefined_warnings(nt_names_list(children@.skip(i as int)), d),
        decreases children.len() - i,
    {
        let ghost wb = views(warnings@);
        let ghost ob = out@;
        proof { assert(decreases_to!(*children => children[i as int])); }
        let r = node_to_railroad(&children[i], mode, defined, warnings, annotate);
        out.push(r);
        proof {
            let rest = children@.skip(i as int);
            assert(rest[0] == children@[i as int]);
            assert(rest.drop_first() =~= children@.skip(i + 1));
            lemma_undefined_warnings_concat(nt_names(rest[0]), nt_names_list(rest.drop_first()), d);
            assert(wb + undefined_warnings(nt_names_list(rest), d)
                =~= views(warnings@) + undefined_warnings(nt_names_list(children@.skip(i + 1)), d));
            let t = children@.take(i as int + 1);
            assert(t.drop_last() =~= children@.take(i as int));
            assert(out@.drop_last() =~= ob);
        }
        i += 1;
    }
    assert(children@.take(children@.len() as int) =~= children@);
    assert(children@.skip(children@.len() as int) =~= Seq::<GrammarNode>::empty());
    assert(views(warnings@) + undefined_warnings(Seq::<Seq<char>>::empty(), d) =~= views(warnings@));
    out
}

// ── Whole rules ──────────────────────────────────────────────────────────

/// `r` is the diagram of a rule with body `body`: the body between a start
/// and an end marker.
pub open spec fn framed(body: GrammarNode, r: RailNode, mode: LinkMode, annotate: bool) -> bool {
    match r {
        RailNode::Sequence(v) => v@.len() == 3 && v@[0] is Start && v@[2] is End && renders(body, v@[1], mode, annotate),
        _ => false,
    }
}

/// The rules drawn for `only`: every rule in declaration order, or the
/// rule named `only`; nothing when no rule has that name.
pub open spec fn selected_rules(g: Grammar, only: Option<Seq<char>>) -> Option<Seq<(String, Production)>> {
    match only {
        None => Some(entries(g)),
        Some(n) => if has_key(entries(g), n) { Some(seq![entries(g)[key_pos(entries(g), n)]]) } else { None },
    }
}

/// The names of the rules of `g`.
pub open spec fn rule_names(g: Grammar) -> Set<Seq<char>> {
    Set::new(|k: Seq<char>| has_key(entries(g), k))
}

/// The warnings of the bodies of `es`, rule after rule.
pub open spec fn rules_warnings(es: Seq<(String, Production)>, defined: Set<Seq<char>>) -> Seq<Seq<char>>
    decreases es.len(),
{
    if es.len() == 0 {
        seq![]
    } else {
        rules_warnings(es.drop_last(), defined) + undefined_warnings(nt_names(es.last().1.body), defined)
    }
}

/// The message for a rule `name` that the grammar does not define.
pub open spec fn rule_not_found(name: Seq<char>) -> Seq<char> {
    "rule '"@ + name + "' not found in grammar"@
}

/// Each element comes strictly before the next, so none occurs twice.
pub open spec fn strictly_sorted(v: Seq<Seq<char>>) -> bool {
    forall|a: int, b: int| 0 <= a < b < v.len() ==> seq_lt(#[trigger] v[a], #[trigger] v[b])
}

/// Inserting an element keeps the others and adds it.
proof fn lemma_insert_to_set(v: Seq<Seq<char>>, p: int, x: Seq<char>)
    requires
        0 <= p <= v.len(),
    ensures
        v.insert(p, x).to_set() == v.to_set().insert(x),
{
    let w = v.insert(p, x);
    assert forall|y: Seq<char>| w.to_set().contains(y) <==> v.to_set().insert(x).contains(y) by {
        if w.contains(y) {
            let a = choose|a: int| 0 <= a < w.len() && w[a] == y;
            if a < p {
                assert(v[a] == y);
            } else if a > p {
                assert(v[a - 1] == y);
            }
        }
        if v.contains(y) {
            let b = choose|b: int| 0 <= b < v.len() && v[b] == y;
            if b < p {
                assert(w[b] == y);
            } else {
                assert(w[b + 1] == y);
            }
        }
        if y == x {
            assert(w[p] == x);
        }
    }
    assert(w.to_set() =~= v.to_set().insert(x));
}

/// Adds `s` to the strictly sorted `v` unless it is there already.
fn insert_sorted(v: &mut Vec<String>, s: &str)
    requires
        strictly_sorted(views(old(v)@)),
    ensures
        strictly_sorted(views(final(v)@)),
        views(final(v)@).to_set() == views(old(v)@).to_set().insert(s@),
{
    let mut p: usize = 0;
    while p < v.len() && str_lt(v[p].as_str(), s)
        invariant
            0 <= p <= v@.len(),
            v@ == old(v)@,
            forall|a: int| 0 <= a < p ==> seq_lt(#[trigger] views(v@)[a], s@),
        decreases v@.len() - p,
    {
        p += 1;
    }
    if p < v.len() && str_eq(v[p].as_str(), s) {
        proof {
            assert(views(v@)[p as int] == s@);
            assert(views(v@).to_set() =~= views(v@).to_set().insert(s@));
        }
        return;
    }
    let ghost before = views(v@);
    proof {
        if p < v@.len() {
            lemma_seq_lt_total(views(v@)[p as int], s@);
        }
    }
    v.insert(p, owned(s));
    proof {
        let w = views(v@);
        assert(w =~= before.insert(p as int, s@));
        lemma_insert_to_set(before, p as int, s@);
        assert forall|a: int, b: int| 0 <= a < b < w.len() implies seq_lt(#[trigger] w[a], #[trigger] w[b]) by {
            if b < p {
                assert(seq_lt(before[a], before[b]));
            } else if b == p {
                assert(seq_lt(before[a], s@));
            } else if a < p {
                assert(seq_lt(before[a], s@));
                if b - 1 > p {
                    assert(seq_lt(before[p as int], before[b - 1]));
                    lemma_seq_lt_trans(s@, before[p as int], before[b - 1]);
                }
                lemma_seq_lt_trans(before[a], s@, before[b - 1]);
            } else if a == p {
                if b - 1 > p {
                    assert(seq_lt(before[p as int], before[b - 1]));
                    lemma_seq_lt_trans(s@, before[p as int], before[b - 1]);
                }
            } else {
                assert(seq_lt(before[a - 1], before[b - 1]));
            }
        }
    }
}

/// The distinct elements of `items`, sorted.
pub fn sorted_unique(items: &Vec<String>) -> (r: Vec<String>)
    ensures
        strictly_sorted(views(r@)),
        views(r@).to_set() == views(items@).to_set(),
{
    let mut out: Vec<String> = Vec::new();
    let mut i: usize = 0;
    assert(views(out@).to_set() =~= views(items@.take(0)).to_set());
    while i < items.len()
        invariant
            0 <= i <= items@.len(),
            strictly_sorted(views(out@)),
            views(out@).to_set() == views(items@.take(i as int)).to_set(),
        decreases items@.len() - i,
    {
        insert_sorted(&mut out, items[i].as_str());
        proof {
            let t = views(items@.take(i as int + 1));
            assert(t =~= views(items@.take(i as int)).push(items@[i as int]@));
            assert(views(items@.take(i as int)).push(items@[i as int]@)
                =~= views(items@.take(i as int)).insert(i as int, items@[i as int]@));
            lemma_insert_to_set(views(items@.take(i as int)), i as int, items@[i as int]@);
        }
        i += 1;
    }
    assert(items@.take(items@.len() as int) =~= items@);
    out
}

/// The diagrams of the rules at positions `lo` to `hi` of `grammar`, and
/// their warnings in order.
fn diagrams_between(grammar: &Grammar, lo: usize, hi: usize, mode: &LinkMode, defined: &NameSet, annotate: bool)
    -> (r: (Vec<(String, RailNode)>, Vec<String>))
    requires
        lo <= hi <= entries(*grammar).len(),
    ensures
        r.0@.len() == hi - lo,
        forall|j: int| 0 <= j < hi - lo ==> (#[trigger] r.0@[j]).0@ == entries(*grammar)[lo + j].0@
            && framed(entries(*grammar)[lo + j].1.body, r.0@[j].1, *mode, annotate),
        views(r.1@) == rules_warnings(entries(*grammar).subrange(lo as int, hi as int), defined@.to_set()),
{
    let ghost es = entries(*grammar);
    let ghost d = defined@.to_set();
    let n = rules_len(&grammar.productions);
    let mut raw: Vec<String> = Vec::new();
    let mut ds: Vec<(String, RailNode)> = Vec::new();
    let mut i: usize = lo;
    assert(es.subrange(lo as int, lo as int) =~= Seq::<(String, Production)>::empty());
    assert(views(raw@) =~= Seq::<Seq<char>>::empty());
    while i < hi
        invariant
            lo <= i <= hi <= n,
            n == es.len(),
            es == entries(*grammar),
            d == defined@.to_set(),
            ds@.len() == i - lo,
            forall|j: int| 0 <= j < i - lo ==> (#[trigger] ds@[j]).0@ == es[lo + j].0@
                && framed(es[lo + j].1.body, ds@[j].1, *mode, annotate),
            views(raw@) == rules_warnings(es.subrange(lo as int, i as int), d),
        decreases hi - i,
    {
        let (name, p) = rules_get_index(&grammar.productions, i);
        let body = node_to_railroad(&p.body, mode, defined, &mut raw, annotate);
        let mut parts: Vec<RailNode> = Vec::new();
        parts.push(RailNode::Start);
        parts.push(body);
        parts.push(RailNode::End);
        let diagram = RailNode::Sequence(parts);
        let ghost before = ds@;
        ds.push((owned(name.as_str()), diagram));
        proof {
            assert(es[lo + i - lo] == es[i as int]);
            assert(framed(es[lo + i - lo].1.body, ds@[i - lo].1, *mode, annotate));
            assert forall|j: int| 0 <= j < i + 1 - lo implies (#[trigger] ds@[j]).0@ == es[lo + j].0@
                && framed(es[lo + j].1.body, ds@[j].1, *mode, annotate) by {
                if j < i - lo {
                    assert(ds@[j] == before[j]);
                }
            }
            let t = es.subrange(lo as int, i as int + 1);
            assert(t.drop_last() =~= es.subrange(lo as int, i as int));
            assert(t.last() == es[i as int]);
        }
        i += 1;
    }
    (ds, raw)
}

/// The diagrams of the rules of `grammar`: every rule in declaration
/// order, or only the rule named `only_rule`, each as its body between a
/// start and an end marker, with links drawn as `mode` says. Beside them,
/// the warnings for references to undefined rules, sorted and without
/// repetition. Fails when `only_rule` names no rule of the grammar.
pub fn rule_diagrams(grammar: &Grammar, only_rule: Option<&str>, mode: &LinkMode, annotate: bool)
    -> (r: Result<(Vec<(String, RailNode)>, Vec<String>), String>)
    ensures
        match only_rule {
            Some(n) => selected_rules(*grammar, Some(n@)) is None <==> r is Err,
            None => r is Ok,
        },
        r matches Err(e) ==> (only_rule matches Some(n) && e@ == rule_not_found(n@)),
        r matches Ok((ds, ws)) ==> {
            let sel = selected_rules(*grammar, match only_rule { Some(n) => Some(n@), None => None }).unwrap();
            &&& ds@.len() == sel.len()
            &&& forall|i: int| 0 <= i < sel.len() ==> (#[trigger] ds@[i]).0@ == sel[i].0@
                && framed(sel[i].1.body, ds@[i].1, *mode, annotate)
            &&& strictly_sorted(views(ws@))
            &&& views(ws@).to_set() == rules_warnings(sel, rule_names(*grammar)).to_set()
        },
{
    let defined = grammar.known_rules();
    let ghost es = entries(*grammar);
    let ghost d = defined@.to_set();
    assert(d =~= rule_names(*grammar));
    let n = rules_len(&grammar.productions);
    let (lo, hi) = match only_rule {
        None => (0, n),
        Some(name) => match rules_find(&grammar.productions, name) {
            Some(i) => {
                proof {
                    lemma_key_pos(es, name@);
                    assert(key_pos(es, name@) == i as int);
                }
                (i, i + 1)
            },
            None => {
                let mut msg = String::from_str("rule '");
                msg.append(name);
                msg.append("' not found in grammar");
                return Err(msg);
            },
        },
    };
    let ghost sel = es.subrange(lo as int, hi as int);
    proof {
        match only_rule {
            None => assert(sel =~= es),
            Some(name) => assert(sel =~= seq![es[key_pos(es, name@)]]),
        }
    }
    let (ds, raw) = diagrams_between(grammar, lo, hi, mode, &defined, annotate);
    proof {
        assert forall|j: int| 0 <= j < sel.len() implies (#[trigger] ds@[j]).0@ == sel[j].0@
            && framed(sel[j].1.body, ds@[j].1, *mode, annotate) by {
            assert(sel[j] == es[lo + j]);
        }
    }
    let ws = sorted_unique(&raw);
    Ok((ds, ws))
}

// ── The combined document ────────────────────────────────────────────────

/// Height in pixels kept above each diagram for the rule's name.
pub const LABEL_HEIGHT: i64 = 24;

/// Height in pixels of the gap between two rules.
pub const RULE_GAP: i64 = 16;

/// The style rule added when annotations are drawn: the annotation boxes'
/// faint fill, in a syntax that every SVG viewer reads.
pub fn annotation_css() -> (r: &'static str)
    ensures
        r@ == "svg.railroad g.labeledbox > rect { fill: rgb(90, 90, 150); fill-opacity: .1; }"@,
{
    "svg.railroad g.labeledbox > rect { fill: rgb(90, 90, 150); fill-opacity: .1; }"
}

/// The position of the first `c` in `s`, or -1.
pub open spec fn index_of_char(s: Seq<char>, c: char) -> int
    decreases s.len(),
{
    if s.len() == 0 {
        -1
    } else if s[0] == c {
        0
    } else {
        let r = index_of_char(s.drop_first(), c);
        if r < 0 { -1 } else { r + 1 }
    }
}

/// `s` without leading whitespace (`str::trim_start`).
pub open spec fn trim_start(s: Seq<char>) -> Seq<char>
    decreases s.len(),
{
    if s.len() > 0 && unicode_whitespace(s[0]) {
        trim_start(s.drop_first())
    } else {
        s
    }
}

/// Whether `s` begins with `<rect`.
pub open spec fn starts_with_rect(s: Seq<char>) -> bool {
    s.len() >= 5 && s[0] == '<' && s[1] == 'r' && s[2] == 'e' && s[3] == 'c' && s[4] == 't'
}

/// Whether `</svg>` begins at position `k` of `s`.
pub open spec fn close_tag_at(s: Seq<char>, k: int) -> bool {
    0 <= k && k + 6 <= s.len() && s[k] == '<' && s[k + 1] == '/' && s[k + 2] == 's' && s[k + 3] == 'v'
        && s[k + 4] == 'g' && s[k + 5] == '>'
}

/// The last position before `k` where `</svg>` begins in `s`, or -1.
pub open spec fn last_close_before(s: Seq<char>, k: int) -> int
    decreases k,
{
    if k <= 0 {
        -1
    } else if close_tag_at(s, k - 1) {
        k - 1
    } else {
        last_close_before(s, k - 1)
    }
}

/// The drawing inside a rendered diagram: the text after the opening
/// `<svg …>` tag and after a leading `<rect …>` background, up to the last
/// `</svg>`, with surrounding whitespace removed.
pub open spec fn diagram_content(svg: Seq<char>) -> Seq<char> {
    let i = index_of_char(svg, '>');
    if i < 0 {
        svg
    } else {
        let a = trim_start(svg.skip(i + 1));
        let b = if starts_with_rect(a) {
            let j = index_of_char(a, '>');
            if j < 0 { a } else { trim_start(a.skip(j + 1)) }
        } else {
            a
        };
        let k = last_close_before(b, b.len() as int);
        if k < 0 { b } else { trim_end(b.take(k)) }
    }
}

/// `index_of_char` finds the first occurrence.
proof fn lemma_index_of_char(s: Seq<char>, c: char, i: int)
    requires
        0 <= i <= s.len(),
        forall|j: int| 0 <= j < i ==> s[j] != c,
        i < s.len() ==> s[i] == c,
    ensures
        index_of_char(s, c) == if i < s.len() { i } else { -1 },
    decreases s.len(),
{
    if s.len() > 0 && s[0] != c {
        lemma_index_of_char(s.drop_first(), c, i - 1);
    }
}

/// The position of the first `c` in `s`, or `s.len()`.
fn find_char(s: &Vec<char>, c: char) -> (r: usize)
    ensures
        r <= s@.len(),
        index_of_char(s@, c) == if r < s@.len() { r as int } else { -1 },
{
    let mut i: usize = 0;
    while i < s.len() && s[i] != c
        invariant
            0 <= i <= s@.len(),
            forall|j: int| 0 <= j < i ==> s@[j] != c,
        decreases s@.len() - i,
    {
        i += 1;
    }
    proof { lemma_index_of_char(s@, c, i as int); }
    i
}

/// `s` from position `from` on, without leading whitespace.
fn trimmed_tail(s: &Vec<char>, from: usize) -> (r: Vec<char>)
    requires
        from <= s@.len(),
    ensures
        r@ == trim_start(s@.skip(from as int)),
{
    let mut i: usize = from;
    while i < s.len() && is_whitespace(s[i])
        invariant
            from <= i <= s@.len(),
            trim_start(s@.skip(from as int)) == trim_start(s@.skip(i as int)),
        decreases s@.len() - i,
    {
        assert(s@.skip(i as int).drop_first() =~= s@.skip(i + 1));
        i += 1;
    }
    let mut out: Vec<char> = Vec::new();
    let mut j: usize = i;
    while j < s.len()
        invariant
            i <= j <= s@.len(),
            out@ == s@.subrange(i as int, j as int),
        decreases s@.len() - j,
    {
        out.push(s[j]);
        assert(out@ =~= s@.subrange(i as int, j + 1));
        j += 1;
    }
    assert(out@ =~= s@.skip(i as int));
    out
}

/// The drawing inside a rendered diagram, as [`diagram_content`] says.
pub fn extract_diagram_content(svg: &str) -> (r: String)
    ensures
        r@ == diagram_content(svg@),
{
    let cs = str_to_chars(svg);
    let i = find_char(&cs, '>');
    if i == cs.len() {
        return owned(svg);
    }
    let a = trimmed_tail(&cs, i + 1);
    let b = if a.len() >= 5 && a[0] == '<' && a[1] == 'r' && a[2] == 'e' && a[3] == 'c' && a[4] == 't' {
        let j = find_char(&a, '>');
        if j == a.len() {
            a
        } else {
            trimmed_tail(&a, j + 1)
        }
    } else {
        a
    };
    let mut k: usize = b.len();
    while k > 0 && !(b.len() - k >= 5 && b[k - 1] == '<' && b[k] == '/' && b[k + 1] == 's' && b[k + 2] == 'v'
        && b[k + 3] == 'g' && b[k + 4] == '>')
        invariant
            k <= b@.len(),
            last_close_before(b@, b@.len() as int) == last_close_before(b@, k as int),
        decreases k,
    {
        k -= 1;
    }
    if k == 0 {
        return chars_to_string(b.as_slice());
    }
    let mut out: Vec<char> = Vec::new();
    let mut j: usize = 0;
    while j < k - 1
        invariant
            0 <= j <= k - 1,
            k - 1 <= b@.len(),
            out@ == b@.take(j as int),
        decreases k - 1 - j,
    {
        out.push(b[j]);
        assert(out@ =~= b@.take(j + 1));
        j += 1;
    }
    while out.len() > 0 && is_whitespace(out[out.len() - 1])
        invariant
            trim_end(out@) == trim_end(b@.take(k - 1)),
        decreases out.len(),
    {
        let ghost before = out@;
        out.pop();
        assert(out@ =~= before.drop_last());
    }
    chars_to_string(out.as_slice())
}

/// One rendered rule diagram: its drawing and its size in pixels.
#[derive(Debug)]
pub struct RenderedRule {
    /// The rule's name.
    pub name: String,
    /// The drawing, without its enclosing `<svg>` element.
    pub content: String,
    /// The diagram's width.
    pub width: i64,
    /// The diagram's height.
    pub height: i64,
}

/// The width of the combined document: that of the widest diagram, and
/// at least 200.
pub open spec fn widest(rs: Seq<RenderedRule>) -> int
    decreases rs.len(),
{
    if rs.len() == 0 {
        200
    } else {
        let w = widest(rs.drop_last());
        if rs.last().width > w { rs.last().width as int } else { w }
    }
}

/// The height of the rules of `rs` stacked, each with its label and gap.
pub open spec fn stacked_height(rs: Seq<RenderedRule>) -> int
    decreases rs.len(),
{
    if rs.len() == 0 {
        0
    } else {
        stacked_height(rs.drop_last()) + LABEL_HEIGHT + rs.last().height + RULE_GAP
    }
}

/// The block of one rule placed at height `y`: an anchor group with the
/// rule's name as label above its drawing.
pub open spec fn rule_block(r: RenderedRule, y: int) -> Seq<char> {
    "<g id=\"rule-"@ + r.name@ + "\" transform=\"translate(0, "@ + int_decimal(y) + ")\">\n"@
        + "<text x=\"10\" y=\""@ + int_decimal(LABEL_HEIGHT - 6)
        + "\" style=\"font:bold 14px monospace;text-anchor:start\">"@ + r.name@ + "</text>\n"@
        + "<g transform=\"translate(0, "@ + int_decimal(LABEL_HEIGHT as int) + ")\">\n"@
        + r.content@ + "\n</g>\n</g>\n"@
}

/// The blocks of the rules of `rs`, each below the one before.
pub open spec fn rule_blocks(rs: Seq<RenderedRule>) -> Seq<char>
    decreases rs.len(),
{
    if rs.len() == 0 {
        seq![]
    } else {
        rule_blocks(rs.drop_last()) + rule_block(rs.last(), stacked_height(rs.drop_last()))
    }
}

/// The combined document: the rules of `rs` stacked, the stylesheet `css`
/// once at the top, followed by the annotation rule when `annotate` is set.
pub open spec fn single_file_text(rs: Seq<RenderedRule>, css: Seq<char>, annotate: bool) -> Seq<char> {
    "<svg xmlns=\"http://www.w3.org/2000/svg\" xmlns:xlink=\"http://www.w3.org/1999/xlink\" class=\"railroad\" viewBox=\"0 0 "@
        + int_decimal(widest(rs)) + " "@ + int_decimal(stacked_height(rs)) + "\">\n"@
        + "<style>"@ + css
        + (if annotate { "svg.railroad g.labeledbox > rect { fill: rgb(90, 90, 150); fill-opacity: .1; }"@ } else { seq![] })
        + "</style>\n"@ + "<rect width=\"100%\" height=\"100%\" class=\"railroad_canvas\"/>\n"@
        + rule_blocks(rs) + "</svg>"@
}

/// The stacked height of a prefix is at most that of the whole.
proof fn lemma_stacked_prefix(rs: Seq<RenderedRule>, i: int)
    requires
        0 <= i <= rs.len(),
        forall|j: int| 0 <= j < rs.len() ==> (#[trigger] rs[j]).height >= 0,
    ensures
        stacked_height(rs.take(i)) <= stacked_height(rs),
        stacked_height(rs) >= 0,
    decreases rs.len(),
{
    if rs.len() > 0 {
        let d = rs.drop_last();
        assert forall|j: int| 0 <= j < d.len() implies (#[trigger] d[j]).height >= 0 by {
            assert(d[j] == rs[j]);
        }
        if i == rs.len() {
            assert(rs.take(i) =~= rs);
            lemma_stacked_prefix(d, 0);
        } else {
            lemma_stacked_prefix(d, i);
            assert(d.take(i) =~= rs.take(i));
        }
    }
}

/// Appends the block of `rule` placed at height `y` to `out`.
fn push_rule_block(out: &mut String, rule: &RenderedRule, y: i64)
    ensures
        final(out)@ == old(out)@ + rule_block(*rule, y as int),
{
    out.append("<g id=\"rule-");
    out.append(rule.name.as_str());
    out.append("\" transform=\"translate(0, ");
    out.append(i64_to_decimal(y).as_str());
    out.append(")\">\n");
    out.append("<text x=\"10\" y=\"");
    out.append(i64_to_decimal(LABEL_HEIGHT - 6).as_str());
    out.append("\" style=\"font:bold 14px monospace;text-anchor:start\">");
    out.append(rule.name.as_str());
    out.append("</text>\n");
    out.append("<g transform=\"translate(0, ");
    out.append(i64_to_decimal(LABEL_HEIGHT).as_str());
    out.append(")\">\n");
    out.append(rule.content.as_str());
    out.append("\n</g>\n</g>\n");
}

/// Stacks the rendered rules of `rules` into one document; `css` is the
/// diagrams' stylesheet, embedded once.
pub fn compose_single_file(rules: &Vec<RenderedRule>, css: &str, annotate: bool) -> (r: String)
    requires
        forall|j: int| 0 <= j < rules@.len() ==> (#[trigger] rules@[j]).height >= 0,
        stacked_height(rules@) <= i64::MAX,
    ensures
        r@ == single_file_text(rules@, css@, annotate),
{
    let ghost rs = rules@;
    let mut max_width: i64 = 200;
    let mut total: i64 = 0;
    let mut i: usize = 0;
    proof { lemma_stacked_prefix(rs, 0); }
    while i < rules.len()
        invariant
            0 <= i <= rs.len(),
            rs == rules@,
            forall|j: int| 0 <= j < rs.len() ==> (#[trigger] rs[j]).height >= 0,
            stacked_height(rs) <= i64::MAX,
            max_width == widest(rs.take(i as int)),
            total == stacked_height(rs.take(i as int)),
        decreases rs.len() - i,
    {
        proof {
            lemma_stacked_prefix(rs, i + 1);
            let t = rs.take(i + 1);
            assert(t.drop_last() =~= rs.take(i as int));
            assert(t.last() == rs[i as int]);
        }
        if rules[i].width > max_width {
            max_width = rules[i].width;
        }
        total = total + LABEL_HEIGHT + rules[i].height + RULE_GAP;
        i += 1;
    }
    assert(rs.take(rs.len() as int) =~= rs);
    let mut out = String::from_str("<svg xmlns=\"http://www.w3.org/2000/svg\" xmlns:xlink=\"http://www.w3.org/1999/xlink\" class=\"railroad\" viewBox=\"0 0 ");
    out.append(i64_to_decimal(max_width).as_str());
    out.append(" ");
    out.append(i64_to_decimal(total).as_str());
    out.append("\">\n");
    out.append("<style>");
    out.append(css);
    if annotate {
        out.append(annotation_css());
    }
    out.append("</style>\n");
    out.append("<rect width=\"100%\" height=\"100%\" class=\"railroad_canvas\"/>\n");
    let ghost head = out@;
    let mut y: i64 = 0;
    let mut k: usize = 0;
    while k < rules.len()
        invariant
            0 <= k <= rs.len(),
            rs == rules@,
            forall|j: int| 0 <= j < rs.len() ==> (#[trigger] rs[j]).height >= 0,
            stacked_height(rs) <= i64::MAX,
            y == stacked_height(rs.take(k as int)),
            out@ == head + rule_blocks(rs.take(k as int)),
        decreases rs.len() - k,
    {
        let rule = &rules[k];
        push_rule_block(&mut out, rule, y);
        proof {
            lemma_stacked_prefix(rs, k + 1);
            let t = rs.take(k + 1);
            assert(t.drop_last() =~= rs.take(k as int));
            assert(t.last() == rs[k as int]);
        }
        y = y + LABEL_HEIGHT + rule.height + RULE_GAP;
        k += 1;
    }
    out.append("</svg>");
    out
}


// ── What a diagram admits ────────────────────────────────────────────────

/// Whether a path through diagram `r` can pass no box at all: an option
/// can be bypassed, a loop must pass its body once, a sequence must pass
/// every part and a choice any one alternative.
pub open spec fn rail_bypassable(r: RailNode) -> bool
    decreases r,
{
    match r {
        RailNode::Start => true,
        RailNode::End => true,
        RailNode::Terminal(_) => false,
        RailNode::NonTerminal { .. } => false,
        RailNode::Sequence(rs) => rail_all_bypassable(rs@),
        RailNode::Choice(rs) => rail_any_bypassable(rs@),
        RailNode::Optional(_) => true,
        RailNode::Repeat(i) => rail_bypassable(*i),
        RailNode::Labeled { inner, .. } => rail_bypassable(*inner),
    }
}

/// Whether every diagram of `rs` can be passed without a box.
pub open spec fn rail_all_bypassable(rs: Seq<RailNode>) -> bool
    decreases rs,
{
    if rs.len() == 0 {
        true
    } else {
        rail_bypassable(rs[0]) && rail_all_bypassable(rs.drop_first())
    }
}

/// Whether some diagram of `rs` can be passed without a box.
pub open spec fn rail_any_bypassable(rs: Seq<RailNode>) -> bool
    decreases rs,
{
    if rs.len() == 0 {
        false
    } else {
        rail_bypassable(rs[0]) || rail_any_bypassable(rs.drop_first())
    }
}

proof fn lemma_rail_all(rs: Seq<RailNode>)
    ensures
        rail_all_bypassable(rs) <==> forall|i: int| 0 <= i < rs.len() ==> rail_bypassable(#[trigger] rs[i]),
        rail_any_bypassable(rs) <==> exists|i: int| 0 <= i < rs.len() && rail_bypassable(#[trigger] rs[i]),
    decreases rs.len(),
{
    if rs.len() > 0 {
        lemma_rail_all(rs.drop_first());
        assert forall|i: int| 0 < i < rs.len() implies #[trigger] rs[i] == rs.drop_first()[i - 1] by {}
        if exists|i: int| 0 <= i < rs.len() && rail_bypassable(#[trigger] rs[i]) {
            let i = choose|i: int| 0 <= i < rs.len() && rail_bypassable(#[trigger] rs[i]);
            if i > 0 {
                assert(rail_bypassable(rs.drop_first()[i - 1]));
            }
        }
    }
}

proof fn lemma_nullable_list(cs: Seq<GrammarNode>)
    ensures
        crate::analysis::nullable_all(cs, Set::empty()) <==> forall|i: int| 0 <= i < cs.len()
            ==> crate::analysis::nullable_node(#[trigger] cs[i], Set::empty()),
        crate::analysis::nullable_any(cs, Set::empty()) <==> exists|i: int| 0 <= i < cs.len()
            && crate::analysis::nullable_node(#[trigger] cs[i], Set::empty()),
    decreases cs.len(),
{
    if cs.len() > 0 {
        lemma_nullable_list(cs.drop_first());
        assert forall|i: int| 0 < i < cs.len() implies #[trigger] cs[i] == cs.drop_first()[i - 1] by {}
        if exists|i: int| 0 <= i < cs.len() && crate::analysis::nullable_node(#[trigger] cs[i], Set::empty()) {
            let i = choose|i: int| 0 <= i < cs.len() && crate::analysis::nullable_node(#[trigger] cs[i], Set::empty());
            if i > 0 {
                assert(crate::analysis::nullable_node(cs.drop_first()[i - 1], Set::empty()));
            }
        }
    }
}

proof fn lemma_renders_list_index(cs: Seq<GrammarNode>, rs: Seq<RailNode>, mode: LinkMode, annotate: bool)
    requires
        renders_list(cs, rs, mode, annotate),
    ensures
        rs.len() == cs.len(),
        forall|i: int| 0 <= i < cs.len() ==> renders(#[trigger] cs[i], rs[i], mode, annotate),
    decreases cs.len(),
{
    if cs.len() > 0 {
        lemma_renders_list_index(cs.drop_last(), rs.drop_last(), mode, annotate);
        assert forall|i: int| 0 <= i < cs.len() implies renders(#[trigger] cs[i], rs[i], mode, annotate) by {
            if i < cs.len() - 1 {
                assert(cs.drop_last()[i] == cs[i] && rs.drop_last()[i] == rs[i]);
            }
        }
    }
}

/// A diagram can be passed without a box exactly when the node it draws
/// can match the empty string (rule references counted as non-empty):
/// `x*` and `x?` can be bypassed, `x+` only when `x` can, a sequence when
/// every part can and a choice when some alternative can.
pub proof fn lemma_diagram_bypass(n: GrammarNode, r: RailNode, mode: LinkMode, annotate: bool)
    requires
        renders(n, r, mode, annotate),
    ensures
        rail_bypassable(r) == crate::analysis::nullable_node(n, Set::empty()),
    decreases n,
{
    match n {
        GrammarNode::Sequence(cs) => {
            let rs = r->Sequence_0@;
            lemma_renders_list_index(cs@, rs, mode, annotate);
            assert forall|i: int| 0 <= i < cs@.len() implies
                rail_bypassable(#[trigger] rs[i]) == crate::analysis::nullable_node(cs@[i], Set::empty()) by {
                assert(decreases_to!(n => cs@[i]));
                lemma_diagram_bypass(cs@[i], rs[i], mode, annotate);
            }
            lemma_rail_all(rs);
            lemma_nullable_list(cs@);
        },
        GrammarNode::Choice(cs) => {
            let rs = r->Choice_0@;
            lemma_renders_list_index(cs@, rs, mode, annotate);
            assert forall|i: int| 0 <= i < cs@.len() implies
                rail_bypassable(#[trigger] rs[i]) == crate::analysis::nullable_node(cs@[i], Set::empty()) by {
                assert(decreases_to!(n => cs@[i]));
                lemma_diagram_bypass(cs@[i], rs[i], mode, annotate);
            }
            lemma_rail_all(rs);
            lemma_nullable_list(cs@);
            if crate::analysis::nullable_any(cs@, Set::empty()) {
                let i = choose|i: int| 0 <= i < cs@.len() && crate::analysis::nullable_node(#[trigger] cs@[i], Set::empty());
                assert(rail_bypassable(rs[i]));
            }
            if rail_any_bypassable(rs) {
                let i = choose|i: int| 0 <= i < rs.len() && rail_bypassable(#[trigger] rs[i]);
                assert(crate::analysis::nullable_node(cs@[i], Set::empty()));
            }
        },
        GrammarNode::OneOrMore(i) => lemma_diagram_bypass(*i, *r->Repeat_0, mode, annotate),
        GrammarNode::Token(i) => if annotate {
            assert(labeled_as(*i, r, "token"@, "token"@, mode, annotate));
            match r {
                RailNode::Labeled { inner: ri, .. } => lemma_diagram_bypass(*i, *ri, mode, annotate),
                _ => {},
            }
        } else {
            lemma_diagram_bypass(*i, r, mode, annotate);
        },
        GrammarNode::TokenImmediate(i) => if annotate {
            assert(labeled_as(*i, r, "token.immediate"@, "token-immediate"@, mode, annotate));
            match r {
                RailNode::Labeled { inner: ri, .. } => lemma_diagram_bypass(*i, *ri, mode, annotate),
                _ => {},
            }
        } else {
            lemma_diagram_bypass(*i, r, mode, annotate);
        },
        GrammarNode::Field(name, i) => if annotate {
            assert(labeled_as(*i, r, name@ + ":"@, "field"@, mode, annotate));
            match r {
                RailNode::Labeled { inner: ri, .. } => lemma_diagram_bypass(*i, *ri, mode, annotate),
                _ => {},
            }
        } else {
            lemma_diagram_bypass(*i, r, mode, annotate);
        },
        GrammarNode::Alias(b, name) => if annotate {
            assert(labeled_as(*b, r, "=> "@ + alias_label_text(*name), "alias"@, mode, annotate));
            match r {
                RailNode::Labeled { inner: ri, .. } => lemma_diagram_bypass(*b, *ri, mode, annotate),
                _ => {},
            }
        } else {
            lemma_diagram_bypass(*b, r, mode, annotate);
        },
        GrammarNode::Prec(k, l, i) => if annotate {
            assert(labeled_as(*i, r, prec_label_text(k, l), "prec"@, mode, annotate));
            match r {
                RailNode::Labeled { inner: ri, .. } => lemma_diagram_bypass(*i, *ri, mode, annotate),
                _ => {},
            }
        } else {
            lemma_diagram_bypass(*i, r, mode, annotate);
        },
        GrammarNode::Reserved(_, i) => lemma_diagram_bypass(*i, r, mode, annotate),
        _ => {},
    }
}

/// The diagram of `x*` can be bypassed, and no diagram of `x*` is also a
/// diagram of `x+`: the loop of a repetition that may be empty sits inside
/// an option.
pub proof fn lemma_zero_or_more_diagram(i: GrammarNode, r: RailNode, mode: LinkMode, annotate: bool)
    requires
        renders(GrammarNode::ZeroOrMore(Box::new(i)), r, mode, annotate),
    ensures
        rail_bypassable(r),
        r matches RailNode::Optional(o) && *o matches RailNode::Repeat(_),
        !renders(GrammarNode::OneOrMore(Box::new(i)), r, mode, annotate),
{
    lemma_diagram_bypass(GrammarNode::ZeroOrMore(Box::new(i)), r, mode, annotate);
}


// ── What a diagram shows ─────────────────────────────────────────────────

/// The texts of the boxes of diagram `r`, in drawing order.
pub open spec fn rail_boxes(r: RailNode) -> Seq<Seq<char>>
    decreases r, 1int,
{
    match r {
        RailNode::Start => seq![],
        RailNode::End => seq![],
        RailNode::Terminal(t) => seq![t@],
        RailNode::NonTerminal { name, .. } => seq![name@],
        RailNode::Sequence(rs) => rail_boxes_list(rs@),
        RailNode::Choice(rs) => rail_boxes_list(rs@),
        RailNode::Optional(i) => rail_boxes(*i),
        RailNode::Repeat(i) => rail_boxes(*i),
        RailNode::Labeled { inner, .. } => rail_boxes(*inner),
    }
}

/// The boxes of each diagram of `rs`, one diagram after another.
pub open spec fn rail_boxes_list(rs: Seq<RailNode>) -> Seq<Seq<char>>
    decreases rs, 0int,
{
    if rs.len() == 0 {
        seq![]
    } else {
        rail_boxes_list(rs.drop_last()) + rail_boxes(rs.last())
    }
}

/// The terminals and rule references of `n` in order, as written: the
/// body of an alias counts, its name does not.
pub open spec fn node_leaves(n: GrammarNode) -> Seq<Seq<char>>
    decreases n, 1int,
{
    match n {
        GrammarNode::TerminalLiteral(s) => seq![s@],
        GrammarNode::TerminalPattern(s) => seq![s@],
        GrammarNode::NonTerminal(x) => seq![x@],
        GrammarNode::Sequence(cs) => node_leaves_list(cs@),
        GrammarNode::Choice(cs) => node_leaves_list(cs@),
        GrammarNode::Optional(i) => node_leaves(*i),
        GrammarNode::ZeroOrMore(i) => node_leaves(*i),
        GrammarNode::OneOrMore(i) => node_leaves(*i),
        GrammarNode::Token(i) => node_leaves(*i),
        GrammarNode::TokenImmediate(i) => node_leaves(*i),
        GrammarNode::Field(_, i) => node_leaves(*i),
        GrammarNode::Alias(b, _) => node_leaves(*b),
        GrammarNode::Prec(_, _, i) => node_leaves(*i),
        GrammarNode::Reserved(_, i) => node_leaves(*i),
    }
}

/// The leaves of each node of `cs`, one node after another.
pub open spec fn node_leaves_list(cs: Seq<GrammarNode>) -> Seq<Seq<char>>
    decreases cs, 0int,
{
    if cs.len() == 0 {
        seq![]
    } else {
        node_leaves_list(cs.drop_last()) + node_leaves(cs.last())
    }
}

/// A diagram shows exactly the terminals and rule references of the node
/// it draws, each in a box of its own, in the order they are written.
pub proof fn lemma_diagram_boxes(n: GrammarNode, r: RailNode, mode: LinkMode, annotate: bool)
    requires
        renders(n, r, mode, annotate),
    ensures
        rail_boxes(r) == node_leaves(n),
    decreases n, 1int,
{
    match n {
        GrammarNode::Sequence(cs) => {
            assert(r is Sequence);
            let rs = r->Sequence_0@;
            assert(renders_list(cs@, rs, mode, annotate));
            lemma_diagram_boxes_list(cs@, rs, mode, annotate);
            assert(rail_boxes(r) == rail_boxes_list(rs));
            assert(node_leaves(n) == node_leaves_list(cs@));
            assert(rail_boxes_list(rs) == node_leaves_list(cs@));
        },
        GrammarNode::Choice(cs) => match r {
            RailNode::Choice(rs) => lemma_diagram_boxes_list(cs@, rs@, mode, annotate),
            _ => {},
        },
        GrammarNode::Optional(i) => {
            lemma_diagram_boxes(*i, *r->Optional_0, mode, annotate);
            assert(rail_boxes(r) == node_leaves(n));
        },
        GrammarNode::OneOrMore(i) => {
            lemma_diagram_boxes(*i, *r->Repeat_0, mode, annotate);
            assert(rail_boxes(r) == node_leaves(n));
        },
        GrammarNode::ZeroOrMore(i) => {
            let o = *r->Optional_0;
            let ri = *o->Repeat_0;
            lemma_diagram_boxes(*i, ri, mode, annotate);
            assert(rail_boxes(o) == rail_boxes(ri));
            assert(rail_boxes(r) == node_leaves(n));
        },
        GrammarNode::Token(i) => if annotate {
            assert(labeled_as(*i, r, "token"@, "token"@, mode, annotate));
            match r {
                RailNode::Labeled { inner: ri, .. } => lemma_diagram_boxes(*i, *ri, mode, annotate),
                _ => {},
            }
        } else {
            lemma_diagram_boxes(*i, r, mode, annotate);
        },
        GrammarNode::TokenImmediate(i) => if annotate {
            assert(labeled_as(*i, r, "token.immediate"@, "token-immediate"@, mode, annotate));
            match r {
                RailNode::Labeled { inner: ri, .. } => lemma_diagram_boxes(*i, *ri, mode, annotate),
                _ => {},
            }
        } else {
            lemma_diagram_boxes(*i, r, mode, annotate);
        },
        GrammarNode::Field(name, i) => if annotate {
            assert(labeled_as(*i, r, name@ + ":"@, "field"@, mode, annotate));
            match r {
                RailNode::Labeled { inner: ri, .. } => lemma_diagram_boxes(*i, *ri, mode, annotate),
                _ => {},
            }
        } else {
            lemma_diagram_boxes(*i, r, mode, annotate);
        },
        GrammarNode::Alias(b, name) => if annotate {
            assert(labeled_as(*b, r, "=> "@ + alias_label_text(*name), "alias"@, mode, annotate));
            match r {
                RailNode::Labeled { inner: ri, .. } => lemma_diagram_boxes(*b, *ri, mode, annotate),
                _ => {},
            }
        } else {
            lemma_diagram_boxes(*b, r, mode, annotate);
        },
        GrammarNode::Prec(k, l, i) => if annotate {
            assert(labeled_as(*i, r, prec_label_text(k, l), "prec"@, mode, annotate));
            match r {
                RailNode::Labeled { inner: ri, .. } => lemma_diagram_boxes(*i, *ri, mode, annotate),
                _ => {},
            }
        } else {
            lemma_diagram_boxes(*i, r, mode, annotate);
        },
        GrammarNode::Reserved(_, i) => lemma_diagram_boxes(*i, r, mode, annotate),
        _ => {
            match r {
                RailNode::Terminal(t) => {
                    assert(rail_boxes(r) == seq![t@]);
                },
                RailNode::NonTerminal { name, .. } => {
                    assert(rail_boxes(r) == seq![name@]);
                },
                _ => {},
            }
        },
    }
}

proof fn lemma_diagram_boxes_list(cs: Seq<GrammarNode>, rs: Seq<RailNode>, mode: LinkMode, annotate: bool)
    requires
        renders_list(cs, rs, mode, annotate),
    ensures
        rail_boxes_list(rs) == node_leaves_list(cs),
    decreases cs, 0int,
{
    if cs.len() > 0 {
        lemma_diagram_boxes_list(cs.drop_last(), rs.drop_last(), mode, annotate);
        lemma_diagram_boxes(cs.last(), rs.last(), mode, annotate);
    }
}

} // verus!
