//! Semantic analyses over a [`Grammar`]: FIRST sets, left recursion and a
//! few structural counts.  Every analysis reads the grammar and leaves it
//! unchanged.

use vstd::prelude::*;
use crate::nameset::NameSet;
use crate::nodes::{contains_nt, GrammarNode};
use crate::production::Production;
use crate::rules::{entry_keys, has_key, keys_distinct, lemma_keys_distinct, rules_find, rules_get_index, rules_keys, rules_len};
use crate::text::{seq_lt, lemma_seq_lt_total, lemma_seq_lt_trans, str_lt};
use crate::text::{owned, str_eq};
use crate::types::{entries, key_pos, lemma_key_pos, Grammar};

verus! {

/// A terminal as it is compared in FIRST sets: `true` for a quoted literal,
/// `false` for a `/…/` pattern, with the raw source text.
pub type TermKey = (bool, Seq<char>);

/// A terminal symbol appearing in a FIRST set.
#[derive(Debug, Clone, PartialEq, Eq, Hash)]
pub enum FirstTerminal {
    /// A quoted string literal terminal, e.g. `'x'` or `"hello"`.
    Literal(String),
    /// A regex pattern terminal, e.g. `/[0-9]+/`.
    Pattern(String),
}

/// The key by which a [`FirstTerminal`] is compared.
pub open spec fn term_key(t: FirstTerminal) -> TermKey {
    match t {
        FirstTerminal::Literal(s) => (true, s@),
        FirstTerminal::Pattern(s) => (false, s@),
    }
}

/// The keys of a list of terminals, in order.
pub open spec fn term_keys(v: Seq<FirstTerminal>) -> Seq<TermKey> {
    v.map_values(|t: FirstTerminal| term_key(t))
}

/// The set of keys of a list of terminals.
pub open spec fn term_set(v: Seq<FirstTerminal>) -> Set<TermKey> {
    term_keys(v).to_set()
}

// ── Nullability ──────────────────────────────────────────────────────────

/// Whether `n` can derive the empty string, given the rule names `nl`
/// already known to be nullable.
pub open spec fn nullable_node(n: GrammarNode, nl: Set<Seq<char>>) -> bool
    decreases n,
{
    match n {
        GrammarNode::Optional(_) => true,
        GrammarNode::ZeroOrMore(_) => true,
        GrammarNode::Sequence(cs) => nullable_all(cs@, nl),
        GrammarNode::Choice(cs) => nullable_any(cs@, nl),
        GrammarNode::NonTerminal(name) => nl.contains(name@),
        GrammarNode::TerminalLiteral(_) => false,
        GrammarNode::TerminalPattern(_) => false,
        GrammarNode::OneOrMore(i) => nullable_node(*i, nl),
        GrammarNode::Token(i) => nullable_node(*i, nl),
        GrammarNode::TokenImmediate(i) => nullable_node(*i, nl),
        GrammarNode::Alias(b, _) => nullable_node(*b, nl),
        GrammarNode::Field(_, i) => nullable_node(*i, nl),
        GrammarNode::Prec(_, _, i) => nullable_node(*i, nl),
        GrammarNode::Reserved(_, i) => nullable_node(*i, nl),
    }
}

/// Whether every element of `cs` is nullable.
pub open spec fn nullable_all(cs: Seq<GrammarNode>, nl: Set<Seq<char>>) -> bool
    decreases cs,
{
    if cs.len() == 0 {
        true
    } else {
        nullable_node(cs[0], nl) && nullable_all(cs.drop_first(), nl)
    }
}

/// Whether some element of `cs` is nullable.
pub open spec fn nullable_any(cs: Seq<GrammarNode>, nl: Set<Seq<char>>) -> bool
    decreases cs,
{
    if cs.len() == 0 {
        false
    } else {
        nullable_node(cs[0], nl) || nullable_any(cs.drop_first(), nl)
    }
}

// ── FIRST of a node ──────────────────────────────────────────────────────

/// The terminals that can start a string derived from `n`, where `f` gives
/// the FIRST set of each rule name and `nl` the nullable rule names.
pub open spec fn first_node(n: GrammarNode, f: spec_fn(Seq<char>) -> Set<TermKey>, nl: Set<Seq<char>>) -> Set<TermKey>
    decreases n,
{
    match n {
        GrammarNode::TerminalLiteral(s) => set![(true, s@)],
        GrammarNode::TerminalPattern(s) => set![(false, s@)],
        GrammarNode::NonTerminal(name) => f(name@),
        GrammarNode::Sequence(cs) => first_seq(cs@, f, nl),
        GrammarNode::Choice(cs) => first_choice(cs@, f, nl),
        GrammarNode::Optional(i) => first_node(*i, f, nl),
        GrammarNode::ZeroOrMore(i) => first_node(*i, f, nl),
        GrammarNode::OneOrMore(i) => first_node(*i, f, nl),
        GrammarNode::Token(i) => first_node(*i, f, nl),
        GrammarNode::TokenImmediate(i) => first_node(*i, f, nl),
        GrammarNode::Alias(b, _) => first_node(*b, f, nl),
        GrammarNode::Field(_, i) => first_node(*i, f, nl),
        GrammarNode::Prec(_, _, i) => first_node(*i, f, nl),
        GrammarNode::Reserved(_, i) => first_node(*i, f, nl),
    }
}

/// FIRST of a sequence: the first element's FIRST, then the rest's while
/// the elements before are nullable.
pub open spec fn first_seq(cs: Seq<GrammarNode>, f: spec_fn(Seq<char>) -> Set<TermKey>, nl: Set<Seq<char>>) -> Set<TermKey>
    decreases cs,
{
    if cs.len() == 0 {
        Set::empty()
    } else if nullable_node(cs[0], nl) {
        first_node(cs[0], f, nl) + first_seq(cs.drop_first(), f, nl)
    } else {
        first_node(cs[0], f, nl)
    }
}

/// FIRST of a choice: the union over all alternatives.
pub open spec fn first_choice(cs: Seq<GrammarNode>, f: spec_fn(Seq<char>) -> Set<TermKey>, nl: Set<Seq<char>>) -> Set<TermKey>
    decreases cs,
{
    if cs.len() == 0 {
        Set::empty()
    } else {
        first_node(cs[0], f, nl) + first_choice(cs.drop_first(), f, nl)
    }
}

/// Every terminal occurring in `n` (alias names excluded).
pub open spec fn terms_of(n: GrammarNode) -> Set<TermKey>
    decreases n,
{
    match n {
        GrammarNode::TerminalLiteral(s) => set![(true, s@)],
        GrammarNode::TerminalPattern(s) => set![(false, s@)],
        GrammarNode::NonTerminal(_) => Set::empty(),
        GrammarNode::Sequence(cs) => terms_of_list(cs@),
        GrammarNode::Choice(cs) => terms_of_list(cs@),
        GrammarNode::Optional(i) => terms_of(*i),
        GrammarNode::ZeroOrMore(i) => terms_of(*i),
        GrammarNode::OneOrMore(i) => terms_of(*i),
        GrammarNode::Token(i) => terms_of(*i),
        GrammarNode::TokenImmediate(i) => terms_of(*i),
        GrammarNode::Alias(b, _) => terms_of(*b),
        GrammarNode::Field(_, i) => terms_of(*i),
        GrammarNode::Prec(_, _, i) => terms_of(*i),
        GrammarNode::Reserved(_, i) => terms_of(*i),
    }
}

/// Every terminal occurring in the elements of `cs`.
pub open spec fn terms_of_list(cs: Seq<GrammarNode>) -> Set<TermKey>
    decreases cs,
{
    if cs.len() == 0 {
        Set::empty()
    } else {
        terms_of(cs[0]) + terms_of_list(cs.drop_first())
    }
}

/// Every terminal occurring in the first `k` rule bodies of `es`.
pub open spec fn terms_of_rules(es: Seq<(String, Production)>, k: int) -> Set<TermKey>
    decreases k,
{
    if k <= 0 {
        Set::empty()
    } else {
        terms_of_rules(es, k - 1) + terms_of(es[k - 1].1.body)
    }
}

/// The terminal set occurring in a node is finite.
pub proof fn lemma_terms_finite(n: GrammarNode)
    ensures
        terms_of(n).finite(),
    decreases n,
{
    match n {
        GrammarNode::Sequence(cs) => lemma_terms_finite_list(cs@),
        GrammarNode::Choice(cs) => lemma_terms_finite_list(cs@),
        GrammarNode::Optional(i) => lemma_terms_finite(*i),
        GrammarNode::ZeroOrMore(i) => lemma_terms_finite(*i),
        GrammarNode::OneOrMore(i) => lemma_terms_finite(*i),
        GrammarNode::Token(i) => lemma_terms_finite(*i),
        GrammarNode::TokenImmediate(i) => lemma_terms_finite(*i),
        GrammarNode::Alias(b, _) => lemma_terms_finite(*b),
        GrammarNode::Field(_, i) => lemma_terms_finite(*i),
        GrammarNode::Prec(_, _, i) => lemma_terms_finite(*i),
        GrammarNode::Reserved(_, i) => lemma_terms_finite(*i),
        _ => {},
    }
}

/// List form of [`lemma_terms_finite`].
pub proof fn lemma_terms_finite_list(cs: Seq<GrammarNode>)
    ensures
        terms_of_list(cs).finite(),
    decreases cs,
{
    if cs.len() > 0 {
        lemma_terms_finite(cs[0]);
        lemma_terms_finite_list(cs.drop_first());
    }
}

/// The terminals of the first `k` rules form a finite set containing the
/// terminals of each of those rules.
pub proof fn lemma_terms_of_rules(es: Seq<(String, Production)>, k: int)
    ensures
        terms_of_rules(es, k).finite(),
        forall|i: int| 0 <= i < k ==> terms_of(#[trigger] es[i].1.body).subset_of(terms_of_rules(es, k)),
    decreases k,
{
    if k > 0 {
        lemma_terms_of_rules(es, k - 1);
        lemma_terms_finite(es[k - 1].1.body);
    }
}

/// FIRST is monotone in the FIRST sets of the rules.
pub proof fn lemma_first_mono(n: GrammarNode, f1: spec_fn(Seq<char>) -> Set<TermKey>, f2: spec_fn(Seq<char>) -> Set<TermKey>, nl: Set<Seq<char>>)
    requires
        forall|k: Seq<char>| (#[trigger] f1(k)).subset_of(f2(k)),
    ensures
        first_node(n, f1, nl).subset_of(first_node(n, f2, nl)),
    decreases n,
{
    match n {
        GrammarNode::NonTerminal(name) => { assert(f1(name@).subset_of(f2(name@))); },
        GrammarNode::Sequence(cs) => lemma_first_mono_seq(cs@, f1, f2, nl),
        GrammarNode::Choice(cs) => lemma_first_mono_choice(cs@, f1, f2, nl),
        GrammarNode::Optional(i) => lemma_first_mono(*i, f1, f2, nl),
        GrammarNode::ZeroOrMore(i) => lemma_first_mono(*i, f1, f2, nl),
        GrammarNode::OneOrMore(i) => lemma_first_mono(*i, f1, f2, nl),
        GrammarNode::Token(i) => lemma_first_mono(*i, f1, f2, nl),
        GrammarNode::TokenImmediate(i) => lemma_first_mono(*i, f1, f2, nl),
        GrammarNode::Alias(b, _) => lemma_first_mono(*b, f1, f2, nl),
        GrammarNode::Field(_, i) => lemma_first_mono(*i, f1, f2, nl),
        GrammarNode::Prec(_, _, i) => lemma_first_mono(*i, f1, f2, nl),
        GrammarNode::Reserved(_, i) => lemma_first_mono(*i, f1, f2, nl),
        _ => {},
    }
}

/// Sequence form of [`lemma_first_mono`].
pub proof fn lemma_first_mono_seq(cs: Seq<GrammarNode>, f1: spec_fn(Seq<char>) -> Set<TermKey>, f2: spec_fn(Seq<char>) -> Set<TermKey>, nl: Set<Seq<char>>)
    requires
        forall|k: Seq<char>| (#[trigger] f1(k)).subset_of(f2(k)),
    ensures
        first_seq(cs, f1, nl).subset_of(first_seq(cs, f2, nl)),
    decreases cs,
{
    if cs.len() > 0 {
        lemma_first_mono(cs[0], f1, f2, nl);
        lemma_first_mono_seq(cs.drop_first(), f1, f2, nl);
    }
}

/// Choice form of [`lemma_first_mono`].
pub proof fn lemma_first_mono_choice(cs: Seq<GrammarNode>, f1: spec_fn(Seq<char>) -> Set<TermKey>, f2: spec_fn(Seq<char>) -> Set<TermKey>, nl: Set<Seq<char>>)
    requires
        forall|k: Seq<char>| (#[trigger] f1(k)).subset_of(f2(k)),
    ensures
        first_choice(cs, f1, nl).subset_of(first_choice(cs, f2, nl)),
    decreases cs,
{
    if cs.len() > 0 {
        lemma_first_mono(cs[0], f1, f2, nl);
        lemma_first_mono_choice(cs.drop_first(), f1, f2, nl);
    }
}

/// FIRST of a node lies within its own terminals and the FIRST sets it reads.
pub proof fn lemma_first_bounded(n: GrammarNode, f: spec_fn(Seq<char>) -> Set<TermKey>, nl: Set<Seq<char>>, b: Set<TermKey>)
    requires
        terms_of(n).subset_of(b),
        forall|k: Seq<char>| (#[trigger] f(k)).subset_of(b),
    ensures
        first_node(n, f, nl).subset_of(b),
    decreases n,
{
    match n {
        GrammarNode::NonTerminal(name) => { assert(f(name@).subset_of(b)); },
        GrammarNode::Sequence(cs) => lemma_first_bounded_list(cs@, f, nl, b),
        GrammarNode::Choice(cs) => lemma_first_bounded_list(cs@, f, nl, b),
        GrammarNode::Optional(i) => lemma_first_bounded(*i, f, nl, b),
        GrammarNode::ZeroOrMore(i) => lemma_first_bounded(*i, f, nl, b),
        GrammarNode::OneOrMore(i) => lemma_first_bounded(*i, f, nl, b),
        GrammarNode::Token(i) => lemma_first_bounded(*i, f, nl, b),
        GrammarNode::TokenImmediate(i) => lemma_first_bounded(*i, f, nl, b),
        GrammarNode::Alias(bd, _) => lemma_first_bounded(*bd, f, nl, b),
        GrammarNode::Field(_, i) => lemma_first_bounded(*i, f, nl, b),
        GrammarNode::Prec(_, _, i) => lemma_first_bounded(*i, f, nl, b),
        GrammarNode::Reserved(_, i) => lemma_first_bounded(*i, f, nl, b),
        _ => {},
    }
}

/// List form of [`lemma_first_bounded`], for sequences and choices alike.
pub proof fn lemma_first_bounded_list(cs: Seq<GrammarNode>, f: spec_fn(Seq<char>) -> Set<TermKey>, nl: Set<Seq<char>>, b: Set<TermKey>)
    requires
        terms_of_list(cs).subset_of(b),
        forall|k: Seq<char>| (#[trigger] f(k)).subset_of(b),
    ensures
        first_seq(cs, f, nl).subset_of(b),
        first_choice(cs, f, nl).subset_of(b),
    decreases cs,
{
    if cs.len() > 0 {
        lemma_first_bounded(cs[0], f, nl, b);
        lemma_first_bounded_list(cs.drop_first(), f, nl, b);
    }
}

// ── Terminal lists ───────────────────────────────────────────────────────

impl FirstTerminal {
    /// A copy of this terminal.
    pub fn duplicate(&self) -> (r: Self)
        ensures
            term_key(r) == term_key(*self),
    {
        match self {
            FirstTerminal::Literal(s) => FirstTerminal::Literal(owned(s.as_str())),
            FirstTerminal::Pattern(s) => FirstTerminal::Pattern(owned(s.as_str())),
        }
    }

    /// Whether two terminals are the same kind with the same text.
    pub fn same_as(&self, other: &Self) -> (r: bool)
        ensures
            r == (term_key(*self) == term_key(*other)),
    {
        match (self, other) {
            (FirstTerminal::Literal(a), FirstTerminal::Literal(b)) => str_eq(a.as_str(), b.as_str()),
            (FirstTerminal::Pattern(a), FirstTerminal::Pattern(b)) => str_eq(a.as_str(), b.as_str()),
            _ => false,
        }
    }
}

/// Whether `v` holds a terminal equal to `t`.
fn contains_term(v: &Vec<FirstTerminal>, t: &FirstTerminal) -> (r: bool)
    ensures
        r == term_set(v@).contains(term_key(*t)),
{
    let mut i: usize = 0;
    while i < v.len()
        invariant
            0 <= i <= v.len(),
            forall|j: int| 0 <= j < i ==> term_keys(v@)[j] != term_key(*t),
        decreases v.len() - i,
    {
        if v[i].same_as(t) {
            assert(term_keys(v@)[i as int] == term_key(*t));
            return true;
        }
        i += 1;
    }
    assert(!term_keys(v@).contains(term_key(*t)));
    false
}

/// Adds a copy of `t` to `v` unless an equal terminal is there already.
fn insert_term(v: &mut Vec<FirstTerminal>, t: &FirstTerminal) -> (added: bool)
    requires
        term_keys(old(v)@).no_duplicates(),
    ensures
        term_keys(final(v)@).no_duplicates(),
        term_set(final(v)@) == term_set(old(v)@).insert(term_key(*t)),
        added == !term_set(old(v)@).contains(term_key(*t)),
        final(v)@.len() == old(v)@.len() + if added { 1int } else { 0int },
{
    if contains_term(v, t) {
        assert(term_set(v@).insert(term_key(*t)) =~= term_set(v@));
        false
    } else {
        let ghost before = v@;
        v.push(t.duplicate());
        proof {
            assert(term_keys(v@) =~= term_keys(before).push(term_key(*t)));
            term_keys(before).lemma_push_to_set_commute(term_key(*t));
        }
        true
    }
}

/// Adds to `v` every terminal of `extra` it lacks; returns whether any was added.
fn extend_terms(v: &mut Vec<FirstTerminal>, extra: &Vec<FirstTerminal>) -> (added: bool)
    requires
        term_keys(old(v)@).no_duplicates(),
    ensures
        term_keys(final(v)@).no_duplicates(),
        term_set(final(v)@) == term_set(old(v)@) + term_set(extra@),
        added == !term_set(extra@).subset_of(term_set(old(v)@)),
        final(v)@.len() >= old(v)@.len(),
        added ==> final(v)@.len() > old(v)@.len(),
{
    let mut added = false;
    let mut i: usize = 0;
    while i < extra.len()
        invariant
            0 <= i <= extra.len(),
            term_keys(v@).no_duplicates(),
            term_set(v@) == term_set(old(v)@) + term_keys(extra@).take(i as int).to_set(),
            added == !term_keys(extra@).take(i as int).to_set().subset_of(term_set(old(v)@)),
            v@.len() >= old(v)@.len(),
            added ==> v@.len() > old(v)@.len(),
        decreases extra.len() - i,
    {
        let ghost before = term_set(v@);
        let a = insert_term(v, &extra[i]);
        proof {
            let ks = term_keys(extra@);
            assert(ks.take(i as int + 1) =~= ks.take(i as int).push(ks[i as int]));
            ks.take(i as int).lemma_push_to_set_commute(ks[i as int]);
            assert(term_set(v@) =~= term_set(old(v)@) + ks.take(i as int + 1).to_set());
        }
        if a {
            added = true;
        }
        i += 1;
    }
    assert(term_keys(extra@).take(extra@.len() as int) =~= term_keys(extra@));
    added
}

/// The FIRST sets held by a table of rows.
pub open spec fn row_sets(rows: Seq<Vec<FirstTerminal>>) -> Seq<Set<TermKey>> {
    rows.map_values(|v: Vec<FirstTerminal>| term_set(v@))
}

/// Reads per-rule sets `rs`, aligned with the rules `es`, as a function of
/// rule names; a name that is not a rule has the empty set.
pub open spec fn rows_fn(es: Seq<(String, Production)>, rs: Seq<Set<TermKey>>) -> spec_fn(Seq<char>) -> Set<TermKey> {
    |k: Seq<char>| {
        let i = key_pos(es, k);
        if 0 <= i < rs.len() {
            rs[i]
        } else {
            Set::<TermKey>::empty()
        }
    }
}

/// Returns `true` if `node` can produce the empty string, given the rule
/// names already known to be nullable.
pub fn is_nullable(node: &GrammarNode, nullable: &NameSet) -> (r: bool)
    ensures
        r == nullable_node(*node, nullable@.to_set()),
    decreases node,
{
    match node {
        GrammarNode::Optional(_) | GrammarNode::ZeroOrMore(_) => true,
        GrammarNode::Sequence(children) => all_nullable(children, nullable),
        GrammarNode::Choice(children) => any_nullable(children, nullable),
        GrammarNode::NonTerminal(name) => nullable.contains(name.as_str()),
        GrammarNode::TerminalLiteral(_) | GrammarNode::TerminalPattern(_) => false,
        GrammarNode::OneOrMore(inner) => is_nullable(inner, nullable),
        GrammarNode::Token(inner) => is_nullable(inner, nullable),
        GrammarNode::TokenImmediate(inner) => is_nullable(inner, nullable),
        GrammarNode::Alias(body, _) => is_nullable(body, nullable),
        GrammarNode::Field(_, inner) => is_nullable(inner, nullable),
        GrammarNode::Prec(_, _, inner) => is_nullable(inner, nullable),
        GrammarNode::Reserved(_, inner) => is_nullable(inner, nullable),
    }
}

/// Whether every element of `children` is nullable.
fn all_nullable(children: &Vec<GrammarNode>, nullable: &NameSet) -> (r: bool)
    ensures
        r == nullable_all(children@, nullable@.to_set()),
    decreases children,
{
    let mut i: usize = 0;
    assert(children@.skip(0) =~= children@);
    while i < children.len()
        invariant
            0 <= i <= children.len(),
            nullable_all(children@, nullable@.to_set()) == nullable_all(children@.skip(i as int), nullable@.to_set()),
        decreases children.len() - i,
    {
        proof {
            assert(decreases_to!(*children => children[i as int]));
            assert(children@.skip(i as int)[0] == children@[i as int]);
            assert(children@.skip(i as int).drop_first() =~= children@.skip(i + 1));
        }
        if !is_nullable(&children[i], nullable) {
            return false;
        }
        i += 1;
    }
    true
}

/// Whether some element of `children` is nullable.
fn any_nullable(children: &Vec<GrammarNode>, nullable: &NameSet) -> (r: bool)
    ensures
        r == nullable_any(children@, nullable@.to_set()),
    decreases children,
{
    let mut i: usize = 0;
    assert(children@.skip(0) =~= children@);
    while i < children.len()
        invariant
            0 <= i <= children.len(),
            nullable_any(children@, nullable@.to_set()) == nullable_any(children@.skip(i as int), nullable@.to_set()),
        decreases children.len() - i,
    {
        proof {
            assert(decreases_to!(*children => children[i as int]));
            assert(children@.skip(i as int)[0] == children@[i as int]);
            assert(children@.skip(i as int).drop_first() =~= children@.skip(i + 1));
        }
        if is_nullable(&children[i], nullable) {
            return true;
        }
        i += 1;
    }
    false
}

/// Adds the leading terminals of `node` to `result`, reading the FIRST set
/// of each referenced rule from `rows` (aligned with the grammar's rules).
/// Returns whether `node` can produce the empty string.
pub fn collect_first(node: &GrammarNode, grammar: &Grammar, rows: &Vec<Vec<FirstTerminal>>, nullable: &NameSet, result: &mut Vec<FirstTerminal>) -> (r: bool)
    requires
        term_keys(old(result)@).no_duplicates(),
    ensures
        term_keys(final(result)@).no_duplicates(),
        term_set(final(result)@) == term_set(old(result)@) + first_node(*node, rows_fn(entries(*grammar), row_sets(rows@)), nullable@.to_set()),
        term_set(old(result)@).subset_of(term_set(final(result)@)),
        r == nullable_node(*node, nullable@.to_set()),
    decreases node,
{
    let ghost f = rows_fn(entries(*grammar), row_sets(rows@));
    let ghost nl = nullable@.to_set();
    match node {
        GrammarNode::TerminalLiteral(s) => {
            let t = FirstTerminal::Literal(owned(s.as_str()));
            insert_term(result, &t);
            assert(set![(true, s@)] =~= set![term_key(t)]);
            assert(term_set(result@) =~= term_set(old(result)@) + first_node(*node, f, nl));
            false
        },
        GrammarNode::TerminalPattern(s) => {
            let t = FirstTerminal::Pattern(owned(s.as_str()));
            insert_term(result, &t);
            assert(term_set(result@) =~= term_set(old(result)@) + first_node(*node, f, nl));
            false
        },
        GrammarNode::NonTerminal(name) => {
            proof { lemma_key_pos(entries(*grammar), name@); }
            match rules_find(&grammar.productions, name.as_str()) {
                Some(i) => {
                    proof {
                        let k = key_pos(entries(*grammar), name@);
                        assert(k == i as int);
                    }
                    if i < rows.len() {
                        extend_terms(result, &rows[i]);
                    } else {
                        assert(term_set(result@) =~= term_set(old(result)@) + first_node(*node, f, nl));
                    }
                },
                None => {
                    assert(term_set(result@) =~= term_set(old(result)@) + first_node(*node, f, nl));
                },
            }
            nullable.contains(name.as_str())
        },
        GrammarNode::Sequence(children) => collect_first_seq(children, grammar, rows, nullable, result),
        GrammarNode::Choice(children) => collect_first_choice(children, grammar, rows, nullable, result),
        GrammarNode::Optional(inner) => {
            collect_first(inner, grammar, rows, nullable, result);
            true
        },
        GrammarNode::ZeroOrMore(inner) => {
            collect_first(inner, grammar, rows, nullable, result);
            true
        },
        GrammarNode::OneOrMore(inner) => collect_first(inner, grammar, rows, nullable, result),
        GrammarNode::Token(inner) => collect_first(inner, grammar, rows, nullable, result),
        GrammarNode::TokenImmediate(inner) => collect_first(inner, grammar, rows, nullable, result),
        GrammarNode::Alias(body, _) => collect_first(body, grammar, rows, nullable, result),
        GrammarNode::Field(_, inner) => collect_first(inner, grammar, rows, nullable, result),
        GrammarNode::Prec(_, _, inner) => collect_first(inner, grammar, rows, nullable, result),
        GrammarNode::Reserved(_, inner) => collect_first(inner, grammar, rows, nullable, result),
    }
}

/// [`collect_first`] for the elements of a sequence: stops after the first
/// element that cannot be empty.
fn collect_first_seq(children: &Vec<GrammarNode>, grammar: &Grammar, rows: &Vec<Vec<FirstTerminal>>, nullable: &NameSet, result: &mut Vec<FirstTerminal>) -> (r: bool)
    requires
        term_keys(old(result)@).no_duplicates(),
    ensures
        term_keys(final(result)@).no_duplicates(),
        term_set(final(result)@) == term_set(old(result)@) + first_seq(children@, rows_fn(entries(*grammar), row_sets(rows@)), nullable@.to_set()),
        r == nullable_all(children@, nullable@.to_set()),
    decreases children,
{
    let ghost f = rows_fn(entries(*grammar), row_sets(rows@));
    let ghost nl = nullable@.to_set();
    let mut i: usize = 0;
    assert(children@.skip(0) =~= children@);
    assert(term_set(result@) + first_seq(children@, f, nl) =~= term_set(old(result)@) + first_seq(children@, f, nl));
    while i < children.len()
        invariant
            0 <= i <= children.len(),
            f == rows_fn(entries(*grammar), row_sets(rows@)),
            nl == nullable@.to_set(),
            term_keys(result@).no_duplicates(),
            term_set(result@) + first_seq(children@.skip(i as int), f, nl) == term_set(old(result)@) + first_seq(children@, f, nl),
            nullable_all(children@, nl) == nullable_all(children@.skip(i as int), nl),
        decreases children.len() - i,
    {
        let ghost before = term_set(result@);
        proof {
            assert(decreases_to!(*children => children[i as int]));
        }
        let nb = collect_first(&children[i], grammar, rows, nullable, result);
        proof {
            let rest = children@.skip(i as int);
            assert(rest[0] == children@[i as int]);
            assert(rest.drop_first() =~= children@.skip(i + 1));
            if nb {
                assert(term_set(result@) + first_seq(children@.skip(i + 1), f, nl) =~= before + first_seq(rest, f, nl));
            } else {
                assert(term_set(result@) =~= before + first_seq(rest, f, nl));
            }
        }
        if !nb {
            return false;
        }
        i += 1;
    }
    assert(children@.skip(i as int) =~= Seq::<GrammarNode>::empty());
    assert(term_set(result@) =~= term_set(result@) + first_seq(children@.skip(i as int), f, nl));
    true
}

/// [`collect_first`] for the alternatives of a choice: all of them contribute.
fn collect_first_choice(children: &Vec<GrammarNode>, grammar: &Grammar, rows: &Vec<Vec<FirstTerminal>>, nullable: &NameSet, result: &mut Vec<FirstTerminal>) -> (r: bool)
    requires
        term_keys(old(result)@).no_duplicates(),
    ensures
        term_keys(final(result)@).no_duplicates(),
        term_set(final(result)@) == term_set(old(result)@) + first_choice(children@, rows_fn(entries(*grammar), row_sets(rows@)), nullable@.to_set()),
        r == nullable_any(children@, nullable@.to_set()),
    decreases children,
{
    let ghost f = rows_fn(entries(*grammar), row_sets(rows@));
    let ghost nl = nullable@.to_set();
    let mut any_nullable = false;
    let mut i: usize = 0;
    assert(children@.skip(0) =~= children@);
    assert(term_set(result@) + first_choice(children@, f, nl) =~= term_set(old(result)@) + first_choice(children@, f, nl));
    while i < children.len()
        invariant
            0 <= i <= children.len(),
            f == rows_fn(entries(*grammar), row_sets(rows@)),
            nl == nullable@.to_set(),
            term_keys(result@).no_duplicates(),
            term_set(result@) + first_choice(children@.skip(i as int), f, nl) == term_set(old(result)@) + first_choice(children@, f, nl),
            nullable_any(children@, nl) == (any_nullable || nullable_any(children@.skip(i as int), nl)),
        decreases children.len() - i,
    {
        let ghost before = term_set(result@);
        proof {
            assert(decreases_to!(*children => children[i as int]));
        }
        let nb = collect_first(&children[i], grammar, rows, nullable, result);
        proof {
            let rest = children@.skip(i as int);
            assert(rest[0] == children@[i as int]);
            assert(rest.drop_first() =~= children@.skip(i + 1));
            assert(term_set(result@) + first_choice(children@.skip(i + 1), f, nl) =~= before + first_choice(rest, f, nl));
        }
        if nb {
            any_nullable = true;
        }
        i += 1;
    }
    assert(children@.skip(i as int) =~= Seq::<GrammarNode>::empty());
    assert(term_set(result@) =~= term_set(result@) + first_choice(children@.skip(i as int), f, nl));
    any_nullable
}

// ── FIRST sets of a grammar ──────────────────────────────────────────────

/// The sets held by the rows of a [`first_sets`] result.
pub open spec fn result_sets(r: Seq<(String, Vec<FirstTerminal>)>) -> Seq<Set<TermKey>> {
    r.map_values(|e: (String, Vec<FirstTerminal>)| term_set(e.1@))
}

/// `rs` holds, for each rule of `es`, exactly the FIRST set of its body
/// computed from `rs` itself.
pub open spec fn first_fixpoint(es: Seq<(String, Production)>, rs: Seq<Set<TermKey>>) -> bool {
    &&& rs.len() == es.len()
    &&& forall|i: int| 0 <= i < es.len() ==> (#[trigger] rs[i]) == first_node(es[i].1.body, rows_fn(es, rs), Set::empty())
}

/// `g` is closed under the FIRST equations of `es`: each rule's body,
/// read with `g`, starts only with terminals that `g` gives the rule.
pub open spec fn first_closed(es: Seq<(String, Production)>, g: spec_fn(Seq<char>) -> Set<TermKey>) -> bool {
    forall|i: int| 0 <= i < es.len() ==> first_node((#[trigger] es[i]).1.body, g, Set::empty()).subset_of(g(es[i].0@))
}

/// Each set of `rs` lies within what `g` gives the matching rule of `es`.
pub open spec fn rows_below(es: Seq<(String, Production)>, rs: Seq<Set<TermKey>>, g: spec_fn(Seq<char>) -> Set<TermKey>) -> bool {
    forall|i: int| 0 <= i < es.len() ==> (#[trigger] rs[i]).subset_of(g(es[i].0@))
}

/// The total length of a table of rows.
pub open spec fn lens_sum(rows: Seq<Vec<FirstTerminal>>) -> int
    decreases rows.len(),
{
    if rows.len() == 0 {
        0
    } else {
        lens_sum(rows.drop_last()) + rows.last()@.len()
    }
}

/// Replacing one row changes the total length by the difference.
proof fn lemma_lens_sum_update(rows: Seq<Vec<FirstTerminal>>, i: int, x: Vec<FirstTerminal>)
    requires
        0 <= i < rows.len(),
    ensures
        lens_sum(rows.update(i, x)) == lens_sum(rows) - rows[i]@.len() + x@.len(),
    decreases rows.len(),
{
    if i == rows.len() - 1 {
        assert(rows.update(i, x).drop_last() =~= rows.drop_last());
    } else {
        lemma_lens_sum_update(rows.drop_last(), i, x);
        assert(rows.update(i, x).drop_last() =~= rows.drop_last().update(i, x));
    }
}

/// Rows of bounded length have a bounded total length.
proof fn lemma_lens_sum_bound(rows: Seq<Vec<FirstTerminal>>, u: nat)
    requires
        forall|i: int| 0 <= i < rows.len() ==> (#[trigger] rows[i])@.len() <= u,
    ensures
        lens_sum(rows) <= rows.len() * u,
    decreases rows.len(),
{
    if rows.len() > 0 {
        lemma_lens_sum_bound(rows.drop_last(), u);
        let k = rows.len() - 1;
        assert(rows[k]@.len() <= u);
        assert((k + 1) * u == k * u + u) by (nonlinear_arith);
    }
}

/// A duplicate-free row drawn from a finite set is no longer than the set.
proof fn lemma_row_len_bound(v: Seq<FirstTerminal>, u: Set<TermKey>)
    requires
        term_keys(v).no_duplicates(),
        term_set(v).subset_of(u),
        u.finite(),
    ensures
        v.len() <= u.len(),
{
    term_keys(v).unique_seq_to_set();
    vstd::set_lib::lemma_len_subset(term_set(v), u);
}

/// Reading sets through `rows_fn` is monotone in the sets.
proof fn lemma_rows_fn_mono(es: Seq<(String, Production)>, rs1: Seq<Set<TermKey>>, rs2: Seq<Set<TermKey>>)
    requires
        rs1.len() == rs2.len(),
        forall|i: int| 0 <= i < rs1.len() ==> (#[trigger] rs1[i]).subset_of(rs2[i]),
    ensures
        forall|k: Seq<char>| (#[trigger] rows_fn(es, rs1)(k)).subset_of(rows_fn(es, rs2)(k)),
{
    assert forall|k: Seq<char>| (#[trigger] rows_fn(es, rs1)(k)).subset_of(rows_fn(es, rs2)(k)) by {
        let i = key_pos(es, k);
        if 0 <= i < rs1.len() {
            assert(rs1[i].subset_of(rs2[i]));
        }
    }
}

/// Sets below `g` rule by rule stay below `g` when read through `rows_fn`.
proof fn lemma_rows_fn_below(es: Seq<(String, Production)>, rs: Seq<Set<TermKey>>, g: spec_fn(Seq<char>) -> Set<TermKey>)
    requires
        rs.len() == es.len(),
        rows_below(es, rs, g),
    ensures
        forall|k: Seq<char>| (#[trigger] rows_fn(es, rs)(k)).subset_of(g(k)),
{
    assert forall|k: Seq<char>| (#[trigger] rows_fn(es, rs)(k)).subset_of(g(k)) by {
        lemma_key_pos(es, k);
        let i = key_pos(es, k);
        if 0 <= i < rs.len() {
            assert(rs[i].subset_of(g(es[i].0@)));
        }
    }
}

/// Sets within `b` stay within `b` when read through `rows_fn`.
proof fn lemma_rows_fn_bounded(es: Seq<(String, Production)>, rs: Seq<Set<TermKey>>, b: Set<TermKey>)
    requires
        forall|i: int| 0 <= i < rs.len() ==> (#[trigger] rs[i]).subset_of(b),
    ensures
        forall|k: Seq<char>| (#[trigger] rows_fn(es, rs)(k)).subset_of(b),
{
    assert forall|k: Seq<char>| (#[trigger] rows_fn(es, rs)(k)).subset_of(b) by {
        let i = key_pos(es, k);
        if 0 <= i < rs.len() {
            assert(rs[i].subset_of(b));
        }
    }
}

/// One round of the FIRST iteration, `rs2[i] = rs[i] ∪ FIRST(body_i, rs)`,
/// keeps the three facts the iteration relies on: every set stays within
/// what its body can start with, below every closed assignment, and within
/// the grammar's terminals.
proof fn lemma_first_round(es: Seq<(String, Production)>, rs: Seq<Set<TermKey>>, rs2: Seq<Set<TermKey>>, u: Set<TermKey>)
    requires
        rs.len() == es.len(),
        rs2.len() == es.len(),
        forall|i: int| 0 <= i < es.len() ==> (#[trigger] rs2[i]) == rs[i] + first_node(es[i].1.body, rows_fn(es, rs), Set::empty()),
        forall|i: int| 0 <= i < es.len() ==> (#[trigger] rs[i]).subset_of(first_node(es[i].1.body, rows_fn(es, rs), Set::empty())),
        forall|g: spec_fn(Seq<char>) -> Set<TermKey>| first_closed(es, g) ==> #[trigger] rows_below(es, rs, g),
        forall|i: int| 0 <= i < es.len() ==> (#[trigger] rs[i]).subset_of(u),
        forall|i: int| 0 <= i < es.len() ==> terms_of((#[trigger] es[i]).1.body).subset_of(u),
    ensures
        forall|i: int| 0 <= i < es.len() ==> (#[trigger] rs2[i]).subset_of(first_node(es[i].1.body, rows_fn(es, rs2), Set::empty())),
        forall|g: spec_fn(Seq<char>) -> Set<TermKey>| first_closed(es, g) ==> #[trigger] rows_below(es, rs2, g),
        forall|i: int| 0 <= i < es.len() ==> (#[trigger] rs2[i]).subset_of(u),
{
    let nl = Set::<Seq<char>>::empty();
    lemma_rows_fn_mono(es, rs, rs2);
    lemma_rows_fn_bounded(es, rs, u);
    assert forall|i: int| 0 <= i < es.len() implies (#[trigger] rs2[i]).subset_of(first_node(es[i].1.body, rows_fn(es, rs2), nl)) by {
        lemma_first_mono(es[i].1.body, rows_fn(es, rs), rows_fn(es, rs2), nl);
    }
    assert forall|g: spec_fn(Seq<char>) -> Set<TermKey>| first_closed(es, g) implies #[trigger] rows_below(es, rs2, g) by {
        assert(rows_below(es, rs, g));
        lemma_rows_fn_below(es, rs, g);
        assert forall|i: int| 0 <= i < es.len() implies (#[trigger] rs2[i]).subset_of(g(es[i].0@)) by {
            lemma_first_mono(es[i].1.body, rows_fn(es, rs), g, nl);
            assert(rs[i].subset_of(g(es[i].0@)));
            assert(first_node(es[i].1.body, g, nl).subset_of(g(es[i].0@)));
        }
    }
    assert forall|i: int| 0 <= i < es.len() implies (#[trigger] rs2[i]).subset_of(u) by {
        assert(terms_of(es[i].1.body).subset_of(u));
        lemma_first_bounded(es[i].1.body, rows_fn(es, rs), nl, u);
    }
}

/// `rs` is the least solution of the FIRST equations of `es`.
pub open spec fn first_least(es: Seq<(String, Production)>, rs: Seq<Set<TermKey>>) -> bool {
    &&& first_fixpoint(es, rs)
    &&& forall|g: spec_fn(Seq<char>) -> Set<TermKey>| first_closed(es, g) ==> #[trigger] rows_below(es, rs, g)
}

/// The least solution of the FIRST equations of `es`: the FIRST set of
/// each rule, in declaration order.
pub open spec fn first_lfp(es: Seq<(String, Production)>) -> Seq<Set<TermKey>> {
    choose|rs: Seq<Set<TermKey>>| first_least(es, rs)
}

/// With distinct rule names the least solution is unique.
proof fn lemma_first_least_unique(es: Seq<(String, Production)>, rs1: Seq<Set<TermKey>>, rs2: Seq<Set<TermKey>>)
    requires
        keys_distinct(es),
        first_least(es, rs1),
        first_least(es, rs2),
    ensures
        rs1 == rs2,
{
    assert forall|a: Seq<Set<TermKey>>, b: Seq<Set<TermKey>>| first_least(es, a) && first_least(es, b) implies #[trigger] rows_below(es, a, rows_fn(es, b)) by {
        assert forall|i: int| 0 <= i < es.len() implies first_node((#[trigger] es[i]).1.body, rows_fn(es, b), Set::empty()).subset_of(rows_fn(es, b)(es[i].0@)) by {
            lemma_key_pos_self(es, i);
            assert(b[i] == first_node(es[i].1.body, rows_fn(es, b), Set::empty()));
        }
        assert(first_closed(es, rows_fn(es, b)));
    }
    assert(rows_below(es, rs1, rows_fn(es, rs2)));
    assert(rows_below(es, rs2, rows_fn(es, rs1)));
    assert forall|i: int| 0 <= i < rs1.len() implies rs1[i] == rs2[i] by {
        lemma_key_pos_self(es, i);
        assert(rs1[i].subset_of(rs2[i]));
        assert(rs2[i].subset_of(rs1[i]));
        assert(rs1[i] =~= rs2[i]);
    }
    assert(rs1 =~= rs2);
}

/// The rule names known to derive the empty string.  Tree-sitter has no
/// empty rules, so no rule name is nullable: the set is always empty.
fn nullable_rules(_grammar: &Grammar) -> (r: NameSet)
    ensures
        r@.len() == 0,
{
    NameSet::new()
}

/// Computes the FIRST set of every rule: the terminals that can appear as
/// the first token of a string derived from it.  One row per rule, in
/// declaration order; each row holds no terminal twice.  The rows are the
/// least solution of the FIRST equations: a fixpoint, and below every
/// assignment closed under the equations.
pub fn first_sets(grammar: &Grammar) -> (r: Vec<(String, Vec<FirstTerminal>)>)
    ensures
        r@.len() == entries(*grammar).len(),
        forall|i: int| 0 <= i < r@.len() ==> (#[trigger] r@[i]).0@ == entries(*grammar)[i].0@ && term_keys(r@[i].1@).no_duplicates(),
        first_fixpoint(entries(*grammar), result_sets(r@)),
        forall|g: spec_fn(Seq<char>) -> Set<TermKey>| first_closed(entries(*grammar), g) ==> #[trigger] rows_below(entries(*grammar), result_sets(r@), g),
        result_sets(r@) == first_lfp(entries(*grammar)),
{
    let nullable = nullable_rules(grammar);
    let keys = rules_keys(&grammar.productions);
    let n = keys.len();
    let ghost es = entries(*grammar);
    proof {
        lemma_keys_distinct(es);
        assert(keys@.map_values(|s: String| s@).len() == keys@.len());
        assert(entry_keys(es).len() == es.len());
        assert forall|j: int| 0 <= j < n implies (#[trigger] keys@[j])@ == es[j].0@ by {
            assert(keys@.map_values(|s: String| s@)[j] == keys@[j]@);
            assert(entry_keys(es)[j] == es[j].0@);
        }
    }
    let ghost u = terms_of_rules(es, es.len() as int);
    let ghost nl = Set::<Seq<char>>::empty();
    proof {
        lemma_terms_of_rules(es, es.len() as int);
        assert(nullable@.to_set() =~= nl);
    }
    // Seed every rule with an empty set.
    let mut rows: Vec<Vec<FirstTerminal>> = Vec::new();
    let mut i: usize = 0;
    while i < n
        invariant
            0 <= i <= n,
            rows@.len() == i,
            forall|j: int| 0 <= j < i ==> (#[trigger] rows@[j])@.len() == 0,
        decreases n - i,
    {
        rows.push(Vec::new());
        i += 1;
    }
    proof {
        assert forall|j: int| 0 <= j < n implies (#[trigger] row_sets(rows@)[j]) =~= Set::<TermKey>::empty() by {
            assert(term_keys(rows@[j]@) =~= Seq::<TermKey>::empty());
        }
        assert forall|j: int| 0 <= j < n implies term_keys((#[trigger] rows@[j])@).no_duplicates() by {
            assert(term_keys(rows@[j]@) =~= Seq::<TermKey>::empty());
        }
        assert forall|g: spec_fn(Seq<char>) -> Set<TermKey>| first_closed(es, g) implies #[trigger] rows_below(es, row_sets(rows@), g) by {
            assert forall|j: int| 0 <= j < es.len() implies (#[trigger] row_sets(rows@)[j]).subset_of(g(es[j].0@)) by {
                assert(row_sets(rows@)[j] =~= Set::<TermKey>::empty());
            }
        }
        lemma_lens_sum_bound(rows@, 0);
    }
    // Iterate until a full round adds nothing; each round reads the sets
    // as they stood at its start.
    loop
        invariant
            n == es.len(),
            es == entries(*grammar),
            nullable@.to_set() == nl,
            nl == Set::<Seq<char>>::empty(),
            u.finite(),
            forall|j: int| 0 <= j < es.len() ==> terms_of((#[trigger] es[j]).1.body).subset_of(u),
            rows@.len() == n,
            forall|j: int| 0 <= j < n ==> term_keys((#[trigger] rows@[j])@).no_duplicates(),
            forall|j: int| 0 <= j < n ==> (#[trigger] row_sets(rows@)[j]).subset_of(u),
            forall|j: int| 0 <= j < n ==> (#[trigger] row_sets(rows@)[j]).subset_of(first_node(es[j].1.body, rows_fn(es, row_sets(rows@)), nl)),
            forall|g: spec_fn(Seq<char>) -> Set<TermKey>| first_closed(es, g) ==> #[trigger] rows_below(es, row_sets(rows@), g),
            lens_sum(rows@) <= n * u.len(),
        ensures
            rows@.len() == n,
            forall|j: int| 0 <= j < n ==> term_keys((#[trigger] rows@[j])@).no_duplicates(),
            forall|j: int| 0 <= j < n ==> (#[trigger] row_sets(rows@)[j]) == first_node(es[j].1.body, rows_fn(es, row_sets(rows@)), nl),
            forall|g: spec_fn(Seq<char>) -> Set<TermKey>| first_closed(es, g) ==> #[trigger] rows_below(es, row_sets(rows@), g),
        decreases n * u.len() - lens_sum(rows@),
    {
        let ghost rs = row_sets(rows@);
        let mut news: Vec<Vec<FirstTerminal>> = Vec::new();
        let mut i: usize = 0;
        while i < n
            invariant
                0 <= i <= n,
                n == es.len(),
                es == entries(*grammar),
                nullable@.to_set() == nl,
                rs == row_sets(rows@),
                news@.len() == i,
                forall|j: int| 0 <= j < i ==> term_keys((#[trigger] news@[j])@).no_duplicates(),
                forall|j: int| 0 <= j < i ==> term_set((#[trigger] news@[j])@) == first_node(es[j].1.body, rows_fn(es, rs), nl),
            decreases n - i,
        {
            let (_, p) = rules_get_index(&grammar.productions, i);
            let mut acc: Vec<FirstTerminal> = Vec::new();
            proof {
                assert(term_keys(acc@) =~= Seq::<TermKey>::empty());
            }
            collect_first(&p.body, grammar, &rows, &nullable, &mut acc);
            assert(term_set(acc@) =~= first_node(es[i as int].1.body, rows_fn(es, rs), nl));
            news.push(acc);
            i += 1;
        }
        let ghost old_rows = rows@;
        let mut changed = false;
        let mut i: usize = 0;
        while i < n
            invariant
                0 <= i <= n,
                n == es.len(),
                news@.len() == n,
                rows@.len() == n,
                old_rows.len() == n,
                forall|j: int| 0 <= j < n ==> term_keys((#[trigger] rows@[j])@).no_duplicates(),
                forall|j: int| 0 <= j < i ==> (#[trigger] row_sets(rows@)[j]) == row_sets(old_rows)[j] + term_set(news@[j]@),
                forall|j: int| i <= j < n ==> (#[trigger] rows@[j]) == old_rows[j],
                changed == exists|j: int| 0 <= j < i && !term_set((#[trigger] news@[j])@).subset_of(row_sets(old_rows)[j]),
                lens_sum(rows@) >= lens_sum(old_rows) + if changed { 1int } else { 0int },
            decreases n - i,
        {
            let ghost before = rows@;
            assert(forall|j: int| 0 <= j < i ==> (#[trigger] row_sets(before)[j]) == row_sets(old_rows)[j] + term_set(news@[j]@));
            let mut row: Vec<FirstTerminal> = Vec::new();
            rows.set_and_swap(i, &mut row);
            let added = extend_terms(&mut row, &news[i]);
            let ghost row_v = row;
            rows.set(i, row);
            proof {
                assert(rows@ =~= before.update(i as int, row_v));
                lemma_lens_sum_update(before, i as int, row_v);
                assert(before[i as int] == old_rows[i as int]);
                assert(row_sets(rows@)[i as int] =~= row_sets(old_rows)[i as int] + term_set(news@[i as int]@));
                assert forall|j: int| 0 <= j < i implies (#[trigger] row_sets(rows@)[j]) == row_sets(old_rows)[j] + term_set(news@[j]@) by {
                    assert(rows@[j] == before[j]);
                    assert(row_sets(before)[j] == row_sets(rows@)[j]);
                }
            }
            if added {
                changed = true;
            }
            i += 1;
        }
        if !changed {
            proof {
                assert forall|j: int| 0 <= j < n implies (#[trigger] row_sets(rows@)[j]) == row_sets(old_rows)[j] by {
                    assert(!!term_set(news@[j]@).subset_of(row_sets(old_rows)[j]));
                    assert(row_sets(rows@)[j] =~= row_sets(old_rows)[j]);
                }
                assert(row_sets(rows@) =~= row_sets(old_rows));
                assert forall|j: int| 0 <= j < n implies (#[trigger] row_sets(rows@)[j]) == first_node(es[j].1.body, rows_fn(es, row_sets(rows@)), nl) by {
                    assert(!!term_set(news@[j]@).subset_of(row_sets(old_rows)[j]));
                    assert(row_sets(rows@)[j] =~= first_node(es[j].1.body, rows_fn(es, row_sets(rows@)), nl));
                }
                assert forall|j: int| 0 <= j < n implies (#[trigger] rows@[j])@.len() <= u.len() by {
                    assert(row_sets(rows@)[j] == row_sets(old_rows)[j]);
                    lemma_row_len_bound(rows@[j]@, u);
                }
                lemma_lens_sum_bound(rows@, u.len());
            }
            break;
        }
        proof {
            let rs2 = row_sets(rows@);
            assert forall|j: int| 0 <= j < es.len() implies (#[trigger] rs2[j]) == rs[j] + first_node(es[j].1.body, rows_fn(es, rs), nl) by {
                assert(rs2[j] == row_sets(old_rows)[j] + term_set(news@[j]@));
            }
            lemma_first_round(es, rs, rs2, u);
            assert forall|j: int| 0 <= j < n implies (#[trigger] rows@[j])@.len() <= u.len() by {
                assert(rs2[j].subset_of(u));
                lemma_row_len_bound(rows@[j]@, u);
            }
            lemma_lens_sum_bound(rows@, u.len());
        }
    }
    // Pair each row with its rule name.
    let ghost fin = rows@;
    let mut out: Vec<(String, Vec<FirstTerminal>)> = Vec::new();
    let mut i: usize = 0;
    while i < n
        invariant
            0 <= i <= n,
            n == es.len(),
            es == entries(*grammar),
            rows@.len() == n,
            fin.len() == n,
            out@.len() == i,
            keys@.len() == n,
            forall|j: int| 0 <= j < n ==> (#[trigger] keys@[j])@ == es[j].0@,
            forall|j: int| i <= j < n ==> (#[trigger] rows@[j]) == fin[j],
            forall|j: int| 0 <= j < i ==> (#[trigger] out@[j]).0@ == es[j].0@ && out@[j].1 == fin[j],
        decreases n - i,
    {
        let mut row: Vec<FirstTerminal> = Vec::new();
        rows.set_and_swap(i, &mut row);
        out.push((owned(keys[i].as_str()), row));
        i += 1;
    }
    proof {
        assert(result_sets(out@) =~= row_sets(fin));
        assert(first_least(es, result_sets(out@)));
        lemma_first_least_unique(es, result_sets(out@), first_lfp(es));
    }
    out
}

// ── Leading non-terminals ────────────────────────────────────────────────

/// The non-terminals that can appear as the leftmost symbol of `n`.
pub open spec fn lead_node(n: GrammarNode, nl: Set<Seq<char>>) -> Set<Seq<char>>
    decreases n,
{
    match n {
        GrammarNode::TerminalLiteral(_) => Set::empty(),
        GrammarNode::TerminalPattern(_) => Set::empty(),
        GrammarNode::NonTerminal(name) => set![name@],
        GrammarNode::Sequence(cs) => lead_seq(cs@, nl),
        GrammarNode::Choice(cs) => lead_choice(cs@, nl),
        GrammarNode::Optional(i) => lead_node(*i, nl),
        GrammarNode::ZeroOrMore(i) => lead_node(*i, nl),
        GrammarNode::OneOrMore(i) => lead_node(*i, nl),
        GrammarNode::Token(i) => lead_node(*i, nl),
        GrammarNode::TokenImmediate(i) => lead_node(*i, nl),
        GrammarNode::Alias(b, _) => lead_node(*b, nl),
        GrammarNode::Field(_, i) => lead_node(*i, nl),
        GrammarNode::Prec(_, _, i) => lead_node(*i, nl),
        GrammarNode::Reserved(_, i) => lead_node(*i, nl),
    }
}

/// Leading non-terminals of a sequence, past nullable prefixes.
pub open spec fn lead_seq(cs: Seq<GrammarNode>, nl: Set<Seq<char>>) -> Set<Seq<char>>
    decreases cs,
{
    if cs.len() == 0 {
        Set::empty()
    } else if nullable_node(cs[0], nl) {
        lead_node(cs[0], nl) + lead_seq(cs.drop_first(), nl)
    } else {
        lead_node(cs[0], nl)
    }
}

/// Leading non-terminals of a choice: the union over all alternatives.
pub open spec fn lead_choice(cs: Seq<GrammarNode>, nl: Set<Seq<char>>) -> Set<Seq<char>>
    decreases cs,
{
    if cs.len() == 0 {
        Set::empty()
    } else {
        lead_node(cs[0], nl) + lead_choice(cs.drop_first(), nl)
    }
}

/// The set of leading non-terminals of a node is finite.
pub proof fn lemma_lead_finite(n: GrammarNode, nl: Set<Seq<char>>)
    ensures
        lead_node(n, nl).finite(),
    decreases n,
{
    match n {
        GrammarNode::Sequence(cs) => lemma_lead_finite_list(cs@, nl),
        GrammarNode::Choice(cs) => lemma_lead_finite_list(cs@, nl),
        GrammarNode::Optional(i) => lemma_lead_finite(*i, nl),
        GrammarNode::ZeroOrMore(i) => lemma_lead_finite(*i, nl),
        GrammarNode::OneOrMore(i) => lemma_lead_finite(*i, nl),
        GrammarNode::Token(i) => lemma_lead_finite(*i, nl),
        GrammarNode::TokenImmediate(i) => lemma_lead_finite(*i, nl),
        GrammarNode::Alias(b, _) => lemma_lead_finite(*b, nl),
        GrammarNode::Field(_, i) => lemma_lead_finite(*i, nl),
        GrammarNode::Prec(_, _, i) => lemma_lead_finite(*i, nl),
        GrammarNode::Reserved(_, i) => lemma_lead_finite(*i, nl),
        _ => {},
    }
}

/// List form of [`lemma_lead_finite`].
pub proof fn lemma_lead_finite_list(cs: Seq<GrammarNode>, nl: Set<Seq<char>>)
    ensures
        lead_seq(cs, nl).finite(),
        lead_choice(cs, nl).finite(),
    decreases cs,
{
    if cs.len() > 0 {
        lemma_lead_finite(cs[0], nl);
        lemma_lead_finite_list(cs.drop_first(), nl);
    }
}

/// The leading non-terminals of the body of rule `a`, or none when `a` is
/// not a rule of `es`.
pub open spec fn lead_of(es: Seq<(String, Production)>, a: Seq<char>) -> Set<Seq<char>> {
    let i = key_pos(es, a);
    if i >= 0 {
        lead_node(es[i].1.body, Set::empty())
    } else {
        Set::empty()
    }
}

/// `b` is reached from rule `a` in at most `n + 1` leftmost steps, each
/// step from a rule to a leading non-terminal of its body.
pub open spec fn reach_within(es: Seq<(String, Production)>, a: Seq<char>, b: Seq<char>, n: nat) -> bool
    decreases n,
{
    lead_of(es, a).contains(b) || (n > 0 && exists|c: Seq<char>| #[trigger] lead_of(es, a).contains(c) && reach_within(es, c, b, (n - 1) as nat))
}

/// `b` can stand leftmost in a string derived from rule `a` in one or
/// more steps.
pub open spec fn left_reaches(es: Seq<(String, Production)>, a: Seq<char>, b: Seq<char>) -> bool {
    exists|n: nat| #[trigger] reach_within(es, a, b, n)
}

/// Allowing more steps keeps every reach.
proof fn lemma_reach_mono(es: Seq<(String, Production)>, a: Seq<char>, b: Seq<char>, n: nat, m: nat)
    requires
        reach_within(es, a, b, n),
        n <= m,
    ensures
        reach_within(es, a, b, m),
    decreases n,
{
    if !lead_of(es, a).contains(b) {
        let c = choose|c: Seq<char>| #[trigger] lead_of(es, a).contains(c) && reach_within(es, c, b, (n - 1) as nat);
        lemma_reach_mono(es, c, b, (n - 1) as nat, (m - 1) as nat);
    }
}

/// Reaches compose.
proof fn lemma_reach_trans(es: Seq<(String, Production)>, a: Seq<char>, b: Seq<char>, c: Seq<char>, n1: nat, n2: nat)
    requires
        reach_within(es, a, b, n1),
        reach_within(es, b, c, n2),
    ensures
        reach_within(es, a, c, n1 + n2 + 1),
    decreases n1,
{
    if lead_of(es, a).contains(b) {
        lemma_reach_mono(es, b, c, n2, n1 + n2);
        assert(reach_within(es, b, c, n1 + n2));
    } else {
        let d = choose|d: Seq<char>| #[trigger] lead_of(es, a).contains(d) && reach_within(es, d, b, (n1 - 1) as nat);
        lemma_reach_trans(es, d, b, c, (n1 - 1) as nat, n2);
        assert(reach_within(es, d, c, (n1 + n2) as nat));
    }
}

/// Every leading non-terminal of the first `k` rule bodies.
pub open spec fn lead_names(es: Seq<(String, Production)>, k: int) -> Set<Seq<char>>
    decreases k,
{
    if k <= 0 {
        Set::empty()
    } else {
        lead_names(es, k - 1) + lead_node(es[k - 1].1.body, Set::empty())
    }
}

/// `lead_names` is finite and holds each of its rules' leading names.
proof fn lemma_lead_names(es: Seq<(String, Production)>, k: int)
    ensures
        lead_names(es, k).finite(),
        forall|i: int| 0 <= i < k ==> lead_node((#[trigger] es[i]).1.body, Set::empty()).subset_of(lead_names(es, k)),
    decreases k,
{
    if k > 0 {
        lemma_lead_names(es, k - 1);
        lemma_lead_finite(es[k - 1].1.body, Set::empty());
    }
}

/// Adds the non-terminals that can appear leftmost in `node` to `result`;
/// returns whether `node` can produce the empty string.
fn collect_leading_nts(node: &GrammarNode, nullable: &NameSet, result: &mut NameSet) -> (r: bool)
    ensures
        final(result)@.to_set() == old(result)@.to_set() + lead_node(*node, nullable@.to_set()),
        old(result)@.no_duplicates() ==> final(result)@.no_duplicates(),
        r == nullable_node(*node, nullable@.to_set()),
    decreases node,
{
    let ghost nl = nullable@.to_set();
    match node {
        GrammarNode::TerminalLiteral(_) | GrammarNode::TerminalPattern(_) => {
            assert(result@.to_set() =~= old(result)@.to_set() + lead_node(*node, nl));
            false
        },
        GrammarNode::NonTerminal(name) => {
            let added = result.insert(name.as_str());
            proof {
                if added {
                    old(result)@.lemma_push_to_set_commute(name@);
                } else {
                    assert(old(result)@.to_set().insert(name@) =~= old(result)@.to_set());
                }
                assert(result@.to_set() =~= old(result)@.to_set() + lead_node(*node, nl));
            }
            nullable.contains(name.as_str())
        },
        GrammarNode::Sequence(children) => collect_leading_seq(children, nullable, result),
        GrammarNode::Choice(children) => collect_leading_choice(children, nullable, result),
        GrammarNode::Optional(inner) => {
            collect_leading_nts(inner, nullable, result);
            true
        },
        GrammarNode::ZeroOrMore(inner) => {
            collect_leading_nts(inner, nullable, result);
            true
        },
        GrammarNode::OneOrMore(inner) => collect_leading_nts(inner, nullable, result),
        GrammarNode::Token(inner) => collect_leading_nts(inner, nullable, result),
        GrammarNode::TokenImmediate(inner) => collect_leading_nts(inner, nullable, result),
        GrammarNode::Alias(body, _) => collect_leading_nts(body, nullable, result),
        GrammarNode::Field(_, inner) => collect_leading_nts(inner, nullable, result),
        GrammarNode::Prec(_, _, inner) => collect_leading_nts(inner, nullable, result),
        GrammarNode::Reserved(_, inner) => collect_leading_nts(inner, nullable, result),
    }
}

/// [`collect_leading_nts`] for a sequence: stops after the first element
/// that cannot be empty.
fn collect_leading_seq(children: &Vec<GrammarNode>, nullable: &NameSet, result: &mut NameSet) -> (r: bool)
    ensures
        final(result)@.to_set() == old(result)@.to_set() + lead_seq(children@, nullable@.to_set()),
        old(result)@.no_duplicates() ==> final(result)@.no_duplicates(),
        r == nullable_all(children@, nullable@.to_set()),
    decreases children,
{
    let ghost nl = nullable@.to_set();
    let mut i: usize = 0;
    assert(children@.skip(0) =~= children@);
    assert(result@.to_set() + lead_seq(children@, nl) =~= old(result)@.to_set() + lead_seq(children@, nl));
    while i < children.len()
        invariant
            0 <= i <= children.len(),
            nl == nullable@.to_set(),
            old(result)@.no_duplicates() ==> result@.no_duplicates(),
            result@.to_set() + lead_seq(children@.skip(i as int), nl) == old(result)@.to_set() + lead_seq(children@, nl),
            nullable_all(children@, nl) == nullable_all(children@.skip(i as int), nl),
        decreases children.len() - i,
    {
        let ghost before = result@.to_set();
        proof {
            assert(decreases_to!(*children => children[i as int]));
        }
        let nb = collect_leading_nts(&children[i], nullable, result);
        proof {
            let rest = children@.skip(i as int);
            assert(rest[0] == children@[i as int]);
            assert(rest.drop_first() =~= children@.skip(i + 1));
            if nb {
                assert(result@.to_set() + lead_seq(children@.skip(i + 1), nl) =~= before + lead_seq(rest, nl));
            } else {
                assert(result@.to_set() =~= before + lead_seq(rest, nl));
            }
        }
        if !nb {
            return false;
        }
        i += 1;
    }
    assert(children@.skip(i as int) =~= Seq::<GrammarNode>::empty());
    assert(result@.to_set() =~= result@.to_set() + lead_seq(children@.skip(i as int), nl));
    true
}

/// [`collect_leading_nts`] for a choice: every alternative contributes.
fn collect_leading_choice(children: &Vec<GrammarNode>, nullable: &NameSet, result: &mut NameSet) -> (r: bool)
    ensures
        final(result)@.to_set() == old(result)@.to_set() + lead_choice(children@, nullable@.to_set()),
        old(result)@.no_duplicates() ==> final(result)@.no_duplicates(),
        r == nullable_any(children@, nullable@.to_set()),
    decreases children,
{
    let ghost nl = nullable@.to_set();
    let mut any_nullable = false;
    let mut i: usize = 0;
    assert(children@.skip(0) =~= children@);
    assert(result@.to_set() + lead_choice(children@, nl) =~= old(result)@.to_set() + lead_choice(children@, nl));
    while i < children.len()
        invariant
            0 <= i <= children.len(),
            nl == nullable@.to_set(),
            old(result)@.no_duplicates() ==> result@.no_duplicates(),
            result@.to_set() + lead_choice(children@.skip(i as int), nl) == old(result)@.to_set() + lead_choice(children@, nl),
            nullable_any(children@, nl) == (any_nullable || nullable_any(children@.skip(i as int), nl)),
        decreases children.len() - i,
    {
        let ghost before = result@.to_set();
        proof {
            assert(decreases_to!(*children => children[i as int]));
        }
        let nb = collect_leading_nts(&children[i], nullable, result);
        proof {
            let rest = children@.skip(i as int);
            assert(rest[0] == children@[i as int]);
            assert(rest.drop_first() =~= children@.skip(i + 1));
            assert(result@.to_set() + lead_choice(children@.skip(i + 1), nl) =~= before + lead_choice(rest, nl));
        }
        if nb {
            any_nullable = true;
        }
        i += 1;
    }
    assert(children@.skip(i as int) =~= Seq::<GrammarNode>::empty());
    assert(result@.to_set() =~= result@.to_set() + lead_choice(children@.skip(i as int), nl));
    any_nullable
}

// ── Left recursion ───────────────────────────────────────────────────────

/// What one closure round adds to row `i`: the rows of the rules already
/// in row `i`.
pub open spec fn closure_extra(es: Seq<(String, Production)>, ts: Seq<Set<Seq<char>>>, i: int) -> Set<Seq<char>> {
    Set::new(|x: Seq<char>| exists|nt: Seq<char>| #[trigger] ts[i].contains(nt) && has_key(es, nt) && ts[key_pos(es, nt)].contains(x))
}

/// Every name in row `i` is reached leftmost from rule `i`.
pub open spec fn closure_sound(es: Seq<(String, Production)>, ts: Seq<Set<Seq<char>>>) -> bool {
    forall|i: int, x: Seq<char>| 0 <= i < es.len() && #[trigger] ts[i].contains(x) ==> left_reaches(es, es[i].0@, x)
}

/// Every row holds the leading non-terminals of its rule's body.
pub open spec fn closure_grown(es: Seq<(String, Production)>, ts: Seq<Set<Seq<char>>>) -> bool {
    forall|i: int| 0 <= i < es.len() ==> lead_node((#[trigger] es[i]).1.body, Set::empty()).subset_of(ts[i])
}

/// Each row already holds the rows of the rules in it.
pub open spec fn closure_closed(es: Seq<(String, Production)>, ts: Seq<Set<Seq<char>>>) -> bool {
    forall|i: int, nt: Seq<char>| 0 <= i < es.len() && #[trigger] ts[i].contains(nt) && has_key(es, nt) ==> ts[key_pos(es, nt)].subset_of(ts[i])
}

/// With distinct keys, rule `i` is the one found under its own name.
proof fn lemma_key_pos_self(es: Seq<(String, Production)>, i: int)
    requires
        keys_distinct(es),
        0 <= i < es.len(),
    ensures
        key_pos(es, es[i].0@) == i,
        lead_of(es, es[i].0@) == lead_node(es[i].1.body, Set::empty()),
{
    lemma_key_pos(es, es[i].0@);
}

/// One closure round keeps the rows sound, grown and within `v`.
proof fn lemma_closure_round(es: Seq<(String, Production)>, ts: Seq<Set<Seq<char>>>, ts2: Seq<Set<Seq<char>>>, v: Set<Seq<char>>)
    requires
        keys_distinct(es),
        ts.len() == es.len(),
        ts2.len() == es.len(),
        forall|i: int| 0 <= i < es.len() ==> (#[trigger] ts2[i]) == ts[i] + closure_extra(es, ts, i),
        closure_sound(es, ts),
        closure_grown(es, ts),
        forall|i: int| 0 <= i < es.len() ==> (#[trigger] ts[i]).subset_of(v),
    ensures
        closure_sound(es, ts2),
        closure_grown(es, ts2),
        forall|i: int| 0 <= i < es.len() ==> (#[trigger] ts2[i]).subset_of(v),
{
    assert forall|i: int, x: Seq<char>| 0 <= i < es.len() && #[trigger] ts2[i].contains(x) implies left_reaches(es, es[i].0@, x) by {
        if !ts[i].contains(x) {
            let nt = choose|nt: Seq<char>| #[trigger] ts[i].contains(nt) && has_key(es, nt) && ts[key_pos(es, nt)].contains(x);
            lemma_key_pos(es, nt);
            let j = key_pos(es, nt);
            assert(left_reaches(es, es[i].0@, nt));
            assert(left_reaches(es, es[j].0@, x));
            let n1 = choose|n1: nat| #[trigger] reach_within(es, es[i].0@, nt, n1);
            let n2 = choose|n2: nat| #[trigger] reach_within(es, nt, x, n2);
            lemma_reach_trans(es, es[i].0@, nt, x, n1, n2);
        }
    }
    assert forall|i: int| 0 <= i < es.len() implies lead_node((#[trigger] es[i]).1.body, Set::empty()).subset_of(ts2[i]) by {
        assert(lead_node(es[i].1.body, Set::empty()).subset_of(ts[i]));
    }
    assert forall|i: int| 0 <= i < es.len() implies (#[trigger] ts2[i]).subset_of(v) by {
        assert forall|x: Seq<char>| ts2[i].contains(x) implies v.contains(x) by {
            if !ts[i].contains(x) {
                let nt = choose|nt: Seq<char>| #[trigger] ts[i].contains(nt) && has_key(es, nt) && ts[key_pos(es, nt)].contains(x);
                lemma_key_pos(es, nt);
                assert(ts[key_pos(es, nt)].subset_of(v));
            }
        }
    }
}

/// In closed, grown rows, everything reached leftmost from rule `i` is in row `i`.
proof fn lemma_closure_complete(es: Seq<(String, Production)>, ts: Seq<Set<Seq<char>>>, i: int, x: Seq<char>, n: nat)
    requires
        keys_distinct(es),
        ts.len() == es.len(),
        closure_grown(es, ts),
        closure_closed(es, ts),
        0 <= i < es.len(),
        reach_within(es, es[i].0@, x, n),
    ensures
        ts[i].contains(x),
    decreases n,
{
    lemma_key_pos_self(es, i);
    assert(lead_node(es[i].1.body, Set::empty()).subset_of(ts[i]));
    if !lead_of(es, es[i].0@).contains(x) {
        let c = choose|c: Seq<char>| #[trigger] lead_of(es, es[i].0@).contains(c) && reach_within(es, c, x, (n - 1) as nat);
        lemma_key_pos(es, c);
        if key_pos(es, c) < 0 {
            assert(!reach_within(es, c, x, (n - 1) as nat));
        }
        let j = key_pos(es, c);
        lemma_closure_complete(es, ts, j, x, (n - 1) as nat);
        assert(ts[i].contains(c));
        assert(has_key(es, c));
        assert(ts[j].subset_of(ts[i]));
    }
}

/// The total length of a table of name sets.
pub open spec fn set_lens_sum(rows: Seq<NameSet>) -> int
    decreases rows.len(),
{
    if rows.len() == 0 {
        0
    } else {
        set_lens_sum(rows.drop_last()) + rows.last()@.len()
    }
}

/// Replacing one name set changes the total length by the difference.
proof fn lemma_set_lens_update(rows: Seq<NameSet>, i: int, x: NameSet)
    requires
        0 <= i < rows.len(),
    ensures
        set_lens_sum(rows.update(i, x)) == set_lens_sum(rows) - rows[i]@.len() + x@.len(),
    decreases rows.len(),
{
    if i == rows.len() - 1 {
        assert(rows.update(i, x).drop_last() =~= rows.drop_last());
    } else {
        lemma_set_lens_update(rows.drop_last(), i, x);
        assert(rows.update(i, x).drop_last() =~= rows.drop_last().update(i, x));
    }
}

/// Name sets of bounded length have a bounded total length.
proof fn lemma_set_lens_bound(rows: Seq<NameSet>, u: nat)
    requires
        forall|i: int| 0 <= i < rows.len() ==> (#[trigger] rows[i])@.len() <= u,
    ensures
        set_lens_sum(rows) <= rows.len() * u,
    decreases rows.len(),
{
    if rows.len() > 0 {
        lemma_set_lens_bound(rows.drop_last(), u);
        let k = rows.len() - 1;
        assert(rows[k]@.len() <= u);
        assert((k + 1) * u == k * u + u) by (nonlinear_arith);
    }
}

/// A duplicate-free name list drawn from a finite set is no longer than the set.
proof fn lemma_names_len_bound(v: Seq<Seq<char>>, u: Set<Seq<char>>)
    requires
        v.no_duplicates(),
        v.to_set().subset_of(u),
        u.finite(),
    ensures
        v.len() <= u.len(),
{
    v.unique_seq_to_set();
    vstd::set_lib::lemma_len_subset(v.to_set(), u);
}

/// The sets held by a table of name sets.
pub open spec fn name_sets(rows: Seq<NameSet>) -> Seq<Set<Seq<char>>> {
    rows.map_values(|s: NameSet| s@.to_set())
}

/// The members of a list after an insertion: the new item and the old ones.
proof fn lemma_insert_members(before: Seq<(String, bool)>, p: int, it: (String, bool))
    requires
        0 <= p <= before.len(),
    ensures
        exists|a: int| 0 <= a < before.insert(p, it).len() && before.insert(p, it)[a] == it,
        forall|b: int| 0 <= b < before.len() ==> exists|a: int| 0 <= a < before.insert(p, it).len() && before.insert(p, it)[a] == #[trigger] before[b],
        forall|a: int| 0 <= a < before.insert(p, it).len() ==> before.insert(p, it)[a] == it || exists|b: int| 0 <= b < before.len() && #[trigger] before.insert(p, it)[a] == before[b],
{
    let v = before.insert(p, it);
    assert(v[p] == it);
    assert forall|b: int| 0 <= b < before.len() implies exists|a: int| 0 <= a < v.len() && v[a] == #[trigger] before[b] by {
        if b < p {
            assert(v[b] == before[b]);
        } else {
            assert(v[b + 1] == before[b]);
        }
    }
    assert forall|a: int| 0 <= a < v.len() implies v[a] == it || exists|b: int| 0 <= b < before.len() && #[trigger] v[a] == before[b] by {
        if a < p {
            assert(v[a] == before[a]);
        } else if a > p {
            assert(v[a] == before[a - 1]);
        }
    }
}

/// Names in strictly increasing order.
pub open spec fn sorted_by_name(v: Seq<(String, bool)>) -> bool {
    forall|a: int, b: int| 0 <= a < b < v.len() ==> seq_lt((#[trigger] v[a]).0@, (#[trigger] v[b]).0@)
}

/// Inserting an item at the place where it fits keeps a list sorted.
proof fn lemma_insert_sorted(before: Seq<(String, bool)>, p: int, it: (String, bool))
    requires
        sorted_by_name(before),
        0 <= p <= before.len(),
        forall|a: int| 0 <= a < p ==> seq_lt((#[trigger] before[a]).0@, it.0@),
        p < before.len() ==> seq_lt(it.0@, before[p].0@),
    ensures
        sorted_by_name(before.insert(p, it)),
{
    let v = before.insert(p, it);
    assert forall|a: int, b: int| 0 <= a < b < v.len() implies seq_lt((#[trigger] v[a]).0@, (#[trigger] v[b]).0@) by {
        if a < p && b == p {
            assert(seq_lt(before[a].0@, it.0@));
        } else if a < p && b > p {
            assert(seq_lt(before[a].0@, it.0@));
            if b - 1 > p {
                assert(seq_lt(before[p].0@, before[b - 1].0@));
                lemma_seq_lt_trans(it.0@, before[p].0@, before[b - 1].0@);
            }
            lemma_seq_lt_trans(before[a].0@, it.0@, before[b - 1].0@);
        } else if a == p {
            if b - 1 > p {
                assert(seq_lt(before[p].0@, before[b - 1].0@));
                lemma_seq_lt_trans(it.0@, before[p].0@, before[b - 1].0@);
            }
        } else if a > p {
            assert(seq_lt(before[a - 1].0@, before[b - 1].0@));
        } else {
            assert(seq_lt(before[a].0@, before[b].0@));
        }
    }
}

/// Inserts `item` into `v`, which is in strictly increasing name order and
/// does not hold `item`'s name, keeping the order.
#[verifier::spinoff_prover]
#[verifier::rlimit(40)]
fn insert_by_name(v: &mut Vec<(String, bool)>, item: (String, bool))
    requires
        sorted_by_name(old(v)@),
        forall|a: int| 0 <= a < old(v)@.len() ==> (#[trigger] old(v)@[a]).0@ != item.0@,
    ensures
        sorted_by_name(final(v)@),
        final(v)@.len() == old(v)@.len() + 1,
        exists|a: int| 0 <= a < final(v)@.len() && final(v)@[a] == item,
        forall|b: int| 0 <= b < old(v)@.len() ==> exists|a: int| 0 <= a < final(v)@.len() && final(v)@[a] == #[trigger] old(v)@[b],
        forall|a: int| 0 <= a < final(v)@.len() ==> final(v)@[a] == item || exists|b: int| 0 <= b < old(v)@.len() && #[trigger] final(v)@[a] == old(v)@[b],
{
    let mut p: usize = 0;
    while p < v.len() && !str_lt(item.0.as_str(), v[p].0.as_str())
        invariant
            0 <= p <= v@.len(),
            v@ == old(v)@,
            forall|a: int| 0 <= a < p ==> seq_lt((#[trigger] v@[a]).0@, item.0@),
            forall|a: int| 0 <= a < v@.len() ==> (#[trigger] v@[a]).0@ != item.0@,
        decreases v@.len() - p,
    {
        proof {
            lemma_seq_lt_total(item.0@, v@[p as int].0@);
        }
        p += 1;
    }
    let ghost before = v@;
    let ghost it = item;
    v.insert(p, item);
    proof {
        assert(v@ == before.insert(p as int, it));
        lemma_insert_sorted(before, p as int, it);
        lemma_insert_members(before, p as int, it);
    }
}

/// Returns the left-recursive rules, sorted by name: each rule that can
/// derive a string starting with itself, paired with whether it does so
/// directly (its own body can start with it).  Left recursion is a
/// property of the grammar, not a defect: tree-sitter accepts it.
pub fn left_recursive_rules(grammar: &Grammar) -> (r: Vec<(String, bool)>)
    ensures
        forall|i: int, j: int| 0 <= i < j < r@.len() ==> seq_lt((#[trigger] r@[i]).0@, (#[trigger] r@[j]).0@),
        forall|i: int| 0 <= i < r@.len() ==> {
            &&& has_key(entries(*grammar), (#[trigger] r@[i]).0@)
            &&& left_reaches(entries(*grammar), r@[i].0@, r@[i].0@)
            &&& r@[i].1 == lead_of(entries(*grammar), r@[i].0@).contains(r@[i].0@)
        },
        forall|k: Seq<char>| has_key(entries(*grammar), k) && left_reaches(entries(*grammar), k, k)
            ==> exists|i: int| 0 <= i < r@.len() && (#[trigger] r@[i]).0@ == k,
{
    let nullable = nullable_rules(grammar);
    let keys = rules_keys(&grammar.productions);
    let n = keys.len();
    let ghost es = entries(*grammar);
    let ghost nl = Set::<Seq<char>>::empty();
    let ghost v = lead_names(es, n as int);
    proof {
        lemma_keys_distinct(es);
        lemma_lead_names(es, n as int);
        assert(nullable@.to_set() =~= nl);
        assert(keys@.map_values(|s: String| s@).len() == keys@.len());
        assert(entry_keys(es).len() == es.len());
        assert forall|j: int| 0 <= j < n implies (#[trigger] keys@[j])@ == es[j].0@ by {
            assert(keys@.map_values(|s: String| s@)[j] == keys@[j]@);
            assert(entry_keys(es)[j] == es[j].0@);
        }
    }
    // One step: the leading non-terminals of each rule's body.
    let mut one: Vec<NameSet> = Vec::new();
    let mut i: usize = 0;
    while i < n
        invariant
            0 <= i <= n,
            n == es.len(),
            es == entries(*grammar),
            nullable@.to_set() == nl,
            one@.len() == i,
            forall|j: int| 0 <= j < i ==> (#[trigger] one@[j])@.to_set() == lead_node(es[j].1.body, nl) && one@[j]@.no_duplicates(),
        decreases n - i,
    {
        let (_, p) = rules_get_index(&grammar.productions, i);
        let mut s = NameSet::new();
        proof {
            assert(s@.to_set() =~= Set::<Seq<char>>::empty());
        }
        collect_leading_nts(&p.body, &nullable, &mut s);
        assert(s@.to_set() =~= lead_node(es[i as int].1.body, nl));
        one.push(s);
        i += 1;
    }
    // Transitive closure by rounds, each reading the rows as they stood at its start.
    let mut trans: Vec<NameSet> = Vec::new();
    let mut i: usize = 0;
    while i < n
        invariant
            0 <= i <= n,
            one@.len() == n,
            trans@.len() == i,
            forall|j: int| 0 <= j < i ==> (#[trigger] trans@[j])@ == one@[j]@,
        decreases n - i,
    {
        trans.push(one[i].duplicate());
        i += 1;
    }
    proof {
        assert forall|j: int, x: Seq<char>| 0 <= j < es.len() && #[trigger] name_sets(trans@)[j].contains(x) implies left_reaches(es, es[j].0@, x) by {
            lemma_key_pos_self(es, j);
            assert(reach_within(es, es[j].0@, x, 0));
        }
        assert forall|j: int| 0 <= j < es.len() implies lead_node((#[trigger] es[j]).1.body, Set::empty()).subset_of(name_sets(trans@)[j]) by {
            assert(name_sets(trans@)[j] == one@[j]@.to_set());
        }
        assert forall|j: int| 0 <= j < n implies (#[trigger] trans@[j])@.len() <= v.len() by {
            assert(one@[j]@.to_set() == lead_node(es[j].1.body, nl));
            lemma_names_len_bound(trans@[j]@, v);
        }
        lemma_set_lens_bound(trans@, v.len());
    }
    loop
        invariant
            n == es.len(),
            es == entries(*grammar),
            keys_distinct(es),
            v.finite(),
            trans@.len() == n,
            forall|j: int| 0 <= j < n ==> (#[trigger] trans@[j])@.no_duplicates(),
            forall|j: int| 0 <= j < n ==> (#[trigger] name_sets(trans@)[j]).subset_of(v),
            closure_sound(es, name_sets(trans@)),
            closure_grown(es, name_sets(trans@)),
            set_lens_sum(trans@) <= n * v.len(),
        ensures
            trans@.len() == n,
            closure_sound(es, name_sets(trans@)),
            closure_grown(es, name_sets(trans@)),
            closure_closed(es, name_sets(trans@)),
        decreases n * v.len() - set_lens_sum(trans@),
    {
        let ghost ts = name_sets(trans@);
        let mut news: Vec<NameSet> = Vec::new();
        let mut i: usize = 0;
        while i < n
            invariant
                0 <= i <= n,
                n == es.len(),
                es == entries(*grammar),
                trans@.len() == n,
                ts == name_sets(trans@),
                news@.len() == i,
                forall|j: int| 0 <= j < i ==> (#[trigger] news@[j])@.to_set() == closure_extra(es, ts, j),
            decreases n - i,
        {
            let mut extra = NameSet::new();
            let row = &trans[i];
            let mut k: usize = 0;
            proof {
                assert(extra@.to_set() =~= Set::<Seq<char>>::empty());
            }
            while k < row.len()
                invariant
                    0 <= k <= row@.len(),
                    0 <= i < n,
                    n == es.len(),
                    es == entries(*grammar),
                    trans@.len() == n,
                    ts == name_sets(trans@),
                    *row == trans@[i as int],
                    extra@.to_set() == Set::new(|x: Seq<char>| exists|m: int| 0 <= m < k && has_key(es, #[trigger] row@[m]) && ts[key_pos(es, row@[m])].contains(x)),
                decreases row@.len() - k,
            {
                let nt = row.get(k);
                let ghost before = extra@.to_set();
                proof {
                    lemma_key_pos(es, nt@);
                }
                match rules_find(&grammar.productions, nt) {
                    Some(j) => {
                        proof {
                            assert(key_pos(es, nt@) == j as int);
                        }
                        extra.extend(&trans[j]);
                        proof {
                            assert(extra@.to_set() =~= Set::new(|x: Seq<char>| exists|m: int| 0 <= m < k + 1 && has_key(es, #[trigger] row@[m]) && ts[key_pos(es, row@[m])].contains(x))) by {
                                assert forall|x: Seq<char>| (exists|m: int| 0 <= m < k + 1 && has_key(es, #[trigger] row@[m]) && ts[key_pos(es, row@[m])].contains(x)) implies extra@.to_set().contains(x) by {
                                    let m = choose|m: int| 0 <= m < k + 1 && has_key(es, #[trigger] row@[m]) && ts[key_pos(es, row@[m])].contains(x);
                                    if m < k {
                                        assert(before.contains(x));
                                    } else {
                                        assert(ts[j as int] == trans@[j as int]@.to_set());
                                    }
                                }
                                assert forall|x: Seq<char>| extra@.to_set().contains(x) implies (exists|m: int| 0 <= m < k + 1 && has_key(es, #[trigger] row@[m]) && ts[key_pos(es, row@[m])].contains(x)) by {
                                    if before.contains(x) {
                                        let m = choose|m: int| 0 <= m < k && has_key(es, #[trigger] row@[m]) && ts[key_pos(es, row@[m])].contains(x);
                                        assert(0 <= m < k + 1);
                                    } else {
                                        assert(ts[j as int] == trans@[j as int]@.to_set());
                                        assert(has_key(es, row@[k as int]));
                                    }
                                }
                            }
                        }
                    },
                    None => {
                        proof {
                            assert(extra@.to_set() =~= Set::new(|x: Seq<char>| exists|m: int| 0 <= m < k + 1 && has_key(es, #[trigger] row@[m]) && ts[key_pos(es, row@[m])].contains(x))) by {
                                assert forall|x: Seq<char>| (exists|m: int| 0 <= m < k + 1 && has_key(es, #[trigger] row@[m]) && ts[key_pos(es, row@[m])].contains(x)) implies extra@.to_set().contains(x) by {
                                    let m = choose|m: int| 0 <= m < k + 1 && has_key(es, #[trigger] row@[m]) && ts[key_pos(es, row@[m])].contains(x);
                                    assert(m < k);
                                }
                            }
                        }
                    },
                }
                k += 1;
            }
            proof {
                assert(extra@.to_set() =~= closure_extra(es, ts, i as int)) by {
                    assert(ts[i as int] == row@.to_set());
                    assert forall|x: Seq<char>| closure_extra(es, ts, i as int).contains(x) implies extra@.to_set().contains(x) by {
                        let nt = choose|nt: Seq<char>| #[trigger] ts[i as int].contains(nt) && has_key(es, nt) && ts[key_pos(es, nt)].contains(x);
                        let m = choose|m: int| 0 <= m < row@.len() && row@[m] == nt;
                        assert(has_key(es, row@[m]));
                    }
                    assert forall|x: Seq<char>| extra@.to_set().contains(x) implies closure_extra(es, ts, i as int).contains(x) by {
                        let m = choose|m: int| 0 <= m < row@.len() && has_key(es, #[trigger] row@[m]) && ts[key_pos(es, row@[m])].contains(x);
                        assert(ts[i as int].contains(row@[m]));
                    }
                }
            }
            news.push(extra);
            i += 1;
        }
        let ghost old_rows = trans@;
        let mut changed = false;
        let mut i: usize = 0;
        while i < n
            invariant
                0 <= i <= n,
                n == es.len(),
                news@.len() == n,
                trans@.len() == n,
                old_rows.len() == n,
                forall|j: int| 0 <= j < n ==> (#[trigger] trans@[j])@.no_duplicates(),
                forall|j: int| 0 <= j < i ==> (#[trigger] name_sets(trans@)[j]) == name_sets(old_rows)[j] + news@[j]@.to_set(),
                forall|j: int| i <= j < n ==> (#[trigger] trans@[j]) == old_rows[j],
                changed == exists|j: int| 0 <= j < i && !(#[trigger] news@[j])@.to_set().subset_of(name_sets(old_rows)[j]),
                set_lens_sum(trans@) >= set_lens_sum(old_rows) + if changed { 1int } else { 0int },
            decreases n - i,
        {
            let ghost before = trans@;
            assert(forall|j: int| 0 <= j < i ==> (#[trigger] name_sets(before)[j]) == name_sets(old_rows)[j] + news@[j]@.to_set());
            let mut row = NameSet::new();
            trans.set_and_swap(i, &mut row);
            let added = row.extend(&news[i]);
            let ghost row_v = row;
            trans.set(i, row);
            proof {
                assert(trans@ =~= before.update(i as int, row_v));
                lemma_set_lens_update(before, i as int, row_v);
                assert(before[i as int] == old_rows[i as int]);
                assert(name_sets(trans@)[i as int] =~= name_sets(old_rows)[i as int] + news@[i as int]@.to_set());
                assert forall|j: int| 0 <= j < i implies (#[trigger] name_sets(trans@)[j]) == name_sets(old_rows)[j] + news@[j]@.to_set() by {
                    assert(trans@[j] == before[j]);
                    assert(name_sets(before)[j] == name_sets(trans@)[j]);
                }
            }
            if added {
                changed = true;
            }
            i += 1;
        }
        if !changed {
            proof {
                assert forall|j: int| 0 <= j < n implies (#[trigger] name_sets(trans@)[j]) == name_sets(old_rows)[j] by {
                    assert(!!news@[j]@.to_set().subset_of(name_sets(old_rows)[j]));
                    assert(name_sets(trans@)[j] =~= name_sets(old_rows)[j]);
                }
                assert(name_sets(trans@) =~= ts);
                assert forall|j: int, nt: Seq<char>| 0 <= j < es.len() && #[trigger] ts[j].contains(nt) && has_key(es, nt) implies ts[key_pos(es, nt)].subset_of(ts[j]) by {
                    assert(news@[j]@.to_set() == closure_extra(es, ts, j));
                    assert(closure_extra(es, ts, j).subset_of(ts[j]));
                    assert forall|x: Seq<char>| ts[key_pos(es, nt)].contains(x) implies ts[j].contains(x) by {
                        assert(closure_extra(es, ts, j).contains(x));
                    }
                }
                assert forall|j: int| 0 <= j < n implies (#[trigger] trans@[j])@.len() <= v.len() by {
                    assert(name_sets(trans@)[j] == ts[j]);
                    lemma_names_len_bound(trans@[j]@, v);
                }
                lemma_set_lens_bound(trans@, v.len());
            }
            break;
        }
        proof {
            let ts2 = name_sets(trans@);
            assert forall|j: int| 0 <= j < es.len() implies (#[trigger] ts2[j]) == ts[j] + closure_extra(es, ts, j) by {
                assert(ts2[j] == name_sets(old_rows)[j] + news@[j]@.to_set());
            }
            lemma_closure_round(es, ts, ts2, v);
            assert forall|j: int| 0 <= j < n implies (#[trigger] trans@[j])@.len() <= v.len() by {
                assert(ts2[j].subset_of(v));
                lemma_names_len_bound(trans@[j]@, v);
            }
            lemma_set_lens_bound(trans@, v.len());
        }
    }
    // Keep the rules that reach themselves, in name order.
    let ghost ts = name_sets(trans@);
    let mut found: Vec<(String, bool)> = Vec::new();
    let mut i: usize = 0;
    while i < n
        invariant
            0 <= i <= n,
            n == es.len(),
            es == entries(*grammar),
            keys_distinct(es),
            keys@.len() == n,
            forall|j: int| 0 <= j < n ==> (#[trigger] keys@[j])@ == es[j].0@,
            one@.len() == n,
            forall|j: int| 0 <= j < n ==> (#[trigger] one@[j])@.to_set() == lead_node(es[j].1.body, nl),
            nl == Set::<Seq<char>>::empty(),
            trans@.len() == n,
            ts == name_sets(trans@),
            sorted_by_name(found@),
            forall|a: int| 0 <= a < found@.len() ==> exists|j: int| 0 <= j < i && #[trigger] es[j].0@ == (#[trigger] found@[a]).0@
                && ts[j].contains(es[j].0@) && found@[a].1 == lead_node(es[j].1.body, nl).contains(es[j].0@),
            forall|j: int| 0 <= j < i && (#[trigger] ts[j]).contains(es[j].0@) ==> exists|a: int| 0 <= a < found@.len() && (#[trigger] found@[a]).0@ == es[j].0@,
        decreases n - i,
    {
        let name = keys[i].as_str();
        if trans[i].contains(name) {
            let direct = one[i].contains(name);
            proof {
                assert forall|a: int| 0 <= a < found@.len() implies (#[trigger] found@[a]).0@ != name@ by {
                    let j = choose|j: int| 0 <= j < i && #[trigger] es[j].0@ == (#[trigger] found@[a]).0@
                        && ts[j].contains(es[j].0@) && found@[a].1 == lead_node(es[j].1.body, nl).contains(es[j].0@);
                    assert(es[j].0@ != es[i as int].0@);
                }
            }
            let ghost before = found@;
            let item = (owned(name), direct);
            insert_by_name(&mut found, item);
            proof {
                assert forall|a: int| 0 <= a < found@.len() implies exists|j: int| 0 <= j < i + 1 && #[trigger] es[j].0@ == (#[trigger] found@[a]).0@
                    && ts[j].contains(es[j].0@) && found@[a].1 == lead_node(es[j].1.body, nl).contains(es[j].0@) by {
                    if found@[a] == item {
                        assert(es[i as int].0@ == found@[a].0@);
                        assert(ts[i as int] == trans@[i as int]@.to_set());
                    } else {
                        let b = choose|b: int| 0 <= b < before.len() && found@[a] == #[trigger] before[b];
                        let j = choose|j: int| 0 <= j < i && #[trigger] es[j].0@ == (#[trigger] before[b]).0@
                            && ts[j].contains(es[j].0@) && before[b].1 == lead_node(es[j].1.body, nl).contains(es[j].0@);
                        assert(0 <= j < i + 1);
                    }
                }
                assert forall|j: int| 0 <= j < i + 1 && (#[trigger] ts[j]).contains(es[j].0@) implies exists|a: int| 0 <= a < found@.len() && (#[trigger] found@[a]).0@ == es[j].0@ by {
                    if j == i {
                        let a = choose|a: int| 0 <= a < found@.len() && found@[a] == item;
                        assert(found@[a].0@ == es[j].0@);
                    } else {
                        let b = choose|b: int| 0 <= b < before.len() && (#[trigger] before[b]).0@ == es[j].0@;
                        let a = choose|a: int| 0 <= a < found@.len() && found@[a] == before[b];
                        assert(found@[a].0@ == es[j].0@);
                    }
                }
            }
        } else {
            proof {
                assert(ts[i as int] == trans@[i as int]@.to_set());
            }
        }
        i += 1;
    }
    proof {
        assert forall|a: int| 0 <= a < found@.len() implies {
            &&& has_key(es, (#[trigger] found@[a]).0@)
            &&& left_reaches(es, found@[a].0@, found@[a].0@)
            &&& found@[a].1 == lead_of(es, found@[a].0@).contains(found@[a].0@)
        } by {
            let j = choose|j: int| 0 <= j < n && #[trigger] es[j].0@ == (#[trigger] found@[a]).0@
                && ts[j].contains(es[j].0@) && found@[a].1 == lead_node(es[j].1.body, nl).contains(es[j].0@);
            lemma_key_pos_self(es, j);
        }
        assert forall|k: Seq<char>| has_key(es, k) && left_reaches(es, k, k) implies exists|a: int| 0 <= a < found@.len() && (#[trigger] found@[a]).0@ == k by {
            lemma_key_pos(es, k);
            let j = key_pos(es, k);
            let m = choose|m: nat| #[trigger] reach_within(es, k, k, m);
            lemma_closure_complete(es, ts, j, k, m);
            assert(ts[j].contains(es[j].0@));
        }
    }
    found
}

// ── Counts ───────────────────────────────────────────────────────────────

/// The number of the first `k` rules whose body references no non-terminal.
pub open spec fn leaf_count(es: Seq<(String, Production)>, k: int) -> int
    decreases k,
{
    if k <= 0 {
        0
    } else {
        leaf_count(es, k - 1) + if contains_nt(es[k - 1].1.body) { 0int } else { 1int }
    }
}

/// Returns the number of rules whose body references no non-terminal:
/// rules defined entirely in terms of terminals.
pub fn count_leaf_rules(grammar: &Grammar) -> (r: usize)
    ensures
        r == leaf_count(entries(*grammar), entries(*grammar).len() as int),
{
    let n = rules_len(&grammar.productions);
    let mut count: usize = 0;
    let mut i: usize = 0;
    while i < n
        invariant
            0 <= i <= n,
            n == entries(*grammar).len(),
            count == leaf_count(entries(*grammar), i as int),
            count <= i,
        decreases n - i,
    {
        let (_, p) = rules_get_index(&grammar.productions, i);
        if !p.body.contains_nonterminal() {
            count += 1;
        }
        i += 1;
    }
    count
}

/// The texts of the terminals in `ts` of one kind: literals (`true`) or
/// patterns (`false`).
pub open spec fn texts_of_kind(ts: Set<TermKey>, literal: bool) -> Set<Seq<char>> {
    Set::new(|s: Seq<char>| ts.contains((literal, s)))
}

/// Adds every literal terminal of `node` to `literals` and every pattern
/// terminal to `patterns`.
fn collect_terminals(node: &GrammarNode, literals: &mut NameSet, patterns: &mut NameSet)
    ensures
        final(literals)@.to_set() == old(literals)@.to_set() + texts_of_kind(terms_of(*node), true),
        final(patterns)@.to_set() == old(patterns)@.to_set() + texts_of_kind(terms_of(*node), false),
        old(literals)@.no_duplicates() ==> final(literals)@.no_duplicates(),
        old(patterns)@.no_duplicates() ==> final(patterns)@.no_duplicates(),
    decreases node,
{
    match node {
        GrammarNode::TerminalLiteral(s) => {
            let added = literals.insert(s.as_str());
            proof {
                if added {
                    old(literals)@.lemma_push_to_set_commute(s@);
                }
                assert(literals@.to_set() =~= old(literals)@.to_set() + texts_of_kind(terms_of(*node), true));
                assert(patterns@.to_set() =~= old(patterns)@.to_set() + texts_of_kind(terms_of(*node), false));
            }
        },
        GrammarNode::TerminalPattern(s) => {
            let added = patterns.insert(s.as_str());
            proof {
                if added {
                    old(patterns)@.lemma_push_to_set_commute(s@);
                }
                assert(literals@.to_set() =~= old(literals)@.to_set() + texts_of_kind(terms_of(*node), true));
                assert(patterns@.to_set() =~= old(patterns)@.to_set() + texts_of_kind(terms_of(*node), false));
            }
        },
        GrammarNode::NonTerminal(_) => {
            assert(literals@.to_set() =~= old(literals)@.to_set() + texts_of_kind(terms_of(*node), true));
            assert(patterns@.to_set() =~= old(patterns)@.to_set() + texts_of_kind(terms_of(*node), false));
        },
        GrammarNode::Sequence(children) => collect_terminals_list(children, literals, patterns),
        GrammarNode::Choice(children) => collect_terminals_list(children, literals, patterns),
        GrammarNode::Optional(inner) => collect_terminals(inner, literals, patterns),
        GrammarNode::ZeroOrMore(inner) => collect_terminals(inner, literals, patterns),
        GrammarNode::OneOrMore(inner) => collect_terminals(inner, literals, patterns),
        GrammarNode::Token(inner) => collect_terminals(inner, literals, patterns),
        GrammarNode::TokenImmediate(inner) => collect_terminals(inner, literals, patterns),
        GrammarNode::Alias(body, _) => collect_terminals(body, literals, patterns),
        GrammarNode::Field(_, inner) => collect_terminals(inner, literals, patterns),
        GrammarNode::Prec(_, _, inner) => collect_terminals(inner, literals, patterns),
        GrammarNode::Reserved(_, inner) => collect_terminals(inner, literals, patterns),
    }
}

/// [`collect_terminals`] over each of `children`.
fn collect_terminals_list(children: &Vec<GrammarNode>, literals: &mut NameSet, patterns: &mut NameSet)
    ensures
        final(literals)@.to_set() == old(literals)@.to_set() + texts_of_kind(terms_of_list(children@), true),
        final(patterns)@.to_set() == old(patterns)@.to_set() + texts_of_kind(terms_of_list(children@), false),
        old(literals)@.no_duplicates() ==> final(literals)@.no_duplicates(),
        old(patterns)@.no_duplicates() ==> final(patterns)@.no_duplicates(),
    decreases children,
{
    let mut i: usize = 0;
    assert(children@.skip(0) =~= children@);
    assert(literals@.to_set() + texts_of_kind(terms_of_list(children@), true) =~= old(literals)@.to_set() + texts_of_kind(terms_of_list(children@), true));
    assert(patterns@.to_set() + texts_of_kind(terms_of_list(children@), false) =~= old(patterns)@.to_set() + texts_of_kind(terms_of_list(children@), false));
    while i < children.len()
        invariant
            0 <= i <= children.len(),
            literals@.to_set() + texts_of_kind(terms_of_list(children@.skip(i as int)), true) == old(literals)@.to_set() + texts_of_kind(terms_of_list(children@), true),
            patterns@.to_set() + texts_of_kind(terms_of_list(children@.skip(i as int)), false) == old(patterns)@.to_set() + texts_of_kind(terms_of_list(children@), false),
            old(literals)@.no_duplicates() ==> literals@.no_duplicates(),
            old(patterns)@.no_duplicates() ==> patterns@.no_duplicates(),
        decreases children.len() - i,
    {
        let ghost bl = literals@.to_set();
        let ghost bp = patterns@.to_set();
        proof {
            assert(decreases_to!(*children => children[i as int]));
        }
        collect_terminals(&children[i], literals, patterns);
        proof {
            let rest = children@.skip(i as int);
            assert(rest[0] == children@[i as int]);
            assert(rest.drop_first() =~= children@.skip(i + 1));
            assert(texts_of_kind(terms_of_list(rest), true) =~= texts_of_kind(terms_of(rest[0]), true) + texts_of_kind(terms_of_list(rest.drop_first()), true));
            assert(texts_of_kind(terms_of_list(rest), false) =~= texts_of_kind(terms_of(rest[0]), false) + texts_of_kind(terms_of_list(rest.drop_first()), false));
            assert(literals@.to_set() + texts_of_kind(terms_of_list(children@.skip(i + 1)), true) =~= bl + texts_of_kind(terms_of_list(rest), true));
            assert(patterns@.to_set() + texts_of_kind(terms_of_list(children@.skip(i + 1)), false) =~= bp + texts_of_kind(terms_of_list(rest), false));
        }
        i += 1;
    }
    assert(children@.skip(i as int) =~= Seq::<GrammarNode>::empty());
    assert(literals@.to_set() =~= literals@.to_set() + texts_of_kind(terms_of_list(children@.skip(i as int)), true));
    assert(patterns@.to_set() =~= patterns@.to_set() + texts_of_kind(terms_of_list(children@.skip(i as int)), false));
}

/// Returns `(unique_literals, unique_patterns)`: how many distinct literal
/// texts and distinct pattern texts occur across all rule bodies.  Texts
/// are compared as written, so `'x'` and `"x"` are two literals.
pub fn count_unique_terminals(grammar: &Grammar) -> (r: (usize, usize))
    ensures
        r.0 == texts_of_kind(terms_of_rules(entries(*grammar), entries(*grammar).len() as int), true).len(),
        r.1 == texts_of_kind(terms_of_rules(entries(*grammar), entries(*grammar).len() as int), false).len(),
{
    let ghost es = entries(*grammar);
    let mut literals = NameSet::new();
    let mut patterns = NameSet::new();
    let n = rules_len(&grammar.productions);
    let mut i: usize = 0;
    proof {
        assert(literals@.to_set() =~= texts_of_kind(terms_of_rules(es, 0), true));
        assert(patterns@.to_set() =~= texts_of_kind(terms_of_rules(es, 0), false));
    }
    while i < n
        invariant
            0 <= i <= n,
            n == es.len(),
            es == entries(*grammar),
            literals@.no_duplicates(),
            patterns@.no_duplicates(),
            literals@.to_set() == texts_of_kind(terms_of_rules(es, i as int), true),
            patterns@.to_set() == texts_of_kind(terms_of_rules(es, i as int), false),
        decreases n - i,
    {
        let (_, p) = rules_get_index(&grammar.productions, i);
        collect_terminals(&p.body, &mut literals, &mut patterns);
        proof {
            assert(literals@.to_set() =~= texts_of_kind(terms_of_rules(es, i + 1), true));
            assert(patterns@.to_set() =~= texts_of_kind(terms_of_rules(es, i + 1), false));
        }
        i += 1;
    }
    proof {
        literals@.unique_seq_to_set();
        patterns@.unique_seq_to_set();
    }
    (literals.len(), patterns.len())
}

/// The left-recursive rule names, direct (`true`) or mutual only (`false`).
pub open spec fn left_recursive_kind(es: Seq<(String, Production)>, direct: bool) -> Set<Seq<char>> {
    Set::new(|k: Seq<char>| has_key(es, k) && left_reaches(es, k, k) && lead_of(es, k).contains(k) == direct)
}

/// Appending the name of entry `i` to the names of the earlier entries with
/// flag `flag` gives the names of the first `i + 1` entries with that flag.
proof fn lemma_push_tracks(lr: Seq<(String, bool)>, names: Seq<Seq<char>>, i: int, flag: bool)
    requires
        0 <= i < lr.len(),
        lr[i].1 == flag,
        names.no_duplicates(),
        forall|a: int| 0 <= a < i ==> (#[trigger] lr[a]).0@ != lr[i].0@,
        forall|x: Seq<char>| names.contains(x) <==> exists|a: int| 0 <= a < i && (#[trigger] lr[a]).0@ == x && lr[a].1 == flag,
    ensures
        names.push(lr[i].0@).no_duplicates(),
        forall|x: Seq<char>| names.push(lr[i].0@).contains(x) <==> exists|a: int| 0 <= a < i + 1 && (#[trigger] lr[a]).0@ == x && lr[a].1 == flag,
{
    let x = lr[i].0@;
    let nn = names.push(x);
    if names.contains(x) {
        let a = choose|a: int| 0 <= a < i && (#[trigger] lr[a]).0@ == x && lr[a].1 == flag;
        assert(false);
    }
    assert forall|y: Seq<char>| nn.contains(y) <==> exists|a: int| 0 <= a < i + 1 && (#[trigger] lr[a]).0@ == y && lr[a].1 == flag by {
        if nn.contains(y) {
            let k = choose|k: int| 0 <= k < nn.len() && nn[k] == y;
            if k < names.len() {
                assert(names[k] == y);
                assert(names.contains(y));
                let a = choose|a: int| 0 <= a < i && (#[trigger] lr[a]).0@ == y && lr[a].1 == flag;
                assert(0 <= a < i + 1);
            } else {
                assert(lr[i].0@ == y);
            }
        }
        if exists|a: int| 0 <= a < i + 1 && (#[trigger] lr[a]).0@ == y && lr[a].1 == flag {
            let a = choose|a: int| 0 <= a < i + 1 && (#[trigger] lr[a]).0@ == y && lr[a].1 == flag;
            if a < i {
                assert(names.contains(y));
                let k = choose|k: int| 0 <= k < names.len() && names[k] == y;
                assert(nn[k] == y);
            } else {
                assert(nn[names.len() as int] == y);
            }
        }
    }
}

/// Returns the number of directly and of only mutually left-recursive
/// rules, as `(direct, mutual)`.
pub fn count_left_recursive(grammar: &Grammar) -> (r: (usize, usize))
    ensures
        r.0 == left_recursive_kind(entries(*grammar), true).len(),
        r.1 == left_recursive_kind(entries(*grammar), false).len(),
{
    let ghost es = entries(*grammar);
    let lr = left_recursive_rules(grammar);
    let mut direct: usize = 0;
    let mut mutual: usize = 0;
    let ghost mut dn: Seq<Seq<char>> = seq![];
    let ghost mut mn: Seq<Seq<char>> = seq![];
    let mut i: usize = 0;
    while i < lr.len()
        invariant
            0 <= i <= lr@.len(),
            sorted_by_name(lr@),
            direct == dn.len(),
            mutual == mn.len(),
            direct + mutual == i,
            dn.no_duplicates(),
            mn.no_duplicates(),
            forall|x: Seq<char>| dn.contains(x) <==> exists|a: int| 0 <= a < i && (#[trigger] lr@[a]).0@ == x && lr@[a].1 == true,
            forall|x: Seq<char>| mn.contains(x) <==> exists|a: int| 0 <= a < i && (#[trigger] lr@[a]).0@ == x && lr@[a].1 == false,
        decreases lr@.len() - i,
    {
        let ghost x = lr@[i as int].0@;
        proof {
            assert forall|a: int| 0 <= a < i implies (#[trigger] lr@[a]).0@ != x by {
                assert(seq_lt(lr@[a].0@, lr@[i as int].0@));
                lemma_seq_lt_total(x, x);
            }
        }
        let ghost od = dn;
        let ghost om = mn;
        if lr[i].1 {
            direct += 1;
            proof {
                dn = dn.push(x);
                lemma_push_tracks(lr@, od, i as int, true);
            }
        } else {
            mutual += 1;
            proof {
                mn = mn.push(x);
                lemma_push_tracks(lr@, om, i as int, false);
            }
        }
        i += 1;
    }
    proof {
        assert(dn.to_set() =~= left_recursive_kind(es, true)) by {
            assert forall|k: Seq<char>| left_recursive_kind(es, true).contains(k) implies dn.to_set().contains(k) by {
                let a = choose|a: int| 0 <= a < lr@.len() && (#[trigger] lr@[a]).0@ == k;
                assert(lr@[a].1 == lead_of(es, k).contains(k));
            }
        }
        assert(mn.to_set() =~= left_recursive_kind(es, false)) by {
            assert forall|k: Seq<char>| left_recursive_kind(es, false).contains(k) implies mn.to_set().contains(k) by {
                let a = choose|a: int| 0 <= a < lr@.len() && (#[trigger] lr@[a]).0@ == k;
                assert(lr@[a].1 == lead_of(es, k).contains(k));
            }
        }
        dn.unique_seq_to_set();
        mn.unique_seq_to_set();
    }
    (direct, mutual)
}

// ── FIRST-set statistics ─────────────────────────────────────────────────

/// The smallest size among the sets of `s` (meaningful when `s` is not empty).
pub open spec fn sizes_min(s: Seq<Set<TermKey>>) -> int
    decreases s.len(),
{
    if s.len() <= 1 {
        if s.len() == 1 { s[0].len() as int } else { 0 }
    } else if s.last().len() < sizes_min(s.drop_last()) {
        s.last().len() as int
    } else {
        sizes_min(s.drop_last())
    }
}

/// The largest size among the sets of `s`.
pub open spec fn sizes_max(s: Seq<Set<TermKey>>) -> int
    decreases s.len(),
{
    if s.len() == 0 {
        0
    } else if s.last().len() > sizes_max(s.drop_last()) {
        s.last().len() as int
    } else {
        sizes_max(s.drop_last())
    }
}

/// The total size of the sets of `s`.
pub open spec fn sizes_sum(s: Seq<Set<TermKey>>) -> int
    decreases s.len(),
{
    if s.len() == 0 {
        0
    } else {
        sizes_sum(s.drop_last()) + s.last().len()
    }
}

/// `sum / count` in tenths, rounded to the nearest tenth with halves up.
pub open spec fn tenths_rounded(sum: int, count: int) -> int {
    (20 * sum + count) / (2 * count)
}

/// Splitting the sum by the count keeps the rounded mean.
proof fn lemma_tenths_split(sum: int, count: int, q: int, r: int)
    requires
        count > 0,
        sum == count * q + r,
        0 <= r < count,
    ensures
        tenths_rounded(sum, count) == 10 * q + (20 * r + count) / (2 * count),
{
    let b = 20 * r + count;
    let d = 2 * count;
    let t = b / d;
    let m = b % d;
    vstd::arithmetic::div_mod::lemma_fundamental_div_mod(b, d);
    assert(0 <= m < d);
    assert(20 * sum + count == (10 * q + t) * d + m) by (nonlinear_arith)
        requires
            sum == count * q + r,
            b == d * t + m,
            b == 20 * r + count,
            d == 2 * count,
    ;
    vstd::arithmetic::div_mod::lemma_fundamental_div_mod_converse_div(20 * sum + count, d, 10 * q + t, m);
}

/// Returns the smallest, largest and mean FIRST-set size over all rules, or
/// `None` for a grammar without rules.  Runs the full [`first_sets`] fixpoint.
pub fn first_set_stats(grammar: &Grammar) -> (r: Option<crate::summary::FirstSetStats>)
    ensures
        r is None <==> entries(*grammar).len() == 0,
        r matches Some(st) ==> {
            &&& st.min == sizes_min(first_lfp(entries(*grammar)))
            &&& st.max == sizes_max(first_lfp(entries(*grammar)))
            &&& st.avg_tenths == tenths_rounded(sizes_sum(first_lfp(entries(*grammar))), entries(*grammar).len() as int)
        },
{
    let sets = first_sets(grammar);
    let n = sets.len();
    if n == 0 {
        return None;
    }
    let ghost lfp = first_lfp(entries(*grammar));
    let mut min: usize = 0;
    let mut max: usize = 0;
    let mut sum: u128 = 0;
    let mut i: usize = 0;
    while i < n
        invariant
            0 <= i <= n,
            n == sets@.len(),
            n > 0,
            lfp == result_sets(sets@),
            forall|j: int| 0 <= j < n ==> term_keys((#[trigger] sets@[j]).1@).no_duplicates(),
            min == sizes_min(lfp.take(i as int)),
            max == sizes_max(lfp.take(i as int)),
            sum == sizes_sum(lfp.take(i as int)),
            sum <= i * (usize::MAX as int),
        decreases n - i,
    {
        let len = sets[i].1.len();
        proof {
            term_keys(sets@[i as int].1@).unique_seq_to_set();
            assert(lfp[i as int].len() == len);
            let t = lfp.take(i as int + 1);
            assert(t.drop_last() =~= lfp.take(i as int));
            assert(t.last() == lfp[i as int]);
            assert(sum + len <= (i + 1) * (usize::MAX as int)) by (nonlinear_arith)
                requires
                    sum <= i * (usize::MAX as int),
                    len <= usize::MAX,
            ;
            assert((i + 1) * (usize::MAX as int) <= (usize::MAX as int) * (usize::MAX as int)) by (nonlinear_arith)
                requires
                    i < usize::MAX,
            ;
            assert((usize::MAX as int) * (usize::MAX as int) < u128::MAX) by (nonlinear_arith)
                requires
                    usize::MAX <= u64::MAX,
            ;
        }
        if i == 0 || len < min {
            min = len;
        }
        if len > max {
            max = len;
        }
        sum = sum + len as u128;
        i += 1;
    }
    proof {
        assert(lfp.take(n as int) =~= lfp);
    }
    let count = n as u128;
    let q = sum / count;
    let rem = sum % count;
    proof {
        vstd::arithmetic::div_mod::lemma_fundamental_div_mod(sum as int, count as int);
        assert(sum as int == count * q + rem);
        lemma_tenths_split(sum as int, count as int, q as int, rem as int);
        assert(q <= usize::MAX) by (nonlinear_arith)
            requires
                sum as int == count * q + rem,
                0 <= rem,
                sum <= count * (usize::MAX as int),
                count > 0,
        ;
        assert((20 * rem + count) / (2 * count) <= 10) by (nonlinear_arith)
            requires
                rem < count,
                count > 0,
        ;
    }
    let avg_tenths = 10 * q + (20 * rem + count) / (2 * count);
    Some(crate::summary::FirstSetStats { min, max, avg_tenths })
}

} // verus!
