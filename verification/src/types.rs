//! The [`Grammar`] value: rules in declaration order plus every directive.

use indexmap::IndexMap;
use vstd::prelude::*;
use vstd::string::*;
use crate::diagnostic::{plain_diag, Diagnostic, Severity};
use crate::directive::{loc, loc_text, ConflictGroup, DirectiveItem, NameOrLiteral, PrecedenceGroup, ReservedEntry};
use crate::nameset::NameSet;
use crate::production::{production_text, Production};
use crate::rules::{entry_keys, has_key, rule_entries, rules_find, rules_get_index, rules_insert, rules_len, rules_new};

verus! {

/// The complete grammar: rules in declaration order and every directive.
#[derive(Debug)]
pub struct Grammar {
    /// Named rules in declaration order, keyed by rule name.
    pub productions: IndexMap<String, Production>,
    /// Explicit root rule declared with `%axiom`, if any; reached through
    /// [`Grammar::root_rule`] and [`Grammar::axiom_directive`].
    pub axiom_item: Option<DirectiveItem>,
    /// The `%word` rule, if declared.
    pub word: Option<DirectiveItem>,
    /// Conflict groups declared with `%conflicts`.
    pub conflicts: Vec<ConflictGroup>,
    /// Groups declared with `%precedences`.
    pub precedences: Vec<PrecedenceGroup>,
    /// Rule names declared with `%inline`.
    pub inline: Vec<DirectiveItem>,
    /// Rule names declared with `%supertypes`.
    pub supertypes: Vec<DirectiveItem>,
    /// Items declared with `%extras` (patterns or rule names).
    pub extras: Vec<DirectiveItem>,
    /// Items declared with `%externals`.
    pub externals: Vec<NameOrLiteral>,
    /// Non-terminal names that appear on right-hand sides of rules.
    pub rhs_nonterminals: NameSet,
    /// Diagnostics accumulated while parsing.
    pub parse_diagnostics: Vec<Diagnostic>,
    /// Reserved-word sets declared with `%reserved`.
    pub reserved_sets: Vec<ReservedEntry>,
    /// Reserved-set names referenced by rule-level annotations.
    pub reserved_set_refs: Vec<DirectiveItem>,
    /// Named precedence levels referenced by `%prec 'name'` annotations.
    pub prec_name_refs: Vec<DirectiveItem>,
}

/// The rules of `g`, in declaration order.
pub open spec fn entries(g: Grammar) -> Seq<(String, Production)> {
    rule_entries(g.productions)
}

/// The position of the first entry of `es` whose key is `k`, or -1.
pub open spec fn key_pos(es: Seq<(String, Production)>, k: Seq<char>) -> int
    decreases es.len(),
{
    if es.len() == 0 {
        -1
    } else if es.last().0@ == k && key_pos(es.drop_last(), k) < 0 {
        es.len() - 1
    } else {
        key_pos(es.drop_last(), k)
    }
}

/// `key_pos` finds the first entry with key `k`, and finds one exactly when there is one.
pub proof fn lemma_key_pos(es: Seq<(String, Production)>, k: Seq<char>)
    ensures
        -1 <= key_pos(es, k) < es.len(),
        key_pos(es, k) >= 0 ==> es[key_pos(es, k)].0@ == k,
        key_pos(es, k) >= 0 ==> forall|j: int| 0 <= j < key_pos(es, k) ==> (#[trigger] es[j]).0@ != k,
        key_pos(es, k) < 0 <==> !has_key(es, k),
        key_pos(es, k) < 0 ==> forall|j: int| 0 <= j < es.len() ==> (#[trigger] es[j]).0@ != k,
    decreases es.len(),
{
    if es.len() > 0 {
        lemma_key_pos(es.drop_last(), k);
        let d = es.drop_last();
        assert forall|j: int| 0 <= j < d.len() implies d[j] == es[j] by {}
        if key_pos(es, k) < 0 {
            assert forall|j: int| 0 <= j < es.len() implies (#[trigger] es[j]).0@ != k by {
                if j < es.len() - 1 {
                    assert(d[j] == es[j]);
                }
            }
        }
        if has_key(es, k) {
            let j = choose|j: int| 0 <= j < es.len() && es[j].0@ == k;
            if j < es.len() - 1 {
                assert(d[j] == es[j]);
            }
        }
    }
}

/// The rule table after inserting `(k, v)` as `IndexMap::insert` does.
pub open spec fn map_insert(es: Seq<(String, Production)>, k: String, v: Production) -> Seq<(String, Production)> {
    let i = key_pos(es, k@);
    if i >= 0 {
        es.update(i, (es[i].0, v))
    } else {
        es.push((k, v))
    }
}

/// The rule table built by inserting every production of `ps`, in order,
/// under its own name.
pub open spec fn table_from(ps: Seq<Production>) -> Seq<(String, Production)>
    decreases ps.len(),
{
    if ps.len() == 0 {
        seq![]
    } else {
        map_insert(table_from(ps.drop_last()), ps.last().name, ps.last())
    }
}

/// The production named `k` in `g`, if any.
pub open spec fn rule_named(g: Grammar, k: Seq<char>) -> Option<Production> {
    let i = key_pos(entries(g), k);
    if i >= 0 {
        Some(entries(g)[i].1)
    } else {
        None
    }
}

/// The grammar's start symbol: the `%axiom` rule when it is declared and
/// defined, otherwise the first rule, or nothing for an empty grammar.
pub open spec fn root_of(g: Grammar) -> Option<Seq<char>> {
    match g.axiom_of() {
        Some(a) if has_key(entries(g), a.name@) => Some(a.name@),
        _ => if entries(g).len() > 0 {
            Some(entries(g)[0].0@)
        } else {
            None
        },
    }
}

/// The error reported for a second `%axiom` or `%word` directive, after
/// the message's fixed `prefix`.
pub open spec fn declared_twice_text(prefix: Seq<char>, item: DirectiveItem) -> Seq<char> {
    prefix + loc_text(item.filename@, item.line as nat) + ")"@
}

/// Whether every directive list of `g` is empty and nothing was recorded.
pub open spec fn no_directives(g: Grammar) -> bool {
    &&& g.axiom_of() is None
    &&& g.word is None
    &&& g.conflicts@.len() == 0
    &&& g.precedences@.len() == 0
    &&& g.inline@.len() == 0
    &&& g.supertypes@.len() == 0
    &&& g.extras@.len() == 0
    &&& g.externals@.len() == 0
    &&& g.rhs_nonterminals@.len() == 0
    &&& g.parse_diagnostics@.len() == 0
    &&& g.reserved_sets@.len() == 0
    &&& g.reserved_set_refs@.len() == 0
    &&& g.prec_name_refs@.len() == 0
}

/// `g` equals `h` in every field except the `%axiom` directive.
pub open spec fn same_but_axiom(g: Grammar, h: Grammar) -> bool {
    &&& g.productions == h.productions
    &&& g.word == h.word
    &&& g.conflicts == h.conflicts
    &&& g.precedences == h.precedences
    &&& g.inline == h.inline
    &&& g.supertypes == h.supertypes
    &&& g.extras == h.extras
    &&& g.externals == h.externals
    &&& g.rhs_nonterminals == h.rhs_nonterminals
    &&& g.parse_diagnostics == h.parse_diagnostics
    &&& g.reserved_sets == h.reserved_sets
    &&& g.reserved_set_refs == h.reserved_set_refs
    &&& g.prec_name_refs == h.prec_name_refs
}

/// `g` equals `h` in every field except the `%word` directive.
pub open spec fn same_but_word(g: Grammar, h: Grammar) -> bool {
    &&& g.productions == h.productions
    &&& g.axiom_item == h.axiom_item
    &&& g.conflicts == h.conflicts
    &&& g.precedences == h.precedences
    &&& g.inline == h.inline
    &&& g.supertypes == h.supertypes
    &&& g.extras == h.extras
    &&& g.externals == h.externals
    &&& g.rhs_nonterminals == h.rhs_nonterminals
    &&& g.parse_diagnostics == h.parse_diagnostics
    &&& g.reserved_sets == h.reserved_sets
    &&& g.reserved_set_refs == h.reserved_set_refs
    &&& g.prec_name_refs == h.prec_name_refs
}

/// The display form of a grammar: each rule on a line of its own, each
/// line introduced by a newline.
pub open spec fn grammar_text(es: Seq<(String, Production)>) -> Seq<char>
    decreases es.len(),
{
    if es.len() == 0 {
        seq![]
    } else {
        grammar_text(es.drop_last()) + "\n"@ + production_text(es.last().1)
    }
}

impl Grammar {
    /// The `%axiom` directive recorded in this grammar.
    pub open spec fn axiom_of(self) -> Option<DirectiveItem> {
        self.axiom_item
    }

    /// An empty grammar with no rules and no directives.
    pub fn new() -> (g: Self)
        ensures
            entries(g).len() == 0,
            no_directives(g),
    {
        let g = Grammar {
            productions: rules_new(),
            axiom_item: None,
            word: None,
            conflicts: Vec::new(),
            precedences: Vec::new(),
            inline: Vec::new(),
            supertypes: Vec::new(),
            extras: Vec::new(),
            externals: Vec::new(),
            rhs_nonterminals: NameSet::new(),
            parse_diagnostics: Vec::new(),
            reserved_sets: Vec::new(),
            reserved_set_refs: Vec::new(),
            prec_name_refs: Vec::new(),
        };
        g
    }

    /// A grammar holding `productions` in order (a later rule with the name
    /// of an earlier one replaces it in place), with no directives.
    pub fn from_rules(productions: Vec<Production>) -> (g: Self)
        ensures
            entries(g) == table_from(productions@),
            no_directives(g),
    {
        let mut g = Self::new();
        let mut ps = productions;
        let mut rest: Vec<Production> = Vec::new();
        // Move the productions out in reverse, then insert them in order.
        let ghost orig = ps@;
        assert(ps@ + rest@.reverse() =~= orig);
        while ps.len() > 0
            invariant
                ps@ + rest@.reverse() == orig,
            decreases ps.len(),
        {
            let ghost before_ps = ps@;
            let ghost before_rest = rest@;
            let p = ps.pop().unwrap();
            proof {
                assert(before_ps =~= ps@.push(p));
                assert(before_rest.push(p).reverse() =~= seq![p] + before_rest.reverse());
            }
            rest.push(p);
            assert(ps@ + rest@.reverse() =~= orig);
        }
        assert(rest@.reverse() =~= orig);
        let ghost done: Seq<Production> = seq![];
        while rest.len() > 0
            invariant
                entries(g) == table_from(done),
                done + rest@.reverse() == orig,
                no_directives(g),
            decreases rest.len(),
        {
            let p = rest.pop().unwrap();
            let name = p.name.clone();
            let ghost before = entries(g);
            let ghost pv = p;
            proof { lemma_key_pos(before, name@); }
            let _ = rules_insert(&mut g.productions, name, p);
            proof {
                let i = key_pos(before, pv.name@);
                if i >= 0 {
                    assert(before[i].0@ == pv.name@);
                }
                assert(done.push(pv).drop_last() =~= done);
                assert(entries(g) == map_insert(before, pv.name, pv));
                assert(rest@.push(pv).reverse() =~= seq![pv] + rest@.reverse());
                done = done.push(pv);
                assert(done + rest@.reverse() =~= orig);
            }
        }
        assert(done =~= orig);
        g
    }

    /// The set of all defined rule names.
    pub fn known_rules(&self) -> (r: NameSet)
        ensures
            forall|k: Seq<char>| r@.contains(k) <==> has_key(entries(*self), k),
    {
        let mut r = NameSet::new();
        let n = rules_len(&self.productions);
        let mut i: usize = 0;
        while i < n
            invariant
                0 <= i <= n,
                n == entries(*self).len(),
                forall|k: Seq<char>| r@.contains(k) <==> exists|j: int| 0 <= j < i && entries(*self)[j].0@ == k,
            decreases n - i,
        {
            let (name, _) = rules_get_index(&self.productions, i);
            let ghost before = r@;
            r.insert(name.as_str());
            proof {
                if before.contains(name@) {
                    assert(r@ == before);
                } else {
                    assert(r@ == before.push(name@));
                    assert(r@[before.len() as int] == name@);
                }
                assert(r@.contains(name@));
                assert forall|k: Seq<char>| #[trigger] r@.contains(k) && k != name@ implies before.contains(k) by {
                    if !before.contains(name@) {
                        let j = choose|j: int| 0 <= j < r@.len() && r@[j] == k;
                        assert(j < before.len());
                        assert(before[j] == k);
                    }
                }
                assert forall|k: Seq<char>| before.contains(k) implies #[trigger] r@.contains(k) by {
                    let j = choose|j: int| 0 <= j < before.len() && before[j] == k;
                    if !before.contains(name@) {
                        assert(r@[j] == k);
                    }
                }
                assert forall|k: Seq<char>| r@.contains(k) <==> exists|j: int| 0 <= j < i + 1 && entries(*self)[j].0@ == k by {
                    if exists|j: int| 0 <= j < i + 1 && entries(*self)[j].0@ == k {
                        let j = choose|j: int| 0 <= j < i + 1 && entries(*self)[j].0@ == k;
                        if j < i {
                            assert(before.contains(k));
                        } else {
                            assert(r@.contains(name@));
                        }
                    }
                }
            }
            i += 1;
        }
        r
    }

    /// The production named `name`, if defined.
    pub fn get_rule(&self, name: &str) -> (r: Option<&Production>)
        ensures
            r matches Some(p) ==> rule_named(*self, name@) == Some(*p),
            r is None ==> rule_named(*self, name@) is None,
    {
        proof { lemma_key_pos(entries(*self), name@); }
        match rules_find(&self.productions, name) {
            Some(i) => {
                let (_, p) = rules_get_index(&self.productions, i);
                proof {
                    let k = key_pos(entries(*self), name@);
                    assert(k == i as int);
                }
                Some(p)
            },
            None => None,
        }
    }

    /// Whether a rule named `name` is defined.
    pub fn has_rule(&self, name: &str) -> (b: bool)
        ensures
            b == has_key(entries(*self), name@),
    {
        rules_find(&self.productions, name).is_some()
    }

    /// The start symbol: the `%axiom` rule when declared and defined,
    /// otherwise the first rule, or `None` for an empty grammar.
    pub fn root_rule(&self) -> (r: Option<&str>)
        ensures
            r matches Some(s) ==> root_of(*self) == Some(s@),
            r is None ==> root_of(*self) is None,
    {
        if let Some(item) = &self.axiom_item {
            if self.has_rule(item.name.as_str()) {
                return Some(item.name.as_str());
            }
        }
        if rules_len(&self.productions) > 0 {
            let (name, _) = rules_get_index(&self.productions, 0);
            Some(name.as_str())
        } else {
            None
        }
    }

    /// Records the `%axiom` directive; the first declaration wins, and a
    /// later one is answered with an error and discarded.
    pub fn declare_axiom(&mut self, item: DirectiveItem) -> (r: Option<Diagnostic>)
        ensures
            old(self).axiom_of() is Some ==> {
                &&& final(self).axiom_of() == old(self).axiom_of()
                &&& r matches Some(d) && plain_diag(Severity::Error, declared_twice_text("%axiom declared more than once ("@, item), d)
            },
            old(self).axiom_of() is None ==> final(self).axiom_of() == Some(item) && r is None,
            same_but_axiom(*final(self), *old(self)),
    {
        if self.axiom_item.is_some() {
            let mut msg = String::from_str("%axiom declared more than once (");
            msg.append(loc(item.filename.as_str(), item.line).as_str());
            msg.append(")");
            return Some(Diagnostic::error(msg.as_str()));
        }
        self.axiom_item = Some(item);
        None
    }

    /// Records the `%word` directive; the first declaration wins, and a
    /// later one is answered with an error and discarded.
    pub fn declare_word(&mut self, item: DirectiveItem) -> (r: Option<Diagnostic>)
        ensures
            old(self).word is Some ==> {
                &&& final(self).word == old(self).word
                &&& r matches Some(d) && plain_diag(Severity::Error, declared_twice_text("%word declared more than once ("@, item), d)
            },
            old(self).word is None ==> final(self).word == Some(item) && r is None,
            same_but_word(*final(self), *old(self)),
    {
        if self.word.is_some() {
            let mut msg = String::from_str("%word declared more than once (");
            msg.append(loc(item.filename.as_str(), item.line).as_str());
            msg.append(")");
            return Some(Diagnostic::error(msg.as_str()));
        }
        self.word = Some(item);
        None
    }

    /// The raw `%axiom` directive, if any.
    pub fn axiom_directive(&self) -> (r: Option<&DirectiveItem>)
        ensures
            r matches Some(a) ==> self.axiom_of() == Some(*a),
            r is None ==> self.axiom_of() is None,
    {
        match &self.axiom_item {
            Some(a) => Some(a),
            None => None,
        }
    }

    /// Removes and returns the `%axiom` directive.
    pub fn take_axiom(&mut self) -> (r: Option<DirectiveItem>)
        ensures
            r == old(self).axiom_of(),
            final(self).axiom_of() is None,
            same_but_axiom(*final(self), *old(self)),
    {
        let r = self.axiom_item.take();
        r
    }

    /// Replaces the `%axiom` directive, used when rewriting rule names.
    pub fn restore_axiom(&mut self, item: Option<DirectiveItem>)
        ensures
            final(self).axiom_of() == item,
            same_but_axiom(*final(self), *old(self)),
    {
        self.axiom_item = item;
    }

    /// Removes and returns the `%word` directive.
    pub fn take_word(&mut self) -> (r: Option<DirectiveItem>)
        ensures
            r == old(self).word,
            final(self).word is None,
            same_but_word(*final(self), *old(self)),
    {
        self.word.take()
    }
    /// The display form: each rule as `name -> body`, every one preceded by
    /// a newline.
    pub fn to_text(&self) -> (r: String)
        ensures
            r@ == grammar_text(entries(*self)),
    {
        let ghost es = entries(*self);
        let n = rules_len(&self.productions);
        let mut out = String::new();
        let mut i: usize = 0;
        while i < n
            invariant
                0 <= i <= n,
                n == es.len(),
                es == entries(*self),
                out@ == grammar_text(es.take(i as int)),
            decreases n - i,
        {
            let (_, p) = rules_get_index(&self.productions, i);
            out.append("\n");
            out.append(p.to_text().as_str());
            proof {
                let t = es.take(i as int + 1);
                assert(t.drop_last() =~= es.take(i as int));
                assert(t.last() == es[i as int]);
            }
            i += 1;
        }
        assert(es.take(n as int) =~= es);
        out
    }
}

impl Default for Grammar {
    /// An empty grammar, as [`Grammar::new`] gives.
    fn default() -> (g: Self)
        ensures
            entries(g).len() == 0,
            no_directives(g),
    {
        Grammar::new()
    }
}

} // verus!
