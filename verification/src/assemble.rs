//! Building a [`Grammar`] from the top-level items of a BNF source, in the
//! order they appear: rules, directives, and the grammars of included
//! files.

use vstd::prelude::*;
use crate::checks::{dview, dviews, merge_table, merged_word_views, plain_views, redefined_msgs, redefined_warning, DiagView};
use crate::diagnostic::{Diagnostic, Severity};
use crate::nameset::NameSet;
use crate::directive::{ConflictGroup, DirectiveItem, NameOrLiteral, PrecedenceGroup, ReservedEntry};
use crate::nodes::{nt_names, GrammarNode};
use crate::production::Production;
use crate::types::{declared_twice_text, entries, map_insert, Grammar};

verus! {

/// One top-level item of a BNF source, already read: a rule, a directive,
/// or, for `%include`, the grammar read from the included file.
#[derive(Debug)]
pub enum TopLevelItem {
    /// A rule, with the references its body made as it was read, in
    /// order: named precedence levels and reserved-word sets, each with
    /// the line it stands on.
    Rule {
        production: Production,
        prec_name_refs: Vec<DirectiveItem>,
        reserved_set_refs: Vec<DirectiveItem>,
    },
    /// A `%conflicts` directive.
    Conflicts(Vec<ConflictGroup>),
    /// A `%precedences` directive.
    Precedences(Vec<PrecedenceGroup>),
    /// An `%inline` directive.
    Inline(Vec<DirectiveItem>),
    /// A `%supertypes` directive.
    Supertypes(Vec<DirectiveItem>),
    /// An `%extras` directive.
    Extras(Vec<DirectiveItem>),
    /// An `%externals` directive.
    Externals(Vec<NameOrLiteral>),
    /// A `%word` directive.
    Word(DirectiveItem),
    /// An `%axiom` directive.
    Axiom(DirectiveItem),
    /// The grammar of an included file.
    Included(Grammar),
    /// A `%reserved` directive.
    Reserved(Vec<ReservedEntry>),
}

/// What a grammar holds, field by field, as plain values; the right-hand
/// side names as a set.
pub struct GrammarView {
    pub rules: Seq<(String, Production)>,
    pub axiom_item: Option<DirectiveItem>,
    pub word: Option<DirectiveItem>,
    pub conflicts: Seq<ConflictGroup>,
    pub precedences: Seq<PrecedenceGroup>,
    pub inline: Seq<DirectiveItem>,
    pub supertypes: Seq<DirectiveItem>,
    pub extras: Seq<DirectiveItem>,
    pub externals: Seq<NameOrLiteral>,
    pub rhs: Set<Seq<char>>,
    pub diagnostics: Seq<DiagView>,
    pub reserved_sets: Seq<ReservedEntry>,
    pub reserved_set_refs: Seq<DirectiveItem>,
    pub prec_name_refs: Seq<DirectiveItem>,
}

/// The view of `g`.
pub open spec fn grammar_view(g: Grammar) -> GrammarView {
    GrammarView {
        rules: entries(g),
        axiom_item: g.axiom_of(),
        word: g.word,
        conflicts: g.conflicts@,
        precedences: g.precedences@,
        inline: g.inline@,
        supertypes: g.supertypes@,
        extras: g.extras@,
        externals: g.externals@,
        rhs: g.rhs_nonterminals@.to_set(),
        diagnostics: dviews(g.parse_diagnostics@),
        reserved_sets: g.reserved_sets@,
        reserved_set_refs: g.reserved_set_refs@,
        prec_name_refs: g.prec_name_refs@,
    }
}

/// The view of an empty grammar.
pub open spec fn empty_view() -> GrammarView {
    GrammarView {
        rules: seq![],
        axiom_item: None,
        word: None,
        conflicts: seq![],
        precedences: seq![],
        inline: seq![],
        supertypes: seq![],
        extras: seq![],
        externals: seq![],
        rhs: Set::empty(),
        diagnostics: seq![],
        reserved_sets: seq![],
        reserved_set_refs: seq![],
        prec_name_refs: seq![],
    }
}

/// The error for a second declaration of a directive that may appear once.
pub open spec fn twice_views(prefix: Seq<char>, item: DirectiveItem) -> Seq<DiagView> {
    plain_views(Severity::Error, seq![declared_twice_text(prefix, item)])
}

/// `v` after one more item.  A rule records the non-terminals its body
/// names (alias names aside) and the references it made, and replaces a
/// rule of the same name in place with a warning; a second `%word` or `%axiom` is an error
/// and the first stays; an included grammar is merged as
/// [`Grammar::merge_from`] does; every other directive is appended.
pub open spec fn apply_item(v: GrammarView, item: TopLevelItem) -> GrammarView {
    match item {
        TopLevelItem::Rule { production: p, prec_name_refs: pr, reserved_set_refs: rr } => GrammarView {
            rules: map_insert(v.rules, p.name, p),
            diagnostics: v.diagnostics + redefined_warning(v.rules, p),
            rhs: v.rhs + nt_names(p.body).to_set(),
            prec_name_refs: v.prec_name_refs + pr@,
            reserved_set_refs: v.reserved_set_refs + rr@,
            ..v
        },
        TopLevelItem::Conflicts(c) => GrammarView { conflicts: v.conflicts + c@, ..v },
        TopLevelItem::Precedences(c) => GrammarView { precedences: v.precedences + c@, ..v },
        TopLevelItem::Inline(c) => GrammarView { inline: v.inline + c@, ..v },
        TopLevelItem::Supertypes(c) => GrammarView { supertypes: v.supertypes + c@, ..v },
        TopLevelItem::Extras(c) => GrammarView { extras: v.extras + c@, ..v },
        TopLevelItem::Externals(c) => GrammarView { externals: v.externals + c@, ..v },
        TopLevelItem::Word(w) => if v.word is Some {
            GrammarView { diagnostics: v.diagnostics + twice_views("%word declared more than once ("@, w), ..v }
        } else {
            GrammarView { word: Some(w), ..v }
        },
        TopLevelItem::Axiom(a) => if v.axiom_item is Some {
            GrammarView { diagnostics: v.diagnostics + twice_views("%axiom declared more than once ("@, a), ..v }
        } else {
            GrammarView { axiom_item: Some(a), ..v }
        },
        TopLevelItem::Included(h) => GrammarView {
            rules: merge_table(v.rules, entries(h)),
            word: if v.word is Some { v.word } else { h.word },
            conflicts: v.conflicts + h.conflicts@,
            precedences: v.precedences + h.precedences@,
            inline: v.inline + h.inline@,
            supertypes: v.supertypes + h.supertypes@,
            extras: v.extras + h.extras@,
            externals: v.externals + h.externals@,
            rhs: v.rhs + h.rhs_nonterminals@.to_set(),
            diagnostics: v.diagnostics + plain_views(Severity::Warning, redefined_msgs(v.rules, entries(h)))
                + merged_word_views(v.word, h.word) + dviews(h.parse_diagnostics@),
            reserved_sets: v.reserved_sets + h.reserved_sets@,
            reserved_set_refs: v.reserved_set_refs + h.reserved_set_refs@,
            ..v
        },
        TopLevelItem::Reserved(c) => GrammarView { reserved_sets: v.reserved_sets + c@, ..v },
    }
}

/// `v` after each item of `items`, in order.
pub open spec fn apply_items(v: GrammarView, items: Seq<TopLevelItem>) -> GrammarView
    decreases items.len(),
{
    if items.len() == 0 {
        v
    } else {
        apply_item(apply_items(v, items.drop_last()), items.last())
    }
}

/// What to do with a file named by `%include`, given the canonical paths
/// of the files being read (`open`) and of those already merged
/// (`merged`).
#[derive(Debug, Clone, Copy, PartialEq, Eq, Structural)]
pub enum IncludeStep {
    /// The file is one of those being read: a cycle, which is an error.
    Cycle,
    /// The file was merged already: nothing more to do.
    Skip,
    /// Read the file and merge it.
    Enter,
}

/// Decides how to treat a file named by `%include` whose canonical path
/// is `canonical` (`None` where it has none): a file on the chain being
/// read is a cycle; one merged already is skipped, so that a file reached
/// twice is merged once; any other is read.
pub fn include_step(open: &NameSet, merged: &NameSet, canonical: Option<&str>) -> (r: IncludeStep)
    ensures
        r == match canonical {
            None => IncludeStep::Enter,
            Some(c) => if open@.contains(c@) {
                IncludeStep::Cycle
            } else if merged@.contains(c@) {
                IncludeStep::Skip
            } else {
                IncludeStep::Enter
            },
        },
{
    match canonical {
        None => IncludeStep::Enter,
        Some(c) => {
            if open.contains(c) {
                IncludeStep::Cycle
            } else if merged.contains(c) {
                IncludeStep::Skip
            } else {
                IncludeStep::Enter
            }
        },
    }
}

/// Appends the diagnostic `d`, if there is one.
fn push_diagnostic(g: &mut Grammar, d: Option<Diagnostic>)
    ensures
        dviews(final(g).parse_diagnostics@) == dviews(old(g).parse_diagnostics@) + match d {
            Some(x) => seq![dview(x)],
            None => Seq::<DiagView>::empty(),
        },
        final(g).productions == old(g).productions,
        final(g).axiom_item == old(g).axiom_item,
        final(g).word == old(g).word,
        final(g).conflicts == old(g).conflicts,
        final(g).precedences == old(g).precedences,
        final(g).inline == old(g).inline,
        final(g).supertypes == old(g).supertypes,
        final(g).extras == old(g).extras,
        final(g).externals == old(g).externals,
        final(g).rhs_nonterminals == old(g).rhs_nonterminals,
        final(g).reserved_sets == old(g).reserved_sets,
        final(g).reserved_set_refs == old(g).reserved_set_refs,
        final(g).prec_name_refs == old(g).prec_name_refs,
{
    match d {
        Some(x) => {
            let ghost before = g.parse_diagnostics@;
            g.parse_diagnostics.push(x);
            assert(dviews(g.parse_diagnostics@) =~= dviews(before) + seq![dview(x)]);
        },
        None => {
            assert(dviews(g.parse_diagnostics@) =~= dviews(g.parse_diagnostics@) + Seq::<DiagView>::empty());
        },
    }
}

impl Grammar {
    /// Records every non-terminal that `body` names, alias names aside, as
    /// a right-hand-side reference.
    pub fn record_names(&mut self, body: &GrammarNode)
        ensures
            final(self).rhs_nonterminals@.to_set() == old(self).rhs_nonterminals@.to_set() + nt_names(*body).to_set(),
            final(self).productions == old(self).productions,
            final(self).axiom_item == old(self).axiom_item,
            final(self).word == old(self).word,
            final(self).conflicts == old(self).conflicts,
            final(self).precedences == old(self).precedences,
            final(self).inline == old(self).inline,
            final(self).supertypes == old(self).supertypes,
            final(self).extras == old(self).extras,
            final(self).externals == old(self).externals,
            final(self).parse_diagnostics == old(self).parse_diagnostics,
            final(self).reserved_sets == old(self).reserved_sets,
            final(self).reserved_set_refs == old(self).reserved_set_refs,
            final(self).prec_name_refs == old(self).prec_name_refs,
    {
        let names = body.nonterminal_names();
        let ghost ns = names@.map_values(|s: &str| s@);
        let ghost start = self.rhs_nonterminals@.to_set();
        let mut i: usize = 0;
        while i < names.len()
            invariant
                0 <= i <= names@.len(),
                ns == names@.map_values(|s: &str| s@),
                ns == nt_names(*body),
                self.rhs_nonterminals@.to_set() == start + ns.take(i as int).to_set(),
                self.productions == old(self).productions,
                self.axiom_item == old(self).axiom_item,
                self.word == old(self).word,
                self.conflicts == old(self).conflicts,
                self.precedences == old(self).precedences,
                self.inline == old(self).inline,
                self.supertypes == old(self).supertypes,
                self.extras == old(self).extras,
                self.externals == old(self).externals,
                self.parse_diagnostics == old(self).parse_diagnostics,
                self.reserved_sets == old(self).reserved_sets,
                self.reserved_set_refs == old(self).reserved_set_refs,
                self.prec_name_refs == old(self).prec_name_refs,
            decreases names@.len() - i,
        {
            self.rhs_nonterminals.insert(names[i]);
            proof {
                assert(ns.take(i as int + 1) =~= ns.take(i as int).push(ns[i as int]));
                ns.take(i as int).lemma_push_to_set_commute(ns[i as int]);
                assert(self.rhs_nonterminals@.to_set() =~= start + ns.take(i as int + 1).to_set());
            }
            i += 1;
        }
        assert(ns.take(ns.len() as int) =~= ns);
    }

    /// Adds one top-level item, as [`apply_item`] says.
    pub fn add_item(&mut self, item: TopLevelItem)
        ensures
            grammar_view(*final(self)) == apply_item(grammar_view(*old(self)), item),
    {
        let ghost v = grammar_view(*self);
        match item {
            TopLevelItem::Rule { production: p, prec_name_refs: pr, reserved_set_refs: rr } => {
                let mut pr = pr;
                let mut rr = rr;
                self.record_names(&p.body);
                self.prec_name_refs.append(&mut pr);
                self.reserved_set_refs.append(&mut rr);
                self.add_rule(p);
            },
            TopLevelItem::Conflicts(c) => {
                let mut c = c;
                self.conflicts.append(&mut c);
            },
            TopLevelItem::Precedences(c) => {
                let mut c = c;
                self.precedences.append(&mut c);
            },
            TopLevelItem::Inline(c) => {
                let mut c = c;
                self.inline.append(&mut c);
            },
            TopLevelItem::Supertypes(c) => {
                let mut c = c;
                self.supertypes.append(&mut c);
            },
            TopLevelItem::Extras(c) => {
                let mut c = c;
                self.extras.append(&mut c);
            },
            TopLevelItem::Externals(c) => {
                let mut c = c;
                self.externals.append(&mut c);
            },
            TopLevelItem::Word(w) => {
                let d = self.declare_word(w);
                push_diagnostic(self, d);
                proof {
                    if v.word is Some {
                        assert(twice_views("%word declared more than once ("@, w) =~= seq![dview(d.unwrap())]);
                    }
                }
            },
            TopLevelItem::Axiom(a) => {
                let d = self.declare_axiom(a);
                push_diagnostic(self, d);
                proof {
                    if v.axiom_item is Some {
                        assert(twice_views("%axiom declared more than once ("@, a) =~= seq![dview(d.unwrap())]);
                    }
                }
            },
            TopLevelItem::Included(h) => {
                self.merge_from(h);
            },
            TopLevelItem::Reserved(c) => {
                let mut c = c;
                self.reserved_sets.append(&mut c);
            },
        }
    }
}

/// Builds the grammar of a source from its top-level items, in order, as
/// [`apply_items`] says, and runs every check on it; the second result
/// holds the check's diagnostics.
pub fn assemble_grammar(items: Vec<TopLevelItem>) -> (r: (Grammar, Vec<Diagnostic>))
    ensures
        grammar_view(r.0) == apply_items(empty_view(), items@),
        dviews(r.1@) == crate::checks::sort_by_msg(crate::checks::check_views(r.0)),
{
    let mut g = Grammar::new();
    assert(grammar_view(g) == empty_view()) by {
        assert(entries(g) =~= Seq::<(String, Production)>::empty());
        assert(g.conflicts@ =~= Seq::<ConflictGroup>::empty());
        assert(g.precedences@ =~= Seq::<PrecedenceGroup>::empty());
        assert(g.inline@ =~= Seq::<DirectiveItem>::empty());
        assert(g.supertypes@ =~= Seq::<DirectiveItem>::empty());
        assert(g.extras@ =~= Seq::<DirectiveItem>::empty());
        assert(g.externals@ =~= Seq::<NameOrLiteral>::empty());
        assert(g.rhs_nonterminals@.to_set() =~= Set::<Seq<char>>::empty());
        assert(dviews(g.parse_diagnostics@) =~= Seq::<DiagView>::empty());
        assert(g.reserved_sets@ =~= Seq::<ReservedEntry>::empty());
        assert(g.reserved_set_refs@ =~= Seq::<DirectiveItem>::empty());
        assert(g.prec_name_refs@ =~= Seq::<DirectiveItem>::empty());
    }
    let ghost all = items@;
    let mut items = items;
    let n: usize = items.len();
    let mut k: usize = 0;
    while items.len() > 0
        invariant
            all.len() == n,
            k + items@.len() == all.len(),
            items@ == all.subrange(k as int, all.len() as int),
            grammar_view(g) == apply_items(empty_view(), all.take(k as int)),
        decreases items@.len(),
    {
        let item = items.remove(0);
        proof {
            assert(item == all[k as int]);
            assert(all.take(k as int + 1).drop_last() =~= all.take(k as int));
        }
        g.add_item(item);
        proof {
            assert(items@ =~= all.subrange(k as int + 1, all.len() as int));
        }
        k += 1;
    }
    assert(all.take(k as int) =~= all);
    let warnings = g.check();
    (g, warnings)
}

} // verus!
