//! Cross-reference checks over a [`Grammar`]: every directive must name
//! defined rules, directive targets must meet tree-sitter's constraints,
//! and every rule should be reachable from the start symbol.

use vstd::prelude::*;
use vstd::string::*;
use crate::diagnostic::{plain_diag, Diagnostic, Severity};
use crate::directive::{item_text, loc, loc_text, ConflictGroup, DirectiveItem, NameOrLiteral, PrecedenceGroup, ReservedEntry};
use crate::nameset::NameSet;
use crate::text::{lemma_seq_lt_total, lemma_seq_lt_trans, seq_le, seq_lt, str_eq, str_lt, str_to_chars, views};
use crate::nodes::{js, nt_names, pure_token, single_choice};
use crate::rules::{rules_get_index, rules_len};
use vstd::seq_lib::seq_to_set_distributes_over_add;
use crate::production::Production;
use crate::rules::has_key;
use crate::types::{declared_twice_text, entries, key_pos, lemma_key_pos, map_insert, root_of, rule_named, Grammar};
use crate::rules::rules_into_entries;
use crate::rules::{rules_find, rules_insert};

verus! {

/// A diagnostic message that names an item and gives a location:
/// `prefix`, the name, `suffix`, then ` (location)`.
pub open spec fn located(prefix: Seq<char>, name: Seq<char>, suffix: Seq<char>, location: Seq<char>) -> Seq<char> {
    prefix + name + suffix + " ("@ + location + ")"@
}

/// `ds` are errors without location carrying the messages `msgs`, in order.
pub open spec fn errors_are(ds: Seq<Diagnostic>, msgs: Seq<Seq<char>>) -> bool {
    &&& ds.len() == msgs.len()
    &&& forall|i: int| 0 <= i < ds.len() ==> plain_diag(Severity::Error, msgs[i], #[trigger] ds[i])
}

/// `ds` are warnings without location carrying the messages `msgs`, in order.
pub open spec fn warnings_are(ds: Seq<Diagnostic>, msgs: Seq<Seq<char>>) -> bool {
    &&& ds.len() == msgs.len()
    &&& forall|i: int| 0 <= i < ds.len() ==> plain_diag(Severity::Warning, msgs[i], #[trigger] ds[i])
}

/// The error message for a directive naming an undefined rule.
pub open spec fn undefined_msg(directive: Seq<char>, name: Seq<char>, location: Seq<char>) -> Seq<char> {
    located(directive + " references undefined rule '"@, name, "'"@, location)
}

/// An error `prefix name suffix (location)`.
fn located_error(prefix: &str, name: &str, suffix: &str, location: &str) -> (d: Diagnostic)
    ensures
        plain_diag(Severity::Error, located(prefix@, name@, suffix@, location@), d),
{
    let mut msg = String::from_str(prefix);
    msg.append(name);
    msg.append(suffix);
    msg.append(" (");
    msg.append(location);
    msg.append(")");
    Diagnostic::error(msg.as_str())
}

/// A warning `prefix name suffix (location)`.
fn located_warning(prefix: &str, name: &str, suffix: &str, location: &str) -> (d: Diagnostic)
    ensures
        plain_diag(Severity::Warning, located(prefix@, name@, suffix@, location@), d),
{
    let mut msg = String::from_str(prefix);
    msg.append(name);
    msg.append(suffix);
    msg.append(" (");
    msg.append(location);
    msg.append(")");
    Diagnostic::warning(msg.as_str())
}

/// The error for `directive` naming the undefined rule `name`.
fn undefined_error(directive: &str, name: &str, location: &str) -> (d: Diagnostic)
    ensures
        plain_diag(Severity::Error, undefined_msg(directive@, name@, location@), d),
{
    let mut prefix = String::from_str(directive);
    prefix.append(" references undefined rule '");
    located_error(prefix.as_str(), name, "'", location)
}

/// Appends `d` to `out`, which carries the messages `msgs`.
proof fn lemma_errors_push(ds: Seq<Diagnostic>, msgs: Seq<Seq<char>>, d: Diagnostic, m: Seq<char>)
    requires
        errors_are(ds, msgs),
        plain_diag(Severity::Error, m, d),
    ensures
        errors_are(ds.push(d), msgs.push(m)),
{
    assert forall|i: int| 0 <= i < ds.len() + 1 implies plain_diag(Severity::Error, msgs.push(m)[i], #[trigger] ds.push(d)[i]) by {
        if i < ds.len() {
            assert(ds.push(d)[i] == ds[i]);
        }
    }
}

/// Two runs of errors, one after the other.
proof fn lemma_errors_concat(a: Seq<Diagnostic>, ma: Seq<Seq<char>>, b: Seq<Diagnostic>, mb: Seq<Seq<char>>)
    requires
        errors_are(a, ma),
        errors_are(b, mb),
    ensures
        errors_are(a + b, ma + mb),
{
    assert forall|i: int| 0 <= i < a.len() + b.len() implies plain_diag(Severity::Error, (ma + mb)[i], #[trigger] (a + b)[i]) by {
        if i < a.len() {
            assert((a + b)[i] == a[i]);
        } else {
            assert((a + b)[i] == b[i - a.len()]);
        }
    }
}

/// Appends every diagnostic of `extra` to `out`.
fn append_all(out: &mut Vec<Diagnostic>, extra: Vec<Diagnostic>)
    ensures
        final(out)@ == old(out)@ + extra@,
{
    let mut extra = extra;
    out.append(&mut extra);
}

// ── Names in directives ──────────────────────────────────────────────────

/// The undefined-rule errors for the names `names` of one `directive`
/// entry at `location`, in order.
pub open spec fn undefined_names(names: Seq<Seq<char>>, known: Set<Seq<char>>, directive: Seq<char>, location: Seq<char>) -> Seq<Seq<char>>
    decreases names.len(),
{
    if names.len() == 0 {
        seq![]
    } else {
        undefined_names(names.drop_last(), known, directive, location) + if known.contains(names.last()) {
            Seq::<Seq<char>>::empty()
        } else {
            seq![undefined_msg(directive, names.last(), location)]
        }
    }
}

/// The rule names among `items`, in order.
pub open spec fn item_names(items: Seq<NameOrLiteral>) -> Seq<Seq<char>>
    decreases items.len(),
{
    if items.len() == 0 {
        seq![]
    } else {
        item_names(items.drop_last()) + match items.last() {
            NameOrLiteral::Name(n) => seq![n@],
            NameOrLiteral::Literal(_) => Seq::<Seq<char>>::empty(),
        }
    }
}

/// The literal texts among `items`, in order.
pub open spec fn item_literals(items: Seq<NameOrLiteral>) -> Seq<Seq<char>>
    decreases items.len(),
{
    if items.len() == 0 {
        seq![]
    } else {
        item_literals(items.drop_last()) + match items.last() {
            NameOrLiteral::Name(_) => Seq::<Seq<char>>::empty(),
            NameOrLiteral::Literal(l) => seq![l@],
        }
    }
}

/// Errors for the names of `names` missing from `known`, all for `directive` at `location`.
fn undefined_among(names: &Vec<String>, known: &NameSet, directive: &str, location: &str) -> (r: Vec<Diagnostic>)
    ensures
        errors_are(r@, undefined_names(views(names@), known@.to_set(), directive@, location@)),
{
    let mut out: Vec<Diagnostic> = Vec::new();
    let mut i: usize = 0;
    while i < names.len()
        invariant
            0 <= i <= names.len(),
            errors_are(out@, undefined_names(views(names@).take(i as int), known@.to_set(), directive@, location@)),
        decreases names.len() - i,
    {
        let ghost before = out@;
        proof {
            let t = views(names@).take(i as int + 1);
            assert(t.drop_last() =~= views(names@).take(i as int));
            assert(t.last() == names@[i as int]@);
        }
        if !known.contains(names[i].as_str()) {
            let d = undefined_error(directive, names[i].as_str(), location);
            out.push(d);
            proof {
                lemma_errors_push(before, undefined_names(views(names@).take(i as int), known@.to_set(), directive@, location@), d, undefined_msg(directive@, names@[i as int]@, location@));
            }
        }
        i += 1;
    }
    assert(views(names@).take(names@.len() as int) =~= views(names@));
    out
}

/// The rule names among `items`, as strings.
fn names_of_items(items: &Vec<NameOrLiteral>) -> (r: Vec<String>)
    ensures
        views(r@) == item_names(items@),
{
    let mut out: Vec<String> = Vec::new();
    let mut i: usize = 0;
    while i < items.len()
        invariant
            0 <= i <= items.len(),
            views(out@) == item_names(items@.take(i as int)),
        decreases items.len() - i,
    {
        proof {
            let t = items@.take(i as int + 1);
            assert(t.drop_last() =~= items@.take(i as int));
            assert(t.last() == items@[i as int]);
        }
        match &items[i] {
            NameOrLiteral::Name(n) => {
                let ghost before = out@;
                out.push(n.clone());
                assert(views(out@) =~= views(before).push(n@));
            },
            NameOrLiteral::Literal(_) => {
                assert(views(out@) =~= item_names(items@.take(i as int + 1)));
            },
        }
        i += 1;
    }
    assert(items@.take(items@.len() as int) =~= items@);
    out
}

/// The undefined-rule errors of a list of `%conflicts` groups.
pub open spec fn conflicts_msgs(gs: Seq<ConflictGroup>, known: Set<Seq<char>>) -> Seq<Seq<char>>
    decreases gs.len(),
{
    if gs.len() == 0 {
        seq![]
    } else {
        conflicts_msgs(gs.drop_last(), known) + undefined_names(views(gs.last().rules@), known, "%conflicts"@, loc_text(gs.last().filename@, gs.last().line as nat))
    }
}

/// The undefined-rule errors of a list of `%precedences` groups.
pub open spec fn precedences_msgs(gs: Seq<PrecedenceGroup>, known: Set<Seq<char>>) -> Seq<Seq<char>>
    decreases gs.len(),
{
    if gs.len() == 0 {
        seq![]
    } else {
        precedences_msgs(gs.drop_last(), known) + undefined_names(item_names(gs.last().items@), known, "%precedences"@, loc_text(gs.last().filename@, gs.last().line as nat))
    }
}

/// The undefined-rule errors of a list of `%reserved` sets.
pub open spec fn reserved_rule_msgs(rs: Seq<ReservedEntry>, known: Set<Seq<char>>) -> Seq<Seq<char>>
    decreases rs.len(),
{
    if rs.len() == 0 {
        seq![]
    } else {
        reserved_rule_msgs(rs.drop_last(), known) + undefined_names(item_names(rs.last().rule_names@), known, "%reserved"@, loc_text(rs.last().filename@, rs.last().line as nat))
    }
}

/// The names of directive items, in order.
pub open spec fn item_list_names(items: Seq<DirectiveItem>) -> Seq<Seq<char>> {
    items.map_values(|d: DirectiveItem| d.name@)
}

/// The errors for `%reserved` annotations naming sets that no `%reserved`
/// directive declares.
pub open spec fn undeclared_set_msgs(refs: Seq<DirectiveItem>, declared: Seq<Seq<char>>) -> Seq<Seq<char>>
    decreases refs.len(),
{
    if refs.len() == 0 {
        seq![]
    } else {
        undeclared_set_msgs(refs.drop_last(), declared) + if declared.contains(refs.last().name@) {
            Seq::<Seq<char>>::empty()
        } else {
            seq![located("%reserved annotation references undeclared set '"@, refs.last().name@, "'"@, loc_text(refs.last().filename@, refs.last().line as nat))]
        }
    }
}

/// The errors for `%prec 'name'` annotations naming no literal of any
/// `%precedences` group.
pub open spec fn prec_name_msgs(refs: Seq<DirectiveItem>, named: Seq<Seq<char>>) -> Seq<Seq<char>>
    decreases refs.len(),
{
    if refs.len() == 0 {
        seq![]
    } else {
        prec_name_msgs(refs.drop_last(), named) + if named.contains(refs.last().name@) {
            Seq::<Seq<char>>::empty()
        } else {
            seq![located("%precedence references undefined precedence literal "@, refs.last().name@, ""@, loc_text(refs.last().filename@, refs.last().line as nat))]
        }
    }
}

/// Every literal of every `%precedences` group, in order.
pub open spec fn precedence_literals(gs: Seq<PrecedenceGroup>) -> Seq<Seq<char>>
    decreases gs.len(),
{
    if gs.len() == 0 {
        seq![]
    } else {
        precedence_literals(gs.drop_last()) + item_literals(gs.last().items@)
    }
}

/// Whether a name is a pattern (`/…/`) rather than a rule name.
pub open spec fn is_pattern_name(name: Seq<char>) -> bool {
    name.len() > 0 && name[0] == '/'
}

/// The errors for `%extras` rule references that have no definition.
pub open spec fn extras_msgs(items: Seq<DirectiveItem>, known: Set<Seq<char>>) -> Seq<Seq<char>>
    decreases items.len(),
{
    if items.len() == 0 {
        seq![]
    } else {
        extras_msgs(items.drop_last(), known) + if is_pattern_name(items.last().name@) || known.contains(items.last().name@) {
            Seq::<Seq<char>>::empty()
        } else {
            seq![undefined_msg("%extras"@, items.last().name@, loc_text(items.last().filename@, items.last().line as nat))]
        }
    }
}

/// The errors for rule-body references to undefined rules.
pub open spec fn undefined_ref_msgs(names: Seq<Seq<char>>, known: Set<Seq<char>>) -> Seq<Seq<char>>
    decreases names.len(),
{
    if names.len() == 0 {
        seq![]
    } else {
        undefined_ref_msgs(names.drop_last(), known) + if known.contains(names.last()) {
            Seq::<Seq<char>>::empty()
        } else {
            seq!["undefined rule reference '"@ + names.last() + "'"@]
        }
    }
}

/// Whether `name` starts with `/`, marking a pattern.
pub(crate) fn starts_with_slash(name: &str) -> (r: bool)
    ensures
        r == is_pattern_name(name@),
{
    let cs = str_to_chars(name);
    cs.len() > 0 && cs[0] == '/'
}

/// Returns an error when `directive` names a rule missing from `known`;
/// `name` is the directive's keyword, such as `%axiom`.
pub fn check_directive_ref(directive: Option<&DirectiveItem>, name: &str, known: &NameSet) -> (r: Vec<Diagnostic>)
    ensures
        match directive {
            Some(item) if !known@.to_set().contains(item.name@) => errors_are(r@, seq![undefined_msg(name@, item.name@, loc_text(item.filename@, item.line as nat))]),
            _ => r@.len() == 0,
        },
{
    match directive {
        Some(item) => {
            if !known.contains(item.name.as_str()) {
                let location = loc(item.filename.as_str(), item.line);
                let d = undefined_error(name, item.name.as_str(), location.as_str());
                let r = vec![d];
                assert(r@ =~= seq![d]);
                r
            } else {
                Vec::new()
            }
        },
        None => Vec::new(),
    }
}

impl Grammar {
    /// Returns an error for every rule name in `%conflicts` that has no definition.
    pub fn conflicts_check(&self, known: &NameSet) -> (r: Vec<Diagnostic>)
        ensures
            errors_are(r@, conflicts_msgs(self.conflicts@, known@.to_set())),
    {
        let mut out: Vec<Diagnostic> = Vec::new();
        let mut i: usize = 0;
        while i < self.conflicts.len()
            invariant
                0 <= i <= self.conflicts@.len(),
                errors_are(out@, conflicts_msgs(self.conflicts@.take(i as int), known@.to_set())),
            decreases self.conflicts@.len() - i,
        {
            let group = &self.conflicts[i];
            let location = loc(group.filename.as_str(), group.line);
            let found = undefined_among(&group.rules, known, "%conflicts", location.as_str());
            proof {
                let t = self.conflicts@.take(i as int + 1);
                assert(t.drop_last() =~= self.conflicts@.take(i as int));
                assert(t.last() == self.conflicts@[i as int]);
                lemma_errors_concat(out@, conflicts_msgs(self.conflicts@.take(i as int), known@.to_set()), found@, undefined_names(views(group.rules@), known@.to_set(), "%conflicts"@, location@));
            }
            append_all(&mut out, found);
            i += 1;
        }
        assert(self.conflicts@.take(self.conflicts@.len() as int) =~= self.conflicts@);
        out
    }

    /// Returns an error for every rule name in a `%precedences` group that
    /// has no definition; literals are not checked here.
    pub fn precedences_check(&self, known: &NameSet) -> (r: Vec<Diagnostic>)
        ensures
            errors_are(r@, precedences_msgs(self.precedences@, known@.to_set())),
    {
        let mut out: Vec<Diagnostic> = Vec::new();
        let mut i: usize = 0;
        while i < self.precedences.len()
            invariant
                0 <= i <= self.precedences@.len(),
                errors_are(out@, precedences_msgs(self.precedences@.take(i as int), known@.to_set())),
            decreases self.precedences@.len() - i,
        {
            let group = &self.precedences[i];
            let location = loc(group.filename.as_str(), group.line);
            let names = names_of_items(&group.items);
            let found = undefined_among(&names, known, "%precedences", location.as_str());
            proof {
                let t = self.precedences@.take(i as int + 1);
                assert(t.drop_last() =~= self.precedences@.take(i as int));
                assert(t.last() == self.precedences@[i as int]);
                lemma_errors_concat(out@, precedences_msgs(self.precedences@.take(i as int), known@.to_set()), found@, undefined_names(item_names(group.items@), known@.to_set(), "%precedences"@, location@));
            }
            append_all(&mut out, found);
            i += 1;
        }
        assert(self.precedences@.take(self.precedences@.len() as int) =~= self.precedences@);
        out
    }

    /// Returns an error for each rule name of a `%reserved` set that has no
    /// definition, then for each rule-level `%reserved` annotation naming a
    /// set that no `%reserved` directive declares.
    pub fn reserved_check(&self, known: &NameSet) -> (r: Vec<Diagnostic>)
        ensures
            errors_are(r@, reserved_rule_msgs(self.reserved_sets@, known@.to_set())
                + undeclared_set_msgs(self.reserved_set_refs@, self.reserved_sets@.map_values(|e: ReservedEntry| e.set_name@))),
    {
        let ghost set_names = self.reserved_sets@.map_values(|e: ReservedEntry| e.set_name@);
        let mut declared = NameSet::new();
        let mut out: Vec<Diagnostic> = Vec::new();
        let mut i: usize = 0;
        while i < self.reserved_sets.len()
            invariant
                0 <= i <= self.reserved_sets@.len(),
                set_names == self.reserved_sets@.map_values(|e: ReservedEntry| e.set_name@),
                errors_are(out@, reserved_rule_msgs(self.reserved_sets@.take(i as int), known@.to_set())),
                declared@.to_set() == set_names.take(i as int).to_set(),
            decreases self.reserved_sets@.len() - i,
        {
            let entry = &self.reserved_sets[i];
            let ghost before = declared@;
            declared.insert(entry.set_name.as_str());
            let location = loc(entry.filename.as_str(), entry.line);
            let names = names_of_items(&entry.rule_names);
            let found = undefined_among(&names, known, "%reserved", location.as_str());
            proof {
                let t = self.reserved_sets@.take(i as int + 1);
                assert(t.drop_last() =~= self.reserved_sets@.take(i as int));
                assert(t.last() == self.reserved_sets@[i as int]);
                lemma_errors_concat(out@, reserved_rule_msgs(self.reserved_sets@.take(i as int), known@.to_set()), found@, undefined_names(item_names(entry.rule_names@), known@.to_set(), "%reserved"@, location@));
                assert(set_names.take(i as int + 1) =~= set_names.take(i as int).push(entry.set_name@));
                set_names.take(i as int).lemma_push_to_set_commute(entry.set_name@);
            }
            append_all(&mut out, found);
            i += 1;
        }
        assert(self.reserved_sets@.take(self.reserved_sets@.len() as int) =~= self.reserved_sets@);
        assert(set_names.take(set_names.len() as int) =~= set_names);
        let ghost prefix = out@;
        let ghost head = reserved_rule_msgs(self.reserved_sets@, known@.to_set());
        let mut j: usize = 0;
        while j < self.reserved_set_refs.len()
            invariant
                0 <= j <= self.reserved_set_refs@.len(),
                out@.len() >= prefix.len(),
                out@.subrange(0, prefix.len() as int) == prefix,
                errors_are(prefix, head),
                errors_are(out@, head + undeclared_set_msgs(self.reserved_set_refs@.take(j as int), set_names)),
                declared@.to_set() == set_names.to_set(),
            decreases self.reserved_set_refs@.len() - j,
        {
            let item = &self.reserved_set_refs[j];
            proof {
                assert(declared@.contains(item.name@) == declared@.to_set().contains(item.name@));
                assert(set_names.contains(item.name@) == set_names.to_set().contains(item.name@));
                let t = self.reserved_set_refs@.take(j as int + 1);
                assert(t.drop_last() =~= self.reserved_set_refs@.take(j as int));
                assert(t.last() == self.reserved_set_refs@[j as int]);
            }
            if !declared.contains(item.name.as_str()) {
                let location = loc(item.filename.as_str(), item.line);
                let d = located_error("%reserved annotation references undeclared set '", item.name.as_str(), "'", location.as_str());
                let ghost before = out@;
                out.push(d);
                proof {
                    lemma_errors_push(before, head + undeclared_set_msgs(self.reserved_set_refs@.take(j as int), set_names), d,
                        located("%reserved annotation references undeclared set '"@, item.name@, "'"@, location@));
                    assert(head + undeclared_set_msgs(self.reserved_set_refs@.take(j as int + 1), set_names)
                        =~= (head + undeclared_set_msgs(self.reserved_set_refs@.take(j as int), set_names)).push(
                        located("%reserved annotation references undeclared set '"@, item.name@, "'"@, location@)));
                    assert(out@.subrange(0, prefix.len() as int) =~= before.subrange(0, prefix.len() as int));
                }
            } else {
                assert(head + undeclared_set_msgs(self.reserved_set_refs@.take(j as int + 1), set_names)
                    =~= head + undeclared_set_msgs(self.reserved_set_refs@.take(j as int), set_names));
            }
            j += 1;
        }
        assert(self.reserved_set_refs@.take(self.reserved_set_refs@.len() as int) =~= self.reserved_set_refs@);
        out
    }

    /// Returns an error for every `%prec 'name'` annotation whose name is no
    /// literal of any `%precedences` group.
    pub fn prec_name_check(&self) -> (r: Vec<Diagnostic>)
        ensures
            errors_are(r@, prec_name_msgs(self.prec_name_refs@, precedence_literals(self.precedences@))),
    {
        let ghost lits = precedence_literals(self.precedences@);
        let mut named = NameSet::new();
        let mut i: usize = 0;
        while i < self.precedences.len()
            invariant
                0 <= i <= self.precedences@.len(),
                named@.to_set() == precedence_literals(self.precedences@.take(i as int)).to_set(),
            decreases self.precedences@.len() - i,
        {
            let group = &self.precedences[i];
            let ghost before = named@;
            let mut k: usize = 0;
            assert(named@.to_set() =~= before.to_set() + item_literals(group.items@.take(0)).to_set());
            while k < group.items.len()
                invariant
                    0 <= k <= group.items@.len(),
                    named@.to_set() == before.to_set() + item_literals(group.items@.take(k as int)).to_set(),
                decreases group.items@.len() - k,
            {
                let ghost mid = named@;
                proof {
                    let t = group.items@.take(k as int + 1);
                    assert(t.drop_last() =~= group.items@.take(k as int));
                    assert(t.last() == group.items@[k as int]);
                }
                match &group.items[k] {
                    NameOrLiteral::Literal(l) => {
                        named.insert(l.as_str());
                        proof {
                            let lk = item_literals(group.items@.take(k as int));
                            assert(item_literals(group.items@.take(k as int + 1)) =~= lk.push(l@));
                            lk.lemma_push_to_set_commute(l@);
                            assert(named@.to_set() =~= before.to_set() + lk.push(l@).to_set());
                        }
                    },
                    NameOrLiteral::Name(_) => {
                        assert(item_literals(group.items@.take(k as int + 1)) =~= item_literals(group.items@.take(k as int)));
                    },
                }
                k += 1;
            }
            proof {
                assert(group.items@.take(group.items@.len() as int) =~= group.items@);
                let t = self.precedences@.take(i as int + 1);
                assert(t.drop_last() =~= self.precedences@.take(i as int));
                assert(t.last() == self.precedences@[i as int]);
                let pl = precedence_literals(self.precedences@.take(i as int));
                let il = item_literals(group.items@);
                seq_to_set_distributes_over_add(pl, il);
            }
            i += 1;
        }
        assert(self.precedences@.take(self.precedences@.len() as int) =~= self.precedences@);
        let mut out: Vec<Diagnostic> = Vec::new();
        let mut j: usize = 0;
        while j < self.prec_name_refs.len()
            invariant
                0 <= j <= self.prec_name_refs@.len(),
                lits == precedence_literals(self.precedences@),
                named@.to_set() == lits.to_set(),
                errors_are(out@, prec_name_msgs(self.prec_name_refs@.take(j as int), lits)),
            decreases self.prec_name_refs@.len() - j,
        {
            let item = &self.prec_name_refs[j];
            proof {
                assert(named@.contains(item.name@) == named@.to_set().contains(item.name@));
                assert(lits.contains(item.name@) == lits.to_set().contains(item.name@));
                let t = self.prec_name_refs@.take(j as int + 1);
                assert(t.drop_last() =~= self.prec_name_refs@.take(j as int));
                assert(t.last() == self.prec_name_refs@[j as int]);
            }
            if !named.contains(item.name.as_str()) {
                let location = loc(item.filename.as_str(), item.line);
                let d = located_error("%precedence references undefined precedence literal ", item.name.as_str(), "", location.as_str());
                let ghost before = out@;
                out.push(d);
                proof {
                    lemma_errors_push(before, prec_name_msgs(self.prec_name_refs@.take(j as int), lits), d,
                        located("%precedence references undefined precedence literal "@, item.name@, ""@, location@));
                }
            }
            j += 1;
        }
        assert(self.prec_name_refs@.take(self.prec_name_refs@.len() as int) =~= self.prec_name_refs@);
        out
    }

    /// Returns an error for every rule reference in `%extras` (a name not
    /// starting with `/`) that has no definition.
    pub fn extras_check(&self, known: &NameSet) -> (r: Vec<Diagnostic>)
        ensures
            errors_are(r@, extras_msgs(self.extras@, known@.to_set())),
    {
        let mut out: Vec<Diagnostic> = Vec::new();
        let mut i: usize = 0;
        while i < self.extras.len()
            invariant
                0 <= i <= self.extras@.len(),
                errors_are(out@, extras_msgs(self.extras@.take(i as int), known@.to_set())),
            decreases self.extras@.len() - i,
        {
            let item = &self.extras[i];
            proof {
                let t = self.extras@.take(i as int + 1);
                assert(t.drop_last() =~= self.extras@.take(i as int));
                assert(t.last() == self.extras@[i as int]);
            }
            if !starts_with_slash(item.name.as_str()) && !known.contains(item.name.as_str()) {
                let location = loc(item.filename.as_str(), item.line);
                let d = undefined_error("%extras", item.name.as_str(), location.as_str());
                let ghost before = out@;
                out.push(d);
                proof {
                    lemma_errors_push(before, extras_msgs(self.extras@.take(i as int), known@.to_set()), d, undefined_msg("%extras"@, item.name@, location@));
                }
            }
            i += 1;
        }
        assert(self.extras@.take(self.extras@.len() as int) =~= self.extras@);
        out
    }

    /// Returns an error for every non-terminal referenced in a rule body
    /// that has no definition, in the order the references were recorded.
    pub fn undefined_refs_check(&self, known: &NameSet) -> (r: Vec<Diagnostic>)
        ensures
            errors_are(r@, undefined_ref_msgs(self.rhs_nonterminals@, known@.to_set())),
    {
        let mut out: Vec<Diagnostic> = Vec::new();
        let mut i: usize = 0;
        while i < self.rhs_nonterminals.len()
            invariant
                0 <= i <= self.rhs_nonterminals@.len(),
                errors_are(out@, undefined_ref_msgs(self.rhs_nonterminals@.take(i as int), known@.to_set())),
            decreases self.rhs_nonterminals@.len() - i,
        {
            let name = self.rhs_nonterminals.get(i);
            proof {
                let t = self.rhs_nonterminals@.take(i as int + 1);
                assert(t.drop_last() =~= self.rhs_nonterminals@.take(i as int));
                assert(t.last() == self.rhs_nonterminals@[i as int]);
            }
            if !known.contains(name) {
                let mut msg = String::from_str("undefined rule reference '");
                msg.append(name);
                msg.append("'");
                let d = Diagnostic::error(msg.as_str());
                let ghost before = out@;
                out.push(d);
                proof {
                    lemma_errors_push(before, undefined_ref_msgs(self.rhs_nonterminals@.take(i as int), known@.to_set()), d, "undefined rule reference '"@ + name@ + "'"@);
                }
            }
            i += 1;
        }
        assert(self.rhs_nonterminals@.take(self.rhs_nonterminals@.len() as int) =~= self.rhs_nonterminals@);
        out
    }

    /// Returns the number of rule-body references to undefined rules.
    pub fn count_undefined_refs(&self) -> (r: usize)
        ensures
            r == undefined_ref_count(self.rhs_nonterminals@, entries(*self)),
    {
        let known = self.known_rules();
        let found = self.undefined_refs_check(&known);
        proof {
            lemma_undefined_ref_count(self.rhs_nonterminals@, known@.to_set(), entries(*self));
        }
        found.len()
    }
}

/// How many of `names` are not rules of `es`.
pub open spec fn undefined_ref_count(names: Seq<Seq<char>>, es: Seq<(String, Production)>) -> int
    decreases names.len(),
{
    if names.len() == 0 {
        0
    } else {
        undefined_ref_count(names.drop_last(), es) + if has_key(es, names.last()) { 0int } else { 1int }
    }
}

/// One error per undefined reference.
proof fn lemma_undefined_ref_count(names: Seq<Seq<char>>, known: Set<Seq<char>>, es: Seq<(String, Production)>)
    requires
        forall|x: Seq<char>| known.contains(x) <==> has_key(es, x),
    ensures
        undefined_ref_msgs(names, known).len() == undefined_ref_count(names, es),
    decreases names.len(),
{
    if names.len() > 0 {
        lemma_undefined_ref_count(names.drop_last(), known, es);
    }
}

// ── Directive targets ────────────────────────────────────────────────────

/// The location text of a directive item.
pub open spec fn item_loc(item: DirectiveItem) -> Seq<char> {
    loc_text(item.filename@, item.line as nat)
}

/// The location text of a rule.
pub open spec fn rule_loc(p: Production) -> Seq<char> {
    loc_text(p.filename@, p.line as nat)
}

/// The errors for one `%inline` item: an undefined name, or each
/// constraint the named rule breaks (start rule, also external, pure token).
pub open spec fn inline_item_msgs(g: Grammar, item: DirectiveItem, known: Set<Seq<char>>) -> Seq<Seq<char>> {
    if !known.contains(item.name@) {
        seq![undefined_msg("%inline"@, item.name@, item_loc(item))]
    } else {
        (if root_of(g) == Some(item.name@) {
            seq![located("%inline rule '"@, item.name@, "' cannot be the grammar's start rule"@, item_loc(item))]
        } else {
            Seq::<Seq<char>>::empty()
        }) + (if item_names(g.externals@).contains(item.name@) {
            seq![located("%inline rule '"@, item.name@, "' cannot also be declared via %externals"@, item_loc(item))]
        } else {
            Seq::<Seq<char>>::empty()
        }) + match rule_named(g, item.name@) {
            Some(p) => if pure_token(p.body) {
                seq![located("%inline rule '"@, item.name@, "' must not be a pure token"@, rule_loc(p))]
            } else {
                Seq::<Seq<char>>::empty()
            },
            None => Seq::<Seq<char>>::empty(),
        }
    }
}

/// The errors of `%inline` items, in order.
pub open spec fn inline_msgs(g: Grammar, items: Seq<DirectiveItem>, known: Set<Seq<char>>) -> Seq<Seq<char>>
    decreases items.len(),
{
    if items.len() == 0 {
        seq![]
    } else {
        inline_msgs(g, items.drop_last(), known) + inline_item_msgs(g, items.last(), known)
    }
}

/// The errors for one `%supertypes` item: an undefined rule, or each
/// constraint the rule breaks (pure token, an alternative of several steps).
pub open spec fn supertype_item_msgs(g: Grammar, item: DirectiveItem) -> Seq<Seq<char>> {
    match rule_named(g, item.name@) {
        None => seq![undefined_msg("%supertypes"@, item.name@, item_loc(item))],
        Some(p) => (if pure_token(p.body) {
            seq![located("%supertypes rule '"@, item.name@, "' must not be a pure token"@, rule_loc(p))]
        } else {
            Seq::<Seq<char>>::empty()
        }) + (if !single_choice(p.body) {
            seq![located("%supertypes rule '"@, item.name@, "' has an alternative with more than one step"@, rule_loc(p))]
        } else {
            Seq::<Seq<char>>::empty()
        }),
    }
}

/// The errors of `%supertypes` items, in order.
pub open spec fn supertypes_msgs(g: Grammar, items: Seq<DirectiveItem>) -> Seq<Seq<char>>
    decreases items.len(),
{
    if items.len() == 0 {
        seq![]
    } else {
        supertypes_msgs(g, items.drop_last()) + supertype_item_msgs(g, items.last())
    }
}

/// The errors for `%externals` names that are also defined as rules.
pub open spec fn externals_msgs(g: Grammar, items: Seq<NameOrLiteral>) -> Seq<Seq<char>>
    decreases items.len(),
{
    if items.len() == 0 {
        seq![]
    } else {
        externals_msgs(g, items.drop_last()) + match items.last() {
            NameOrLiteral::Name(n) => match rule_named(g, n@) {
                Some(p) => seq![located("%externals declares '"@, n@, "', but it is also defined as a rule"@, rule_loc(p))],
                None => Seq::<Seq<char>>::empty(),
            },
            NameOrLiteral::Literal(_) => Seq::<Seq<char>>::empty(),
        }
    }
}

/// The position of the first rule of `es` not named `name` whose body
/// renders as `body`, or -1.
pub open spec fn same_body_pos(es: Seq<(String, Production)>, name: Seq<char>, body: Seq<char>) -> int
    decreases es.len(),
{
    if es.len() == 0 {
        -1
    } else if same_body_pos(es.drop_last(), name, body) >= 0 {
        same_body_pos(es.drop_last(), name, body)
    } else if es.last().0@ != name && js(es.last().1.body) == body {
        es.len() - 1
    } else {
        -1
    }
}

/// The errors for the `%word` directive: an undefined name, or each
/// constraint its rule breaks (not a pure token, a body equal to another
/// rule's, naming the first such rule).
pub open spec fn word_msgs(g: Grammar, known: Set<Seq<char>>) -> Seq<Seq<char>> {
    match g.word {
        None => seq![],
        Some(item) => if !known.contains(item.name@) {
            seq![undefined_msg("%word"@, item.name@, item_loc(item))]
        } else {
            match rule_named(g, item.name@) {
                None => seq![],
                Some(p) => (if !pure_token(p.body) {
                    seq![located("%word rule '"@, item.name@, "' must be a pure token"@, rule_loc(p))]
                } else {
                    Seq::<Seq<char>>::empty()
                }) + {
                    let j = same_body_pos(entries(g), item.name@, js(p.body));
                    if j >= 0 {
                        seq![located("%word rule '"@, item.name@, "' has the same body as rule '"@ + entries(g)[j].0@ + "'"@, rule_loc(p))]
                    } else {
                        Seq::<Seq<char>>::empty()
                    }
                },
            }
        },
    }
}

/// Why a start rule named `root` is hidden, if it is.
pub open spec fn hidden_reason(g: Grammar, root: Seq<char>) -> Option<Seq<char>> {
    if root.len() > 0 && root[0] == '_' {
        Some("rule names starting with '_' are not allowed as the grammar's start symbol"@)
    } else if item_list_names(g.supertypes@).contains(root) {
        Some("rules listed in %supertypes are hidden and cannot be the grammar's start symbol"@)
    } else {
        None
    }
}

/// Where a hidden start rule is reported: the `%axiom` directive when it
/// names the rule, otherwise the rule itself.
pub open spec fn hidden_loc(g: Grammar, root: Seq<char>) -> Seq<char> {
    match g.axiom_of() {
        Some(a) if a.name@ == root => item_loc(a),
        _ => match rule_named(g, root) {
            Some(p) => rule_loc(p),
            None => loc_text(""@, 0),
        },
    }
}

/// The error for a hidden start rule, if there is one.
pub open spec fn hidden_start_msgs(g: Grammar) -> Seq<Seq<char>> {
    match root_of(g) {
        None => seq![],
        Some(root) => match hidden_reason(g, root) {
            Some(reason) => seq![located("start rule '"@, root, "' cannot be hidden ("@ + reason + ")"@, hidden_loc(g, root))],
            None => seq![],
        },
    }
}

/// Whether some item of `items` is the rule name `name`.
fn names_contain(items: &Vec<NameOrLiteral>, name: &str) -> (r: bool)
    ensures
        r == item_names(items@).contains(name@),
{
    let mut i: usize = 0;
    while i < items.len()
        invariant
            0 <= i <= items.len(),
            !item_names(items@.take(i as int)).contains(name@),
        decreases items.len() - i,
    {
        proof {
            let t = items@.take(i as int + 1);
            assert(t.drop_last() =~= items@.take(i as int));
            assert(t.last() == items@[i as int]);
        }
        match &items[i] {
            NameOrLiteral::Name(n) => {
                if str_eq(n.as_str(), name) {
                    proof {
                        lemma_item_names_prefix(items@, i as int + 1);
                        let w = item_names(items@.take(i as int + 1));
                        assert(w[w.len() - 1] == name@);
                        assert(item_names(items@).contains(name@));
                    }
                    return true;
                }
                proof {
                    let w = item_names(items@.take(i as int));
                    assert(item_names(items@.take(i as int + 1)) =~= w.push(n@));
                }
            },
            NameOrLiteral::Literal(_) => {
                assert(item_names(items@.take(i as int + 1)) =~= item_names(items@.take(i as int)));
            },
        }
        i += 1;
    }
    assert(items@.take(items@.len() as int) =~= items@);
    false
}

/// The names of a prefix of the items are a prefix of the names.
proof fn lemma_item_names_prefix(items: Seq<NameOrLiteral>, k: int)
    requires
        0 <= k <= items.len(),
    ensures
        item_names(items).len() >= item_names(items.take(k)).len(),
        item_names(items).subrange(0, item_names(items.take(k)).len() as int) == item_names(items.take(k)),
    decreases items.len() - k,
{
    if k == items.len() {
        assert(items.take(k) =~= items);
        assert(item_names(items).subrange(0, item_names(items).len() as int) =~= item_names(items));
    } else {
        lemma_item_names_prefix(items, k + 1);
        let t = items.take(k + 1);
        assert(t.drop_last() =~= items.take(k));
        let a = item_names(items.take(k));
        let b = item_names(t);
        assert(b.subrange(0, a.len() as int) =~= a);
        assert(item_names(items).subrange(0, a.len() as int) =~= b.subrange(0, a.len() as int));
    }
}

/// Whether some directive item is named `name`.
fn items_contain(items: &Vec<DirectiveItem>, name: &str) -> (r: bool)
    ensures
        r == item_list_names(items@).contains(name@),
{
    let mut i: usize = 0;
    while i < items.len()
        invariant
            0 <= i <= items.len(),
            forall|j: int| 0 <= j < i ==> (#[trigger] items@[j]).name@ != name@,
        decreases items.len() - i,
    {
        if str_eq(items[i].name.as_str(), name) {
            assert(item_list_names(items@)[i as int] == name@);
            return true;
        }
        i += 1;
    }
    proof {
        if item_list_names(items@).contains(name@) {
            let j = choose|j: int| 0 <= j < item_list_names(items@).len() && item_list_names(items@)[j] == name@;
            assert(items@[j].name@ == name@);
        }
    }
    false
}

impl Grammar {
    /// Returns, for each `%inline` item in order, an error when it names no
    /// defined rule; otherwise an error for each of tree-sitter's further
    /// constraints it breaks: being the start rule, also being declared via
    /// `%externals`, or having a body that reduces to a pure token.
    pub fn inline_check(&self, known: &NameSet) -> (r: Vec<Diagnostic>)
        ensures
            errors_are(r@, inline_msgs(*self, self.inline@, known@.to_set())),
    {
        let root = self.root_rule();
        let mut out: Vec<Diagnostic> = Vec::new();
        let mut i: usize = 0;
        while i < self.inline.len()
            invariant
                0 <= i <= self.inline@.len(),
                root matches Some(s) ==> root_of(*self) == Some(s@),
                root is None ==> root_of(*self) is None,
                errors_are(out@, inline_msgs(*self, self.inline@.take(i as int), known@.to_set())),
            decreases self.inline@.len() - i,
        {
            let item = &self.inline[i];
            let name = item.name.as_str();
            let location = loc(item.filename.as_str(), item.line);
            let ghost before = out@;
            let ghost head = inline_msgs(*self, self.inline@.take(i as int), known@.to_set());
            let mut found: Vec<Diagnostic> = Vec::new();
            let ghost mut msgs: Seq<Seq<char>> = seq![];
            if !known.contains(name) {
                let d = undefined_error("%inline", name, location.as_str());
                found.push(d);
                proof {
                    lemma_errors_push(seq![], seq![], d, undefined_msg("%inline"@, name@, location@));
                    assert(found@ =~= seq![d]);
                    msgs = seq![undefined_msg("%inline"@, name@, location@)];
                }
            } else {
                let is_root = match root {
                    Some(rn) => str_eq(rn, name),
                    None => false,
                };
                if is_root {
                    let d = located_error("%inline rule '", name, "' cannot be the grammar's start rule", location.as_str());
                    proof {
                        lemma_errors_push(found@, msgs, d, located("%inline rule '"@, name@, "' cannot be the grammar's start rule"@, location@));
                        msgs = msgs.push(located("%inline rule '"@, name@, "' cannot be the grammar's start rule"@, location@));
                    }
                    found.push(d);
                }
                if names_contain(&self.externals, name) {
                    let d = located_error("%inline rule '", name, "' cannot also be declared via %externals", location.as_str());
                    proof {
                        lemma_errors_push(found@, msgs, d, located("%inline rule '"@, name@, "' cannot also be declared via %externals"@, location@));
                        msgs = msgs.push(located("%inline rule '"@, name@, "' cannot also be declared via %externals"@, location@));
                    }
                    found.push(d);
                }
                match self.get_rule(name) {
                    Some(production) => {
                        if production.body.is_pure_token() {
                            let ploc = loc(production.filename.as_str(), production.line);
                            let d = located_error("%inline rule '", name, "' must not be a pure token", ploc.as_str());
                            proof {
                                lemma_errors_push(found@, msgs, d, located("%inline rule '"@, name@, "' must not be a pure token"@, ploc@));
                                msgs = msgs.push(located("%inline rule '"@, name@, "' must not be a pure token"@, ploc@));
                            }
                            found.push(d);
                        }
                    },
                    None => {},
                }
            }
            proof {
                let t = self.inline@.take(i as int + 1);
                assert(t.drop_last() =~= self.inline@.take(i as int));
                assert(t.last() == self.inline@[i as int]);
                assert(msgs =~= inline_item_msgs(*self, *item, known@.to_set()));
                lemma_errors_concat(out@, head, found@, msgs);
            }
            append_all(&mut out, found);
            i += 1;
        }
        assert(self.inline@.take(self.inline@.len() as int) =~= self.inline@);
        out
    }

    /// Returns, for each `%supertypes` item in order, an error when it names
    /// no defined rule (a name declared only via `%externals` does not
    /// count); otherwise an error for each of tree-sitter's further
    /// constraints it breaks: a body that reduces to a pure token, or an
    /// alternative spanning more than one step.
    pub fn supertypes_check(&self) -> (r: Vec<Diagnostic>)
        ensures
            errors_are(r@, supertypes_msgs(*self, self.supertypes@)),
    {
        let mut out: Vec<Diagnostic> = Vec::new();
        let mut i: usize = 0;
        while i < self.supertypes.len()
            invariant
                0 <= i <= self.supertypes@.len(),
                errors_are(out@, supertypes_msgs(*self, self.supertypes@.take(i as int))),
            decreases self.supertypes@.len() - i,
        {
            let item = &self.supertypes[i];
            let name = item.name.as_str();
            let ghost head = supertypes_msgs(*self, self.supertypes@.take(i as int));
            let mut found: Vec<Diagnostic> = Vec::new();
            let ghost mut msgs: Seq<Seq<char>> = seq![];
            match self.get_rule(name) {
                None => {
                    let location = loc(item.filename.as_str(), item.line);
                    let d = undefined_error("%supertypes", name, location.as_str());
                    proof {
                        lemma_errors_push(found@, msgs, d, undefined_msg("%supertypes"@, name@, location@));
                        msgs = msgs.push(undefined_msg("%supertypes"@, name@, location@));
                    }
                    found.push(d);
                },
                Some(production) => {
                    let ploc = loc(production.filename.as_str(), production.line);
                    if production.body.is_pure_token() {
                        let d = located_error("%supertypes rule '", name, "' must not be a pure token", ploc.as_str());
                        proof {
                            lemma_errors_push(found@, msgs, d, located("%supertypes rule '"@, name@, "' must not be a pure token"@, ploc@));
                            msgs = msgs.push(located("%supertypes rule '"@, name@, "' must not be a pure token"@, ploc@));
                        }
                        found.push(d);
                    }
                    if !production.body.single_choice_options() {
                        let d = located_error("%supertypes rule '", name, "' has an alternative with more than one step", ploc.as_str());
                        proof {
                            lemma_errors_push(found@, msgs, d, located("%supertypes rule '"@, name@, "' has an alternative with more than one step"@, ploc@));
                            msgs = msgs.push(located("%supertypes rule '"@, name@, "' has an alternative with more than one step"@, ploc@));
                        }
                        found.push(d);
                    }
                },
            }
            proof {
                let t = self.supertypes@.take(i as int + 1);
                assert(t.drop_last() =~= self.supertypes@.take(i as int));
                assert(t.last() == self.supertypes@[i as int]);
                assert(msgs =~= supertype_item_msgs(*self, *item));
                lemma_errors_concat(out@, head, found@, msgs);
            }
            append_all(&mut out, found);
            i += 1;
        }
        assert(self.supertypes@.take(self.supertypes@.len() as int) =~= self.supertypes@);
        out
    }

    /// Returns an error for every `%externals` name that is also defined as a rule.
    pub fn externals_check(&self) -> (r: Vec<Diagnostic>)
        ensures
            errors_are(r@, externals_msgs(*self, self.externals@)),
    {
        let mut out: Vec<Diagnostic> = Vec::new();
        let mut i: usize = 0;
        while i < self.externals.len()
            invariant
                0 <= i <= self.externals@.len(),
                errors_are(out@, externals_msgs(*self, self.externals@.take(i as int))),
            decreases self.externals@.len() - i,
        {
            proof {
                let t = self.externals@.take(i as int + 1);
                assert(t.drop_last() =~= self.externals@.take(i as int));
                assert(t.last() == self.externals@[i as int]);
            }
            match &self.externals[i] {
                NameOrLiteral::Name(name) => {
                    match self.get_rule(name.as_str()) {
                        Some(production) => {
                            let ploc = loc(production.filename.as_str(), production.line);
                            let d = located_error("%externals declares '", name.as_str(), "', but it is also defined as a rule", ploc.as_str());
                            let ghost before = out@;
                            out.push(d);
                            proof {
                                lemma_errors_push(before, externals_msgs(*self, self.externals@.take(i as int)), d,
                                    located("%externals declares '"@, name@, "', but it is also defined as a rule"@, ploc@));
                            }
                        },
                        None => {},
                    }
                },
                NameOrLiteral::Literal(_) => {},
            }
            i += 1;
        }
        assert(self.externals@.take(self.externals@.len() as int) =~= self.externals@);
        out
    }

    /// Returns an error when `%word` names no defined rule; otherwise an
    /// error for each of tree-sitter's constraints on the word rule that it
    /// breaks: a body that is not a pure token, or a body identical to
    /// another rule's (naming the first such rule).
    pub fn word_check(&self, known: &NameSet) -> (r: Vec<Diagnostic>)
        ensures
            errors_are(r@, word_msgs(*self, known@.to_set())),
    {
        let item = match &self.word {
            Some(item) => item,
            None => {
                return Vec::new();
            },
        };
        let name = item.name.as_str();
        if !known.contains(name) {
            let location = loc(item.filename.as_str(), item.line);
            let d = undefined_error("%word", name, location.as_str());
            let r = vec![d];
            assert(r@ =~= seq![d]);
            return r;
        }
        let production = match self.get_rule(name) {
            Some(p) => p,
            None => {
                return Vec::new();
            },
        };
        let ploc = loc(production.filename.as_str(), production.line);
        let mut out: Vec<Diagnostic> = Vec::new();
        let ghost mut msgs: Seq<Seq<char>> = seq![];
        if !production.body.is_pure_token() {
            let d = located_error("%word rule '", name, "' must be a pure token", ploc.as_str());
            proof {
                lemma_errors_push(out@, msgs, d, located("%word rule '"@, name@, "' must be a pure token"@, ploc@));
                msgs = msgs.push(located("%word rule '"@, name@, "' must be a pure token"@, ploc@));
            }
            out.push(d);
        }
        let body = production.body.to_js();
        let ghost es = entries(*self);
        let n = rules_len(&self.productions);
        let mut i: usize = 0;
        let ghost head = msgs;
        while i < n
            invariant
                0 <= i <= n,
                n == es.len(),
                es == entries(*self),
                same_body_pos(es.take(i as int), name@, body@) < 0,
                errors_are(out@, msgs),
                msgs == head,
                self.word == Some(*item),
                known@.to_set().contains(name@),
                name@ == item.name@,
                rule_named(*self, name@) == Some(*production),
                body@ == js(production.body),
                head == (if !pure_token(production.body) {
                    seq![located("%word rule '"@, name@, "' must be a pure token"@, ploc@)]
                } else {
                    Seq::<Seq<char>>::empty()
                }),
                ploc@ == rule_loc(*production),
            decreases n - i,
        {
            let (other_name, other) = rules_get_index(&self.productions, i);
            proof {
                let t = es.take(i as int + 1);
                assert(t.drop_last() =~= es.take(i as int));
                assert(t.last() == es[i as int]);
            }
            if !str_eq(other_name.as_str(), name) && str_eq(other.body.to_js().as_str(), body.as_str()) {
                proof {
                    lemma_same_body_prefix(es, name@, body@, i as int + 1);
                }
                let mut suffix = String::from_str("' has the same body as rule '");
                suffix.append(other_name.as_str());
                suffix.append("'");
                let d = located_error("%word rule '", name, suffix.as_str(), ploc.as_str());
                proof {
                    lemma_errors_push(out@, msgs, d, located("%word rule '"@, name@, suffix@, ploc@));
                    msgs = msgs.push(located("%word rule '"@, name@, suffix@, ploc@));
                }
                out.push(d);
                assert(msgs =~= word_msgs(*self, known@.to_set()));
                return out;
            }
            i += 1;
        }
        assert(es.take(n as int) =~= es);
        assert(msgs =~= word_msgs(*self, known@.to_set()));
        out
    }

    /// Returns an error when the start rule (the `%axiom` rule, or the
    /// first rule) is hidden: its name starts with `_`, or it is listed in
    /// `%supertypes`.  The error points at the `%axiom` directive when that
    /// named the rule, otherwise at the rule.
    pub fn hidden_start_rule_check(&self) -> (r: Vec<Diagnostic>)
        ensures
            errors_are(r@, hidden_start_msgs(*self)),
    {
        let root = match self.root_rule() {
            Some(root) => root,
            None => {
                return Vec::new();
            },
        };
        let cs = str_to_chars(root);
        let reason = if cs.len() > 0 && cs[0] == '_' {
            "rule names starting with '_' are not allowed as the grammar's start symbol"
        } else if items_contain(&self.supertypes, root) {
            "rules listed in %supertypes are hidden and cannot be the grammar's start symbol"
        } else {
            return Vec::new();
        };
        let location = match &self.axiom_item {
            Some(a) if str_eq(a.name.as_str(), root) => loc(a.filename.as_str(), a.line),
            _ => match self.get_rule(root) {
                Some(p) => loc(p.filename.as_str(), p.line),
                None => loc("", 0),
            },
        };
        let mut suffix = String::from_str("' cannot be hidden (");
        suffix.append(reason);
        suffix.append(")");
        let d = located_error("start rule '", root, suffix.as_str(), location.as_str());
        proof {
            reveal_strlit("");
        }
        let r = vec![d];
        assert(r@ =~= seq![d]);
        r
    }
}

/// A match found among the first `k` rules stays the first match among all.
proof fn lemma_same_body_prefix(es: Seq<(String, Production)>, name: Seq<char>, body: Seq<char>, k: int)
    requires
        0 <= k <= es.len(),
        same_body_pos(es.take(k), name, body) >= 0,
    ensures
        same_body_pos(es, name, body) == same_body_pos(es.take(k), name, body),
    decreases es.len() - k,
{
    if k < es.len() {
        let t = es.take(k + 1);
        assert(t.drop_last() =~= es.take(k));
        lemma_same_body_prefix(es, name, body, k + 1);
    } else {
        assert(es.take(k) =~= es);
    }
}

// ── Reachability ─────────────────────────────────────────────────────────

/// The rule names referenced by the body of rule `a` (none when `a` is not a rule).
pub open spec fn refs_of(g: Grammar, a: Seq<char>) -> Set<Seq<char>> {
    match rule_named(g, a) {
        Some(p) => nt_names(p.body).to_set(),
        None => Set::empty(),
    }
}

/// `b` is reached from `a` through at most `n` rule references.
pub open spec fn reach_steps(g: Grammar, a: Seq<char>, b: Seq<char>, n: nat) -> bool
    decreases n,
{
    a == b || (n > 0 && exists|c: Seq<char>| reach_steps(g, a, c, (n - 1) as nat) && #[trigger] refs_of(g, c).contains(b))
}

/// Where reachability starts: the start symbol and, when there is one, the
/// rule names (not patterns) listed in `%extras`.
pub open spec fn reach_roots(g: Grammar) -> Set<Seq<char>> {
    match root_of(g) {
        None => Set::empty(),
        Some(r) => Set::new(|x: Seq<char>| x == r || (item_list_names(g.extras@).contains(x) && !is_pattern_name(x))),
    }
}

/// Whether `x` is reached from a root.
pub open spec fn reachable_from_roots(g: Grammar, x: Seq<char>) -> bool {
    exists|r: Seq<char>, n: nat| #[trigger] reach_roots(g).contains(r) && #[trigger] reach_steps(g, r, x, n)
}

/// The warnings for the rules of `es` that no root reaches.
pub open spec fn unreachable_msgs(g: Grammar, es: Seq<(String, Production)>) -> Seq<Seq<char>>
    decreases es.len(),
{
    if es.len() == 0 {
        seq![]
    } else {
        unreachable_msgs(g, es.drop_last()) + if reachable_from_roots(g, es.last().0@) {
            Seq::<Seq<char>>::empty()
        } else {
            seq![located("rule '"@, es.last().0@, "' is never referenced"@, match rule_named(g, es.last().0@) {
                Some(p) => rule_loc(p),
                None => loc_text(""@, 0),
            })]
        }
    }
}

/// Every name referenced by the first `k` rule bodies.
pub open spec fn all_refs(es: Seq<(String, Production)>, k: int) -> Set<Seq<char>>
    decreases k,
{
    if k <= 0 {
        Set::empty()
    } else {
        all_refs(es, k - 1) + nt_names(es[k - 1].1.body).to_set()
    }
}

/// `all_refs` is finite and holds every reference of its rules.
proof fn lemma_all_refs(es: Seq<(String, Production)>, k: int)
    ensures
        all_refs(es, k).finite(),
        forall|i: int| 0 <= i < k ==> nt_names((#[trigger] es[i]).1.body).to_set().subset_of(all_refs(es, k)),
    decreases k,
{
    if k > 0 {
        lemma_all_refs(es, k - 1);
    }
}

/// A set holding a name and closed under references holds everything reached from it.
proof fn lemma_reach_closed(g: Grammar, r: Set<Seq<char>>, a: Seq<char>, x: Seq<char>, n: nat)
    requires
        r.contains(a),
        forall|y: Seq<char>| r.contains(y) ==> (#[trigger] refs_of(g, y)).subset_of(r),
        reach_steps(g, a, x, n),
    ensures
        r.contains(x),
    decreases n,
{
    if a != x {
        let c = choose|c: Seq<char>| reach_steps(g, a, c, (n - 1) as nat) && #[trigger] refs_of(g, c).contains(x);
        lemma_reach_closed(g, r, a, c, (n - 1) as nat);
        assert(refs_of(g, c).subset_of(r));
    }
}

impl Grammar {
    /// Returns a warning for every rule that is not reachable from the
    /// start symbol, in declaration order.  The rule names (not patterns)
    /// listed in `%extras` are further roots.  Reachability follows each
    /// rule's own body, so a rule referencing only itself, or a cycle apart
    /// from the roots, is still unreachable.
    pub fn unreachable_rules_check(&self) -> (r: Vec<Diagnostic>)
        ensures
            warnings_are(r@, unreachable_msgs(*self, entries(*self))),
    {
        let ghost es = entries(*self);
        let root = match self.root_rule() {
            Some(root) => root,
            None => {
                assert(es.len() == 0);
                return Vec::new();
            },
        };
        let ghost roots = reach_roots(*self);
        let ghost u = (set![root@] + item_list_names(self.extras@).to_set()) + all_refs(es, es.len() as int);
        proof {
            lemma_all_refs(es, es.len() as int);
        }
        let mut reachable = NameSet::new();
        reachable.insert(root);
        proof {
            assert(reach_steps(*self, root@, root@, 0));
            assert(roots.contains(root@));
        }
        let mut i: usize = 0;
        while i < self.extras.len()
            invariant
                0 <= i <= self.extras@.len(),
                roots == reach_roots(*self),
                root_of(*self) == Some(root@),
                reachable@.no_duplicates(),
                reachable@.to_set().contains(root@),
                forall|j: int| 0 <= j < i && !is_pattern_name((#[trigger] self.extras@[j]).name@) ==> reachable@.to_set().contains(self.extras@[j].name@),
                forall|x: Seq<char>| reachable@.contains(x) ==> roots.contains(x),
            decreases self.extras@.len() - i,
        {
            let name = self.extras[i].name.as_str();
            if !starts_with_slash(name) {
                proof {
                    assert(item_list_names(self.extras@)[i as int] == name@);
                    assert(roots.contains(name@));
                }
                reachable.insert(name);
            }
            i += 1;
        }
        proof {
            assert forall|x: Seq<char>| roots.contains(x) implies reachable@.to_set().contains(x) by {
                if x != root@ {
                    let j = choose|j: int| 0 <= j < item_list_names(self.extras@).len() && item_list_names(self.extras@)[j] == x;
                    assert(self.extras@[j].name@ == x);
                }
            }
            assert forall|x: Seq<char>| reachable@.contains(x) implies reachable_from_roots(*self, x) by {
                assert(roots.contains(x));
                assert(reach_steps(*self, x, x, 0));
            }
            assert forall|x: Seq<char>| reachable@.contains(x) implies u.contains(x) by {
                assert(roots.contains(x));
                if x != root@ {
                    assert(item_list_names(self.extras@).contains(x));
                    assert(item_list_names(self.extras@).to_set().contains(x));
                }
            }
        }
        let mut head: usize = 0;
        while head < reachable.len()
            invariant
                0 <= head <= reachable@.len(),
                es == entries(*self),
                u.finite(),
                all_refs(es, es.len() as int).subset_of(u),
                forall|j: int| 0 <= j < es.len() ==> nt_names((#[trigger] es[j]).1.body).to_set().subset_of(all_refs(es, es.len() as int)),
                reachable@.no_duplicates(),
                roots == reach_roots(*self),
                forall|x: Seq<char>| roots.contains(x) ==> reachable@.to_set().contains(x),
                forall|x: Seq<char>| reachable@.contains(x) ==> u.contains(x),
                forall|x: Seq<char>| reachable@.contains(x) ==> reachable_from_roots(*self, x),
                forall|k: int| 0 <= k < head ==> (#[trigger] refs_of(*self, reachable@[k])).subset_of(reachable@.to_set()),
            decreases u.len() - head,
        {
            proof {
                reachable@.unique_seq_to_set();
                vstd::set_lib::lemma_len_subset(reachable@.to_set(), u);
            }
            let current = crate::text::owned(reachable.get(head));
            let ghost before = reachable@;
            match self.get_rule(current.as_str()) {
                Some(production) => {
                    let names = production.body.nonterminal_names();
                    let ghost refs = names@.map_values(|s: &str| s@);
                    proof {
                        crate::types::lemma_key_pos(es, current@);
                        assert(refs_of(*self, current@) == refs.to_set());
                        assert(refs.to_set().subset_of(u)) by {
                            let kp = crate::types::key_pos(es, current@);
                            assert(nt_names(es[kp].1.body).to_set().subset_of(all_refs(es, es.len() as int)));
                        }
                        assert(reachable_from_roots(*self, current@));
                    }
                    let mut k: usize = 0;
                    while k < names.len()
                        invariant
                            0 <= k <= names@.len(),
                            refs == names@.map_values(|s: &str| s@),
                            refs.to_set() == refs_of(*self, current@),
                            refs.to_set().subset_of(u),
                            reachable_from_roots(*self, current@),
                            reachable@.len() >= before.len(),
                            reachable@.take(before.len() as int) == before,
                            reachable@.no_duplicates(),
                            before.no_duplicates(),
                            before.to_set().subset_of(reachable@.to_set()),
                            forall|x: Seq<char>| reachable@.contains(x) ==> u.contains(x),
                            forall|x: Seq<char>| reachable@.contains(x) ==> reachable_from_roots(*self, x),
                            forall|j: int| 0 <= j < k ==> reachable@.to_set().contains(#[trigger] refs[j]),
                        decreases names@.len() - k,
                    {
                        let ghost mid = reachable@;
                        let name = names[k];
                        proof {
                            assert(refs[k as int] == name@);
                            assert(refs.to_set().contains(name@));
                            let (r0, n0) = choose|r: Seq<char>, n: nat| #[trigger] reach_roots(*self).contains(r) && #[trigger] reach_steps(*self, r, current@, n);
                            assert(reach_steps(*self, r0, name@, n0 + 1));
                        }
                        reachable.insert(name);
                        proof {
                            assert(reachable@.take(before.len() as int) =~= before) by {
                                if reachable@.len() > mid.len() {
                                    assert(reachable@ == mid.push(name@));
                                    assert(reachable@.take(before.len() as int) =~= mid.take(before.len() as int));
                                }
                            }
                        }
                        k += 1;
                    }
                    proof {
                        assert forall|x: Seq<char>| refs_of(*self, current@).contains(x) implies reachable@.to_set().contains(x) by {
                            let j = choose|j: int| 0 <= j < refs.len() && refs[j] == x;
                        }
                    }
                },
                None => {},
            }
            proof {
                assert(reachable@[head as int] == before[head as int]) by {
                    assert(reachable@.take(before.len() as int)[head as int] == before[head as int]);
                }
                assert forall|k: int| 0 <= k < head + 1 implies (#[trigger] refs_of(*self, reachable@[k])).subset_of(reachable@.to_set()) by {
                    assert(reachable@.take(before.len() as int)[k] == before[k]);
                    assert(reachable@[k] == before[k]);
                    if k < head {
                        assert(refs_of(*self, before[k]).subset_of(before.to_set()));
                    }
                }
                assert forall|x: Seq<char>| roots.contains(x) implies reachable@.to_set().contains(x) by {
                    assert(before.to_set().contains(x));
                }
            }
            head += 1;
        }
        proof {
            assert forall|y: Seq<char>| reachable@.to_set().contains(y) implies (#[trigger] refs_of(*self, y)).subset_of(reachable@.to_set()) by {
                let k = choose|k: int| 0 <= k < reachable@.len() && reachable@[k] == y;
                assert(refs_of(*self, reachable@[k]).subset_of(reachable@.to_set()));
            }
            assert forall|x: Seq<char>| reachable_from_roots(*self, x) implies reachable@.contains(x) by {
                let (r0, n0) = choose|r: Seq<char>, n: nat| #[trigger] reach_roots(*self).contains(r) && #[trigger] reach_steps(*self, r, x, n);
                lemma_reach_closed(*self, reachable@.to_set(), r0, x, n0);
            }
        }
        let mut out: Vec<Diagnostic> = Vec::new();
        let n = rules_len(&self.productions);
        let mut i: usize = 0;
        while i < n
            invariant
                0 <= i <= n,
                n == es.len(),
                es == entries(*self),
                forall|x: Seq<char>| reachable@.contains(x) <==> reachable_from_roots(*self, x),
                warnings_are(out@, unreachable_msgs(*self, es.take(i as int))),
            decreases n - i,
        {
            let (name, _) = rules_get_index(&self.productions, i);
            proof {
                let t = es.take(i as int + 1);
                assert(t.drop_last() =~= es.take(i as int));
                assert(t.last() == es[i as int]);
            }
            if !reachable.contains(name.as_str()) {
                let location = match self.get_rule(name.as_str()) {
                    Some(p) => loc(p.filename.as_str(), p.line),
                    None => loc("", 0),
                };
                proof {
                    reveal_strlit("");
                }
                let d = located_warning("rule '", name.as_str(), "' is never referenced", location.as_str());
                let ghost before = out@;
                out.push(d);
                proof {
                    let m = located("rule '"@, name@, "' is never referenced"@, location@);
                    let ms = unreachable_msgs(*self, es.take(i as int));
                    assert forall|j: int| 0 <= j < out@.len() implies plain_diag(Severity::Warning, ms.push(m)[j], #[trigger] out@[j]) by {
                        if j < before.len() {
                            assert(out@[j] == before[j]);
                        }
                    }
                }
            }
            i += 1;
        }
        assert(es.take(n as int) =~= es);
        out
    }

    /// Returns the number of rules that are not reachable from the start symbol.
    pub fn count_unreachable_rules(&self) -> (r: usize)
        ensures
            r == unreachable_msgs(*self, entries(*self)).len(),
    {
        self.unreachable_rules_check().len()
    }
}

// ── All checks ───────────────────────────────────────────────────────────

/// What a diagnostic carries, with strings taken by their characters.
pub type DiagView = (Severity, Seq<char>, Option<Seq<char>>, Option<usize>, Option<usize>);

/// The view of one diagnostic.
pub open spec fn dview(d: Diagnostic) -> DiagView {
    (d.severity, d.message@, match d.file {
        Some(f) => Some(f@),
        None => None,
    }, d.line, d.column)
}

/// The views of a list of diagnostics.
pub open spec fn dviews(ds: Seq<Diagnostic>) -> Seq<DiagView> {
    ds.map_values(|d: Diagnostic| dview(d))
}

/// The views of diagnostics of severity `sev` with the messages `msgs` and no location.
pub open spec fn plain_views(sev: Severity, msgs: Seq<Seq<char>>) -> Seq<DiagView> {
    msgs.map_values(|m: Seq<char>| (sev, m, None::<Seq<char>>, None::<usize>, None::<usize>))
}

/// Errors without location have the views of their messages.
proof fn lemma_errors_views(ds: Seq<Diagnostic>, msgs: Seq<Seq<char>>)
    requires
        errors_are(ds, msgs),
    ensures
        dviews(ds) == plain_views(Severity::Error, msgs),
{
    assert forall|i: int| 0 <= i < ds.len() implies dviews(ds)[i] == plain_views(Severity::Error, msgs)[i] by {
        assert(plain_diag(Severity::Error, msgs[i], ds[i]));
    }
    assert(dviews(ds) =~= plain_views(Severity::Error, msgs));
}

/// Warnings without location have the views of their messages.
proof fn lemma_warnings_views(ds: Seq<Diagnostic>, msgs: Seq<Seq<char>>)
    requires
        warnings_are(ds, msgs),
    ensures
        dviews(ds) == plain_views(Severity::Warning, msgs),
{
    assert forall|i: int| 0 <= i < ds.len() implies dviews(ds)[i] == plain_views(Severity::Warning, msgs)[i] by {
        assert(plain_diag(Severity::Warning, msgs[i], ds[i]));
    }
    assert(dviews(ds) =~= plain_views(Severity::Warning, msgs));
}

/// The names a directive may refer to: the rules and the `%externals` names.
pub open spec fn check_known(g: Grammar) -> Set<Seq<char>> {
    Set::new(|x: Seq<char>| has_key(entries(g), x) || item_names(g.externals@).contains(x))
}

/// The error for an `%axiom` naming an unknown rule, if so.
pub open spec fn axiom_msgs(g: Grammar, known: Set<Seq<char>>) -> Seq<Seq<char>> {
    match g.axiom_of() {
        Some(item) => if known.contains(item.name@) {
            seq![]
        } else {
            seq![undefined_msg("%axiom"@, item.name@, item_loc(item))]
        },
        None => seq![],
    }
}

/// Every diagnostic of the grammar before sorting: the parse diagnostics,
/// then each check's findings in a fixed order.
pub open spec fn check_views(g: Grammar) -> Seq<DiagView> {
    let k = check_known(g);
    dviews(g.parse_diagnostics@)
        + plain_views(Severity::Error, axiom_msgs(g, k))
        + plain_views(Severity::Error, word_msgs(g, k))
        + plain_views(Severity::Error, conflicts_msgs(g.conflicts@, k))
        + plain_views(Severity::Error, inline_msgs(g, g.inline@, k))
        + plain_views(Severity::Error, supertypes_msgs(g, g.supertypes@))
        + plain_views(Severity::Error, extras_msgs(g.extras@, k))
        + plain_views(Severity::Error, precedences_msgs(g.precedences@, k))
        + plain_views(Severity::Error, undefined_ref_msgs(g.rhs_nonterminals@, k))
        + plain_views(Severity::Error, reserved_rule_msgs(g.reserved_sets@, k)
            + undeclared_set_msgs(g.reserved_set_refs@, g.reserved_sets@.map_values(|e: ReservedEntry| e.set_name@)))
        + plain_views(Severity::Warning, unreachable_msgs(g, entries(g)))
        + plain_views(Severity::Error, prec_name_msgs(g.prec_name_refs@, precedence_literals(g.precedences@)))
        + plain_views(Severity::Error, externals_msgs(g, g.externals@))
        + plain_views(Severity::Error, hidden_start_msgs(g))
}

/// `x` placed into `s` after every element whose message is not greater.
pub open spec fn insert_by_msg(s: Seq<DiagView>, x: DiagView) -> Seq<DiagView>
    decreases s.len(),
{
    if s.len() == 0 {
        seq![x]
    } else if seq_lt(x.1, s.last().1) {
        insert_by_msg(s.drop_last(), x).push(s.last())
    } else {
        s.push(x)
    }
}

/// `s` stably sorted by message: equal messages keep their order.
pub open spec fn sort_by_msg(s: Seq<DiagView>) -> Seq<DiagView>
    decreases s.len(),
{
    if s.len() == 0 {
        seq![]
    } else {
        insert_by_msg(sort_by_msg(s.drop_last()), s.last())
    }
}

/// Messages in non-decreasing order.
pub open spec fn sorted_by_msg(s: Seq<DiagView>) -> bool {
    forall|i: int, j: int| 0 <= i < j < s.len() ==> seq_le((#[trigger] s[i]).1, (#[trigger] s[j]).1)
}

/// Inserting at the place found by scanning from the end gives `insert_by_msg`.
proof fn lemma_insert_by_msg(s: Seq<DiagView>, x: DiagView, p: int)
    requires
        0 <= p <= s.len(),
        forall|j: int| p <= j < s.len() ==> seq_lt(x.1, (#[trigger] s[j]).1),
        p > 0 ==> !seq_lt(x.1, s[p - 1].1),
    ensures
        insert_by_msg(s, x) == s.insert(p, x),
    decreases s.len(),
{
    if s.len() == 0 {
        assert(s.insert(p, x) =~= seq![x]);
    } else if seq_lt(x.1, s.last().1) {
        lemma_insert_by_msg(s.drop_last(), x, p);
        assert(s.drop_last().insert(p, x).push(s.last()) =~= s.insert(p, x));
    } else {
        assert(p == s.len());
        assert(s.push(x) =~= s.insert(p, x));
    }
}

/// Insertion keeps a list sorted by message.
proof fn lemma_insert_by_msg_sorted(s: Seq<DiagView>, x: DiagView)
    requires
        sorted_by_msg(s),
    ensures
        sorted_by_msg(insert_by_msg(s, x)),
        insert_by_msg(s, x).len() == s.len() + 1,
        insert_by_msg(s, x).to_multiset() == s.to_multiset().insert(x),
    decreases s.len(),
{
    broadcast use vstd::seq_lib::group_to_multiset_ensures;
    if s.len() == 0 {
        assert(seq![x] =~= Seq::<DiagView>::empty().push(x));
    } else if seq_lt(x.1, s.last().1) {
        let d = s.drop_last();
        assert(sorted_by_msg(d));
        lemma_insert_by_msg_sorted(d, x);
        let t = insert_by_msg(d, x);
        let r = t.push(s.last());
        assert forall|i: int, j: int| 0 <= i < j < r.len() implies seq_le((#[trigger] r[i]).1, (#[trigger] r[j]).1) by {
            if j == r.len() - 1 {
                assert(r[j] == s.last());
                assert(t.to_multiset().count(r[i]) > 0);
                assert(r[i] == t[i]);
                if r[i] != x {
                    assert(d.to_multiset().count(r[i]) > 0);
                    let k = choose|k: int| 0 <= k < d.len() && d[k] == r[i];
                    assert(s[k] == r[i]);
                    assert(seq_le(s[k].1, s[s.len() - 1].1));
                } else {
                    lemma_seq_lt_total(x.1, s.last().1);
                }
            } else {
                assert(r[i] == t[i] && r[j] == t[j]);
            }
        }
        assert(s =~= d.push(s.last()));
    } else {
        let r = s.push(x);
        assert forall|i: int, j: int| 0 <= i < j < r.len() implies seq_le((#[trigger] r[i]).1, (#[trigger] r[j]).1) by {
            if j == r.len() - 1 {
                if i < s.len() - 1 {
                    assert(seq_le(s[i].1, s[s.len() - 1].1));
                    lemma_seq_le_trans(s[i].1, s[s.len() - 1].1, x.1);
                }
            } else {
                assert(r[i] == s[i] && r[j] == s[j]);
            }
        }
    }
}

/// `seq_le` is transitive.
proof fn lemma_seq_le_trans(a: Seq<char>, b: Seq<char>, c: Seq<char>)
    requires
        seq_le(a, b),
        seq_le(b, c),
    ensures
        seq_le(a, c),
{
    lemma_seq_lt_total(a, b);
    lemma_seq_lt_total(b, c);
    lemma_seq_lt_total(a, c);
    if seq_lt(c, a) {
        if a == b {
        } else if b == c {
        } else {
            assert(seq_lt(a, b));
            assert(seq_lt(b, c));
            lemma_seq_lt_trans(a, b, c);
        }
    }
}

/// Sorting by message puts the messages in order and keeps every diagnostic.
pub proof fn lemma_sort_by_msg(s: Seq<DiagView>)
    ensures
        sorted_by_msg(sort_by_msg(s)),
        sort_by_msg(s).to_multiset() == s.to_multiset(),
    decreases s.len(),
{
    broadcast use vstd::seq_lib::group_to_multiset_ensures;
    if s.len() > 0 {
        lemma_sort_by_msg(s.drop_last());
        lemma_insert_by_msg_sorted(sort_by_msg(s.drop_last()), s.last());
        assert(s =~= s.drop_last().push(s.last()));
    }
}

/// `v` stably sorted by message.
fn sort_by_message(v: Vec<Diagnostic>) -> (r: Vec<Diagnostic>)
    ensures
        dviews(r@) == sort_by_msg(dviews(v@)),
{
    let mut out: Vec<Diagnostic> = Vec::new();
    let mut i: usize = 0;
    while i < v.len()
        invariant
            0 <= i <= v@.len(),
            dviews(out@) == sort_by_msg(dviews(v@.take(i as int))),
        decreases v@.len() - i,
    {
        let d = v[i].duplicate();
        let mut p: usize = out.len();
        while p > 0 && str_lt(d.message.as_str(), out[p - 1].message.as_str())
            invariant
                0 <= p <= out@.len(),
                forall|j: int| p <= j < out@.len() ==> seq_lt(d.message@, (#[trigger] out@[j]).message@),
            decreases p,
        {
            p -= 1;
        }
        let ghost before = dviews(out@);
        let ghost dv = dview(d);
        proof {
            assert forall|j: int| p <= j < before.len() implies seq_lt(dv.1, (#[trigger] before[j]).1) by {
                assert(before[j] == dview(out@[j]));
            }
            if p > 0 {
                assert(before[p - 1] == dview(out@[p - 1]));
            }
            lemma_insert_by_msg(before, dv, p as int);
            let t = dviews(v@.take(i as int + 1));
            assert(t.drop_last() =~= dviews(v@.take(i as int)));
            assert(t.last() == dv);
        }
        let ghost old_out = out@;
        out.insert(p, d);
        proof {
            assert(out@ == old_out.insert(p as int, d));
            assert(dviews(out@) =~= before.insert(p as int, dv));
        }
        i += 1;
    }
    assert(v@.take(v@.len() as int) =~= v@);
    out
}

/// Appends `part` to `all`, tracking the views.
proof fn lemma_dviews_concat(a: Seq<Diagnostic>, b: Seq<Diagnostic>)
    ensures
        dviews(a + b) == dviews(a) + dviews(b),
{
    assert(dviews(a + b) =~= dviews(a) + dviews(b));
}

impl Grammar {
    /// Runs every cross-reference check and returns all diagnostics,
    /// parse diagnostics included, stably sorted by message.
    pub fn check(&self) -> (r: Vec<Diagnostic>)
        ensures
            dviews(r@) == sort_by_msg(check_views(*self)),
    {
        let ghost k = check_known(*self);
        let mut known = self.known_rules();
        let ghost rules = Set::new(|x: Seq<char>| has_key(entries(*self), x));
        assert(known@.to_set() =~= rules + item_names(self.externals@.take(0)).to_set());
        let mut i: usize = 0;
        while i < self.externals.len()
            invariant
                0 <= i <= self.externals@.len(),
                rules == Set::new(|x: Seq<char>| has_key(entries(*self), x)),
                known@.to_set() == rules + item_names(self.externals@.take(i as int)).to_set(),
            decreases self.externals@.len() - i,
        {
            proof {
                let t = self.externals@.take(i as int + 1);
                assert(t.drop_last() =~= self.externals@.take(i as int));
                assert(t.last() == self.externals@[i as int]);
            }
            match &self.externals[i] {
                NameOrLiteral::Name(n) => {
                    known.insert(n.as_str());
                    proof {
                        let w = item_names(self.externals@.take(i as int));
                        assert(item_names(self.externals@.take(i as int + 1)) =~= w.push(n@));
                        w.lemma_push_to_set_commute(n@);
                        assert(known@.to_set() =~= rules + w.push(n@).to_set());
                    }
                },
                NameOrLiteral::Literal(_) => {
                    assert(item_names(self.externals@.take(i as int + 1)) =~= item_names(self.externals@.take(i as int)));
                },
            }
            i += 1;
        }
        proof {
            assert(self.externals@.take(self.externals@.len() as int) =~= self.externals@);
            assert(known@.to_set() =~= k);
        }
        let mut all: Vec<Diagnostic> = Vec::new();
        let mut j: usize = 0;
        while j < self.parse_diagnostics.len()
            invariant
                0 <= j <= self.parse_diagnostics@.len(),
                all@ == self.parse_diagnostics@.take(j as int),
            decreases self.parse_diagnostics@.len() - j,
        {
            all.push(self.parse_diagnostics[j].duplicate());
            assert(all@ =~= self.parse_diagnostics@.take(j as int + 1));
            j += 1;
        }
        assert(all@ =~= self.parse_diagnostics@);
        let ghost mut acc = dviews(all@);

        let part = check_directive_ref(self.axiom_directive(), "%axiom", &known);
        proof {
            lemma_errors_views(part@, axiom_msgs(*self, k));
            lemma_dviews_concat(all@, part@);
            acc = acc + plain_views(Severity::Error, axiom_msgs(*self, k));
        }
        append_all(&mut all, part);

        let part = self.word_check(&known);
        proof {
            lemma_errors_views(part@, word_msgs(*self, k));
            lemma_dviews_concat(all@, part@);
            acc = acc + plain_views(Severity::Error, word_msgs(*self, k));
        }
        append_all(&mut all, part);

        let part = self.conflicts_check(&known);
        proof {
            lemma_errors_views(part@, conflicts_msgs(self.conflicts@, k));
            lemma_dviews_concat(all@, part@);
            acc = acc + plain_views(Severity::Error, conflicts_msgs(self.conflicts@, k));
        }
        append_all(&mut all, part);

        let part = self.inline_check(&known);
        proof {
            lemma_errors_views(part@, inline_msgs(*self, self.inline@, k));
            lemma_dviews_concat(all@, part@);
            acc = acc + plain_views(Severity::Error, inline_msgs(*self, self.inline@, k));
        }
        append_all(&mut all, part);

        let part = self.supertypes_check();
        proof {
            lemma_errors_views(part@, supertypes_msgs(*self, self.supertypes@));
            lemma_dviews_concat(all@, part@);
            acc = acc + plain_views(Severity::Error, supertypes_msgs(*self, self.supertypes@));
        }
        append_all(&mut all, part);

        let part = self.extras_check(&known);
        proof {
            lemma_errors_views(part@, extras_msgs(self.extras@, k));
            lemma_dviews_concat(all@, part@);
            acc = acc + plain_views(Severity::Error, extras_msgs(self.extras@, k));
        }
        append_all(&mut all, part);

        let part = self.precedences_check(&known);
        proof {
            lemma_errors_views(part@, precedences_msgs(self.precedences@, k));
            lemma_dviews_concat(all@, part@);
            acc = acc + plain_views(Severity::Error, precedences_msgs(self.precedences@, k));
        }
        append_all(&mut all, part);

        let part = self.undefined_refs_check(&known);
        proof {
            lemma_errors_views(part@, undefined_ref_msgs(self.rhs_nonterminals@, k));
            lemma_dviews_concat(all@, part@);
            acc = acc + plain_views(Severity::Error, undefined_ref_msgs(self.rhs_nonterminals@, k));
        }
        append_all(&mut all, part);

        let part = self.reserved_check(&known);
        let ghost rmsgs = reserved_rule_msgs(self.reserved_sets@, k)
            + undeclared_set_msgs(self.reserved_set_refs@, self.reserved_sets@.map_values(|e: ReservedEntry| e.set_name@));
        proof {
            lemma_errors_views(part@, rmsgs);
            lemma_dviews_concat(all@, part@);
            acc = acc + plain_views(Severity::Error, rmsgs);
        }
        append_all(&mut all, part);

        let part = self.unreachable_rules_check();
        proof {
            lemma_warnings_views(part@, unreachable_msgs(*self, entries(*self)));
            lemma_dviews_concat(all@, part@);
            acc = acc + plain_views(Severity::Warning, unreachable_msgs(*self, entries(*self)));
        }
        append_all(&mut all, part);

        let part = self.prec_name_check();
        proof {
            lemma_errors_views(part@, prec_name_msgs(self.prec_name_refs@, precedence_literals(self.precedences@)));
            lemma_dviews_concat(all@, part@);
            acc = acc + plain_views(Severity::Error, prec_name_msgs(self.prec_name_refs@, precedence_literals(self.precedences@)));
        }
        append_all(&mut all, part);

        let part = self.externals_check();
        proof {
            lemma_errors_views(part@, externals_msgs(*self, self.externals@));
            lemma_dviews_concat(all@, part@);
            acc = acc + plain_views(Severity::Error, externals_msgs(*self, self.externals@));
        }
        append_all(&mut all, part);

        let part = self.hidden_start_rule_check();
        proof {
            lemma_errors_views(part@, hidden_start_msgs(*self));
            lemma_dviews_concat(all@, part@);
            acc = acc + plain_views(Severity::Error, hidden_start_msgs(*self));
        }
        append_all(&mut all, part);

        assert(acc == check_views(*self));
        sort_by_message(all)
    }
}

// ── Merging an included grammar ─────────────────────────────────────────

/// The rule table `es` after inserting each rule of `os` in order; a rule
/// with a name already present replaces it in place.
pub open spec fn merge_table(es: Seq<(String, Production)>, os: Seq<(String, Production)>) -> Seq<(String, Production)>
    decreases os.len(),
{
    if os.len() == 0 {
        es
    } else {
        map_insert(merge_table(es, os.drop_last()), os.last().0, os.last().1)
    }
}

/// The warnings for the rules of `os` whose name is already defined when
/// they are merged in.
pub open spec fn redefined_msgs(es: Seq<(String, Production)>, os: Seq<(String, Production)>) -> Seq<Seq<char>>
    decreases os.len(),
{
    if os.len() == 0 {
        seq![]
    } else {
        redefined_msgs(es, os.drop_last()) + if has_key(merge_table(es, os.drop_last()), os.last().0@) {
            seq![located("rule '"@, os.last().0@, "' is defined more than once"@, rule_loc(os.last().1))]
        } else {
            Seq::<Seq<char>>::empty()
        }
    }
}

/// The diagnostic for a second `%word`, when both grammars declare one.
pub open spec fn merged_word_views(mine: Option<DirectiveItem>, theirs: Option<DirectiveItem>) -> Seq<DiagView> {
    match (mine, theirs) {
        (Some(_), Some(w)) => plain_views(Severity::Error, seq![declared_twice_text("%word declared more than once ("@, w)]),
        _ => seq![],
    }
}

/// The warning for a rule `p` whose name is already defined in `es`.
pub open spec fn redefined_warning(es: Seq<(String, Production)>, p: Production) -> Seq<DiagView> {
    if has_key(es, p.name@) {
        plain_views(Severity::Warning, seq![located("rule '"@, p.name@, "' is defined more than once"@, rule_loc(p))])
    } else {
        seq![]
    }
}

impl Grammar {
    /// Adds the rule `prod`, read from the source, under its own name.  A
    /// rule already defined keeps its place and takes the later body, and
    /// the redefinition is answered with a warning.
    pub fn add_rule(&mut self, prod: Production)
        ensures
            entries(*final(self)) == map_insert(entries(*old(self)), prod.name, prod),
            rule_named(*final(self), prod.name@) == Some(prod),
            dviews(final(self).parse_diagnostics@) == dviews(old(self).parse_diagnostics@)
                + redefined_warning(entries(*old(self)), prod),
            final(self).axiom_item == old(self).axiom_item,
            final(self).word == old(self).word,
            final(self).conflicts == old(self).conflicts,
            final(self).precedences == old(self).precedences,
            final(self).inline == old(self).inline,
            final(self).supertypes == old(self).supertypes,
            final(self).extras == old(self).extras,
            final(self).externals == old(self).externals,
            final(self).rhs_nonterminals == old(self).rhs_nonterminals,
            final(self).reserved_sets == old(self).reserved_sets,
            final(self).reserved_set_refs == old(self).reserved_set_refs,
            final(self).prec_name_refs == old(self).prec_name_refs,
    {
        let ghost before = entries(*self);
        let ghost bd = self.parse_diagnostics@;
        let ghost pv = prod;
        proof {
            lemma_key_pos(before, prod.name@);
        }
        if rules_find(&self.productions, prod.name.as_str()).is_some() {
            let location = loc(prod.filename.as_str(), prod.line);
            let d = located_warning("rule '", prod.name.as_str(), "' is defined more than once", location.as_str());
            self.parse_diagnostics.push(d);
            proof {
                let m = located("rule '"@, pv.name@, "' is defined more than once"@, rule_loc(pv));
                assert(dviews(self.parse_diagnostics@) =~= dviews(bd).push((Severity::Warning, m, None::<Seq<char>>, None::<usize>, None::<usize>)));
                assert(plain_views(Severity::Warning, seq![m]) =~= seq![(Severity::Warning, m, None::<Seq<char>>, None::<usize>, None::<usize>)]);
            }
        } else {
            assert(dviews(self.parse_diagnostics@) =~= dviews(bd) + Seq::<DiagView>::empty());
        }
        let name = prod.name.clone();
        let _ = rules_insert(&mut self.productions, name, prod);
        proof {
            let i = key_pos(before, pv.name@);
            if i >= 0 {
                assert(before[i].0@ == pv.name@);
            }
            let after = entries(*self);
            lemma_key_pos(after, pv.name@);
            let j = key_pos(after, pv.name@);
            if i >= 0 {
                assert(after[i].0@ == pv.name@);
                if j < i {
                    assert(after[j] == before[j]);
                }
                assert(j == i);
            } else {
                assert(after[before.len() as int].0@ == pv.name@);
                if j < before.len() {
                    assert(after[j] == before[j]);
                }
            }
        }
    }

    /// Merges `other` into this grammar as if its text stood at the
    /// `%include` site.  A rule already defined is replaced in place by the
    /// incoming one, with a warning; `other`'s `%word` is declared here as
    /// usual; its `%axiom` and `%prec` name references are dropped; every
    /// other directive list is appended.
    pub fn merge_from(&mut self, other: Grammar)
        ensures
            entries(*final(self)) == merge_table(entries(*old(self)), entries(other)),
            dviews(final(self).parse_diagnostics@) == dviews(old(self).parse_diagnostics@)
                + plain_views(Severity::Warning, redefined_msgs(entries(*old(self)), entries(other)))
                + merged_word_views(old(self).word, other.word)
                + dviews(other.parse_diagnostics@),
            final(self).word == if old(self).word is Some { old(self).word } else { other.word },
            final(self).axiom_of() == old(self).axiom_of(),
            final(self).conflicts@ == old(self).conflicts@ + other.conflicts@,
            final(self).precedences@ == old(self).precedences@ + other.precedences@,
            final(self).inline@ == old(self).inline@ + other.inline@,
            final(self).supertypes@ == old(self).supertypes@ + other.supertypes@,
            final(self).extras@ == old(self).extras@ + other.extras@,
            final(self).externals@ == old(self).externals@ + other.externals@,
            final(self).rhs_nonterminals@.to_set() == old(self).rhs_nonterminals@.to_set() + other.rhs_nonterminals@.to_set(),
            final(self).reserved_set_refs@ == old(self).reserved_set_refs@ + other.reserved_set_refs@,
            final(self).reserved_sets@ == old(self).reserved_sets@ + other.reserved_sets@,
            final(self).prec_name_refs == old(self).prec_name_refs,
    {
        let ghost es0 = entries(*self);
        let ghost os = entries(other);
        let ghost pd0 = dviews(self.parse_diagnostics@);
        let mut other = other;
        let other_word = other.take_word();
        let Grammar {
            productions,
            axiom_item: _,
            word: _,
            mut conflicts,
            mut precedences,
            mut inline,
            mut supertypes,
            mut extras,
            mut externals,
            rhs_nonterminals,
            mut parse_diagnostics,
            mut reserved_sets,
            mut reserved_set_refs,
            prec_name_refs: _,
        } = other;
        let mut pending = rules_into_entries(productions);
        let mut rest: Vec<(String, Production)> = Vec::new();
        assert(pending@ + rest@.reverse() =~= os);
        while pending.len() > 0
            invariant
                pending@ + rest@.reverse() == os,
            decreases pending.len(),
        {
            let ghost bp = pending@;
            let ghost br = rest@;
            let e = pending.pop().unwrap();
            proof {
                assert(bp =~= pending@.push(e));
                assert(br.push(e).reverse() =~= seq![e] + br.reverse());
            }
            rest.push(e);
            assert(pending@ + rest@.reverse() =~= os);
        }
        assert(rest@.reverse() =~= os);
        let ghost mut done: Seq<(String, Production)> = seq![];
        while rest.len() > 0
            invariant
                done + rest@.reverse() == os,
                entries(*self) == merge_table(es0, done),
                dviews(self.parse_diagnostics@) == pd0 + plain_views(Severity::Warning, redefined_msgs(es0, done)),
                self.word == old(self).word,
                self.axiom_item == old(self).axiom_item,
                self.conflicts == old(self).conflicts,
                self.precedences == old(self).precedences,
                self.inline == old(self).inline,
                self.supertypes == old(self).supertypes,
                self.extras == old(self).extras,
                self.externals == old(self).externals,
                self.rhs_nonterminals == old(self).rhs_nonterminals,
                self.reserved_sets == old(self).reserved_sets,
                self.reserved_set_refs == old(self).reserved_set_refs,
                self.prec_name_refs == old(self).prec_name_refs,
            decreases rest.len(),
        {
            let (name, prod) = rest.pop().unwrap();
            let ghost nv = name;
            let ghost pv = prod;
            let ghost before = entries(*self);
            let ghost bd = self.parse_diagnostics@;
            proof {
                lemma_key_pos(before, name@);
            }
            if rules_find(&self.productions, name.as_str()).is_some() {
                let location = loc(prod.filename.as_str(), prod.line);
                let d = located_warning("rule '", name.as_str(), "' is defined more than once", location.as_str());
                self.parse_diagnostics.push(d);
                proof {
                    let m = located("rule '"@, name@, "' is defined more than once"@, rule_loc(pv));
                    assert(dviews(self.parse_diagnostics@) =~= dviews(bd).push((Severity::Warning, m, None::<Seq<char>>, None::<usize>, None::<usize>)));
                }
            }
            let _ = rules_insert(&mut self.productions, name, prod);
            proof {
                let i = key_pos(before, nv@);
                if i >= 0 {
                    assert(before[i].0@ == nv@);
                }
                assert(done.push((nv, pv)).drop_last() =~= done);
                assert(entries(*self) == map_insert(before, nv, pv));
                assert(rest@.push((nv, pv)).reverse() =~= seq![(nv, pv)] + rest@.reverse());
                let rd = redefined_msgs(es0, done);
                assert(plain_views(Severity::Warning, redefined_msgs(es0, done.push((nv, pv))))
                    =~= plain_views(Severity::Warning, rd) + plain_views(Severity::Warning, if has_key(merge_table(es0, done), nv@) {
                        seq![located("rule '"@, nv@, "' is defined more than once"@, rule_loc(pv))]
                    } else {
                        Seq::<Seq<char>>::empty()
                    }));
                done = done.push((nv, pv));
                assert(done + rest@.reverse() =~= os);
            }
        }
        assert(done =~= os);
        let ghost pd1 = dviews(self.parse_diagnostics@);
        let ghost w0 = self.word;
        match other_word {
            Some(w) => {
                match self.declare_word(w) {
                    Some(d) => {
                        let ghost bd = self.parse_diagnostics@;
                        self.parse_diagnostics.push(d);
                        proof {
                            assert(dviews(self.parse_diagnostics@) =~= dviews(bd).push(dview(d)));
                            assert(merged_word_views(w0, Some(w)) =~= seq![dview(d)]);
                        }
                    },
                    None => {
                        assert(merged_word_views(w0, Some(w)) =~= Seq::<DiagView>::empty());
                    },
                }
            },
            None => {
                assert(merged_word_views(w0, None) =~= Seq::<DiagView>::empty());
            },
        }
        self.conflicts.append(&mut conflicts);
        self.precedences.append(&mut precedences);
        self.inline.append(&mut inline);
        self.supertypes.append(&mut supertypes);
        self.extras.append(&mut extras);
        self.externals.append(&mut externals);
        self.rhs_nonterminals.extend(&rhs_nonterminals);
        let ghost bd = self.parse_diagnostics@;
        self.parse_diagnostics.append(&mut parse_diagnostics);
        proof {
            lemma_dviews_concat(bd, other.parse_diagnostics@);
        }
        self.reserved_set_refs.append(&mut reserved_set_refs);
        self.reserved_sets.append(&mut reserved_sets);
    }
}

} // verus!
