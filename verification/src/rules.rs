//! The ordered rule table of a grammar: an `indexmap::IndexMap` keyed by
//! rule name, reached through a small set of trusted wrappers.

use indexmap::IndexMap;
use vstd::prelude::*;
use crate::production::Production;

verus! {

#[verifier::external_type_specification]
#[verifier::external_body]
#[verifier::reject_recursive_types(K)]
#[verifier::reject_recursive_types(V)]
#[verifier::reject_recursive_types(S)]
pub struct ExIndexMap<K, V, S>(IndexMap<K, V, S>);

/// The entries of a rule table, in insertion order.
pub uninterp spec fn rule_entries(m: IndexMap<String, Production>) -> Seq<(String, Production)>;

/// No two entries of `es` have equal keys.
pub open spec fn keys_distinct(es: Seq<(String, Production)>) -> bool {
    forall|i: int, j: int| 0 <= i < es.len() && 0 <= j < es.len() && i != j ==> es[i].0@ != es[j].0@
}

/// Some entry of `es` has key `k`.
pub open spec fn has_key(es: Seq<(String, Production)>, k: Seq<char>) -> bool {
    exists|i: int| 0 <= i < es.len() && es[i].0@ == k
}

/// The keys of `es`, in order.
pub open spec fn entry_keys(es: Seq<(String, Production)>) -> Seq<Seq<char>> {
    es.map_values(|e: (String, Production)| e.0@)
}

/// An empty rule table (`IndexMap::new`).
#[verifier::external_body]
pub(crate) fn rules_new() -> (m: IndexMap<String, Production>)
    ensures
        rule_entries(m) == Seq::<(String, Production)>::empty(),
{
    IndexMap::new()
}

/// The number of rules (`IndexMap::len`).
#[verifier::external_body]
pub(crate) fn rules_len(m: &IndexMap<String, Production>) -> (n: usize)
    ensures
        n == rule_entries(*m).len(),
{
    m.len()
}

/// The `i`-th entry in insertion order (`IndexMap::get_index`).
#[verifier::external_body]
pub(crate) fn rules_get_index(m: &IndexMap<String, Production>, i: usize) -> (r: (&String, &Production))
    requires
        i < rule_entries(*m).len(),
    ensures
        *r.0 == rule_entries(*m)[i as int].0,
        *r.1 == rule_entries(*m)[i as int].1,
{
    m.get_index(i).unwrap()
}

/// The position of the entry with key `key`, if any (`IndexMap::get_index_of`);
/// keys are unique, so it is the only entry with that key.
#[verifier::external_body]
pub(crate) fn rules_find(m: &IndexMap<String, Production>, key: &str) -> (r: Option<usize>)
    ensures
        r matches Some(i) ==> i < rule_entries(*m).len() && rule_entries(*m)[i as int].0@ == key@
            && forall|j: int| 0 <= j < rule_entries(*m).len() && #[trigger] rule_entries(*m)[j].0@ == key@ ==> j == i,
        r is None ==> !has_key(rule_entries(*m), key@),
{
    m.get_index_of(key)
}

/// Inserts or replaces the value for `key` (`IndexMap::insert`): an existing
/// key keeps its place and gets the new value; a new key goes last.
#[verifier::external_body]
pub(crate) fn rules_insert(m: &mut IndexMap<String, Production>, key: String, value: Production) -> (r: Option<Production>)
    ensures
        keys_distinct(rule_entries(*final(m))),
        forall|i: int|
            0 <= i < rule_entries(*old(m)).len() && #[trigger] rule_entries(*old(m))[i].0@ == key@
                ==> rule_entries(*final(m)) == rule_entries(*old(m)).update(i, (rule_entries(*old(m))[i].0, value))
                && r == Some(rule_entries(*old(m))[i].1),
        !has_key(rule_entries(*old(m)), key@) ==> rule_entries(*final(m)) == rule_entries(*old(m)).push((key, value))
            && r is None,
{
    m.insert(key, value)
}

/// All entries, in insertion order, taken out of the table (`IntoIterator`).
#[verifier::external_body]
pub(crate) fn rules_into_entries(m: IndexMap<String, Production>) -> (v: Vec<(String, Production)>)
    ensures
        v@ == rule_entries(m),
        keys_distinct(v@),
{
    m.into_iter().collect()
}

/// The keys of the table, in insertion order (`IndexMap::keys`); a map
/// holds each key once.
#[verifier::external_body]
pub(crate) fn rules_keys(m: &IndexMap<String, Production>) -> (v: Vec<String>)
    ensures
        v@.map_values(|s: String| s@) == entry_keys(rule_entries(*m)),
        v@.map_values(|s: String| s@).no_duplicates(),
{
    m.keys().cloned().collect()
}

/// Entries whose key list has no repetition have pairwise distinct keys.
pub proof fn lemma_keys_distinct(es: Seq<(String, Production)>)
    requires
        entry_keys(es).no_duplicates(),
    ensures
        keys_distinct(es),
{
    assert forall|i: int, j: int| 0 <= i < es.len() && 0 <= j < es.len() && i != j implies es[i].0@ != es[j].0@ by {
        assert(entry_keys(es)[i] == es[i].0@);
        assert(entry_keys(es)[j] == es[j].0@);
    }
}

} // verus!
