//! The recorded settings of a scaffolded crate (`ts-bnf-tool.toml`) and
//! the decision of whether, and how, to bring them up to date.

use vstd::prelude::*;
use vstd::string::*;
use crate::kinds::{check_visitor, visible_kind_list, visitor_error};
use crate::merge::{check_merge_config, merge_config_error, MergeConfig, MergeEntry, PassthroughEntry};
use crate::types::Grammar;
use crate::text::{str_eq, views};

verus! {

/// The settings a scaffolded crate records about itself.
#[derive(Debug)]
pub struct ScaffoldConfig {
    /// The name of the main BNF grammar file.
    pub grammar: String,
    /// The name of the project (usually the grammar file without `.bnf`).
    pub name: String,
    /// Whether syntax-tree types are generated.
    pub ast_types: bool,
    /// The merge configuration, if any.
    pub merge_config: Option<MergeConfig>,
}

/// The content of a merge entry: its target and its kinds.
pub open spec fn merge_entry_view(e: MergeEntry) -> (Seq<char>, Seq<Seq<char>>) {
    (e.target@, views(e.from@))
}

/// The content of a passthrough entry: its kind and its target.
pub open spec fn passthrough_view(e: PassthroughEntry) -> (Seq<char>, Seq<char>) {
    (e.kind@, e.target@)
}

/// The content of a merge configuration, field by field.
pub open spec fn merge_config_view(c: MergeConfig) -> (Seq<(Seq<char>, Seq<Seq<char>>)>, Seq<(Seq<char>, Seq<char>)>, Seq<Seq<char>>) {
    (
        c.merge@.map_values(|e: MergeEntry| merge_entry_view(e)),
        c.passthrough@.map_values(|e: PassthroughEntry| passthrough_view(e)),
        views(c.ignore@),
    )
}

/// The content of an optional merge configuration.
pub open spec fn opt_merge_view(c: Option<MergeConfig>) -> Option<(Seq<(Seq<char>, Seq<Seq<char>>)>, Seq<(Seq<char>, Seq<char>)>, Seq<Seq<char>>)> {
    match c {
        Some(m) => Some(merge_config_view(m)),
        None => None,
    }
}

/// Whether two lists of strings are equal, element by element.
fn strings_eq(a: &Vec<String>, b: &Vec<String>) -> (r: bool)
    ensures
        r == (views(a@) == views(b@)),
{
    if a.len() != b.len() {
        assert(views(a@).len() != views(b@).len());
        return false;
    }
    let mut i: usize = 0;
    while i < a.len()
        invariant
            a@.len() == b@.len(),
            0 <= i <= a@.len(),
            forall|k: int| 0 <= k < i ==> a@[k]@ == b@[k]@,
        decreases a@.len() - i,
    {
        if !str_eq(a[i].as_str(), b[i].as_str()) {
            assert(views(a@)[i as int] != views(b@)[i as int]);
            return false;
        }
        i += 1;
    }
    assert(views(a@) =~= views(b@));
    true
}

/// Whether two merge configurations have the same content.
pub fn merge_config_eq(a: &MergeConfig, b: &MergeConfig) -> (r: bool)
    ensures
        r == (merge_config_view(*a) == merge_config_view(*b)),
{
    let ghost va = merge_config_view(*a);
    let ghost vb = merge_config_view(*b);
    if a.merge.len() != b.merge.len() || a.passthrough.len() != b.passthrough.len() {
        assert(va.0.len() != vb.0.len() || va.1.len() != vb.1.len());
        return false;
    }
    let mut i: usize = 0;
    while i < a.merge.len()
        invariant
            a.merge@.len() == b.merge@.len(),
            0 <= i <= a.merge@.len(),
            va == merge_config_view(*a),
            vb == merge_config_view(*b),
            forall|k: int| 0 <= k < i ==> va.0[k] == vb.0[k],
        decreases a.merge@.len() - i,
    {
        let same = str_eq(a.merge[i].target.as_str(), b.merge[i].target.as_str())
            && strings_eq(&a.merge[i].from, &b.merge[i].from);
        if !same {
            assert(va.0[i as int] != vb.0[i as int]);
            return false;
        }
        i += 1;
    }
    let mut j: usize = 0;
    while j < a.passthrough.len()
        invariant
            a.passthrough@.len() == b.passthrough@.len(),
            0 <= j <= a.passthrough@.len(),
            va == merge_config_view(*a),
            vb == merge_config_view(*b),
            forall|k: int| 0 <= k < j ==> va.1[k] == vb.1[k],
        decreases a.passthrough@.len() - j,
    {
        let same = str_eq(a.passthrough[j].kind.as_str(), b.passthrough[j].kind.as_str())
            && str_eq(a.passthrough[j].target.as_str(), b.passthrough[j].target.as_str());
        if !same {
            assert(va.1[j as int] != vb.1[j as int]);
            return false;
        }
        j += 1;
    }
    assert(va.0 =~= vb.0);
    assert(va.1 =~= vb.1);
    strings_eq(&a.ignore, &b.ignore)
}

/// Whether `existing` already records what `effective` says of the name,
/// the syntax-tree types and the merge configuration; the grammar file is
/// no part of the comparison.
pub open spec fn scaffold_config_current(existing: ScaffoldConfig, effective: ScaffoldConfig) -> bool {
    &&& existing.name@ == effective.name@
    &&& existing.ast_types == effective.ast_types
    &&& opt_merge_view(existing.merge_config) == opt_merge_view(effective.merge_config)
}

/// The settings to write back over `existing` so that its name,
/// syntax-tree flag and merge configuration match `effective`: nothing
/// when they already do, so that a hand-edited file is left alone;
/// otherwise `effective`'s values under `existing`'s grammar file, which
/// is never changed.
pub fn scaffold_config_patch(existing: ScaffoldConfig, effective: ScaffoldConfig) -> (r: Option<ScaffoldConfig>)
    ensures
        scaffold_config_current(existing, effective) <==> r is None,
        r matches Some(p) ==> {
            &&& p.grammar == existing.grammar
            &&& p.name == effective.name
            &&& p.ast_types == effective.ast_types
            &&& p.merge_config == effective.merge_config
        },
{
    let same_merge = match (&existing.merge_config, &effective.merge_config) {
        (Some(a), Some(b)) => merge_config_eq(a, b),
        (None, None) => true,
        _ => false,
    };
    if str_eq(existing.name.as_str(), effective.name.as_str()) && existing.ast_types == effective.ast_types && same_merge {
        return None;
    }
    Some(ScaffoldConfig {
        grammar: existing.grammar,
        name: effective.name,
        ast_types: effective.ast_types,
        merge_config: effective.merge_config,
    })
}

/// The first reason not to scaffold `grammar` with `merge_config`: two
/// visible kinds sharing a `visit_*` method name, then a merge
/// configuration that does not fit the grammar.
pub open spec fn scaffold_request_error(grammar: Grammar, merge_config: Option<MergeConfig>) -> Option<Seq<char>> {
    if visitor_error(grammar) is Some {
        visitor_error(grammar)
    } else {
        match merge_config {
            Some(c) => merge_config_error(c, visible_kind_list(grammar)),
            None => None,
        }
    }
}

/// Checks a scaffold request before anything is written: the grammar must
/// give distinct visitor method names, and the merge configuration, when
/// there is one, must fit the grammar.  The first failure is the error.
pub fn validate_scaffold_request(grammar: &Grammar, merge_config: Option<&MergeConfig>) -> (r: Result<(), String>)
    ensures
        match scaffold_request_error(*grammar, match merge_config { Some(c) => Some(*c), None => None }) {
            None => r is Ok,
            Some(m) => r matches Err(e) && e@ == m,
        },
{
    match check_visitor(grammar) {
        Err(e) => return Err(e),
        Ok(()) => {},
    }
    match merge_config {
        Some(c) => check_merge_config(grammar, c),
        None => Ok(()),
    }
}

} // verus!
