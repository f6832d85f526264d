//! Rendering of a [`Grammar`] as a complete tree-sitter `grammar.js` file.

use vstd::prelude::*;
use vstd::string::*;
use crate::checks::{is_pattern_name, starts_with_slash};
use crate::directive::{ConflictGroup, DirectiveItem};
use crate::nodes::js;
use crate::production::Production;
use crate::rules::{rules_get_index, rules_len};
use crate::text::{join, join_strings, views};
use crate::types::{entries, Grammar};

verus! {

/// A grammar together with the name passed to tree-sitter's
/// `grammar({ name: … })`.
pub struct Scaffold<'a> {
    /// The grammar to render.
    pub grammar: &'a Grammar,
    /// The grammar name.
    pub name: &'a str,
}

/// A reference to rule `n` in `grammar.js`: `$.n`.
pub open spec fn rule_ref(n: Seq<char>) -> Seq<char> {
    "$."@ + n
}

/// An `extras` entry: a pattern verbatim, a rule name as a reference.
pub open spec fn extra_js(i: DirectiveItem) -> Seq<char> {
    if is_pattern_name(i.name@) { i.name@ } else { rule_ref(i.name@) }
}

/// The `extras` entries of `items`.
pub open spec fn extras_js(items: Seq<DirectiveItem>) -> Seq<Seq<char>> {
    items.map_values(|i: DirectiveItem| extra_js(i))
}

/// References to the rules named by `items`.
pub open spec fn refs_js(items: Seq<DirectiveItem>) -> Seq<Seq<char>> {
    items.map_values(|i: DirectiveItem| rule_ref(i.name@))
}

/// References to the rules named in `names`.
pub open spec fn name_refs_js(names: Seq<String>) -> Seq<Seq<char>> {
    names.map_values(|n: String| rule_ref(n@))
}

/// A list-valued key, `  key: $ => [a, b],` and a blank line; nothing for
/// an empty list.
pub open spec fn list_section(key: Seq<char>, parts: Seq<Seq<char>>) -> Seq<char> {
    if parts.len() == 0 {
        seq![]
    } else {
        "  "@ + key + ": $ => ["@ + join(parts, ", "@) + "],\n"@ + "\n"@
    }
}

/// One line per conflict group, `    [$.a, $.b],`.
pub open spec fn conflict_lines(gs: Seq<ConflictGroup>) -> Seq<char>
    decreases gs.len(),
{
    if gs.len() == 0 {
        seq![]
    } else {
        conflict_lines(gs.drop_last()) + "    ["@ + join(name_refs_js(gs.last().rules@), ", "@) + "],\n"@
    }
}

/// The `conflicts` key with its groups; nothing when there are none.
pub open spec fn conflicts_section(gs: Seq<ConflictGroup>) -> Seq<char> {
    if gs.len() == 0 {
        seq![]
    } else {
        "  conflicts: $ => [\n"@ + conflict_lines(gs) + "  ],\n"@ + "\n"@
    }
}

/// One line per rule, `    name: $ => body,`, in declaration order.
pub open spec fn rule_lines(es: Seq<(String, Production)>) -> Seq<char>
    decreases es.len(),
{
    if es.len() == 0 {
        seq![]
    } else {
        rule_lines(es.drop_last()) + "    "@ + es.last().1.name@ + ": $ => "@ + js(es.last().1.body) + ",\n"@
    }
}

/// The whole `grammar.js` text for grammar `g` named `name`.
pub open spec fn scaffold_text(g: Grammar, name: Seq<char>) -> Seq<char> {
    "module.exports = grammar({\n"@ + "  name: \""@ + name + "\",\n"@ + "\n"@
        + list_section("extras"@, extras_js(g.extras@))
        + list_section("inline"@, refs_js(g.inline@))
        + list_section("supertypes"@, refs_js(g.supertypes@))
        + conflicts_section(g.conflicts@)
        + "  rules: {\n"@ + rule_lines(entries(g)) + "  }\n"@ + "});"@
}

/// `$.n` as a string.
fn rule_ref_string(n: &str) -> (r: String)
    ensures
        r@ == rule_ref(n@),
{
    let mut out = String::from_str("$.");
    out.append(n);
    out
}

/// The `extras` entries of `items`, as strings.
fn extra_strings(items: &Vec<DirectiveItem>) -> (r: Vec<String>)
    ensures
        views(r@) == extras_js(items@),
{
    let mut out: Vec<String> = Vec::new();
    let mut k: usize = 0;
    while k < items.len()
        invariant
            0 <= k <= items@.len(),
            views(out@) == extras_js(items@.take(k as int)),
        decreases items@.len() - k,
    {
        let ghost bo = out@;
        let name = items[k].name.as_str();
        let s = if starts_with_slash(name) { String::from_str(name) } else { rule_ref_string(name) };
        out.push(s);
        proof {
            assert(views(out@) =~= views(bo).push(extra_js(items@[k as int])));
            assert(extras_js(items@.take(k as int + 1)) =~= extras_js(items@.take(k as int)).push(extra_js(items@[k as int])));
        }
        k += 1;
    }
    assert(items@.take(items@.len() as int) =~= items@);
    out
}

/// References to the rules named by `items`, as strings.
fn ref_strings(items: &Vec<DirectiveItem>) -> (r: Vec<String>)
    ensures
        views(r@) == refs_js(items@),
{
    let mut out: Vec<String> = Vec::new();
    let mut k: usize = 0;
    while k < items.len()
        invariant
            0 <= k <= items@.len(),
            views(out@) == refs_js(items@.take(k as int)),
        decreases items@.len() - k,
    {
        let ghost bo = out@;
        out.push(rule_ref_string(items[k].name.as_str()));
        proof {
            assert(views(out@) =~= views(bo).push(rule_ref(items@[k as int].name@)));
            assert(refs_js(items@.take(k as int + 1)) =~= refs_js(items@.take(k as int)).push(rule_ref(items@[k as int].name@)));
        }
        k += 1;
    }
    assert(items@.take(items@.len() as int) =~= items@);
    out
}

/// References to the rules named in `names`, as strings.
fn name_ref_strings(names: &Vec<String>) -> (r: Vec<String>)
    ensures
        views(r@) == name_refs_js(names@),
{
    let mut out: Vec<String> = Vec::new();
    let mut k: usize = 0;
    while k < names.len()
        invariant
            0 <= k <= names@.len(),
            views(out@) == name_refs_js(names@.take(k as int)),
        decreases names@.len() - k,
    {
        let ghost bo = out@;
        out.push(rule_ref_string(names[k].as_str()));
        proof {
            assert(views(out@) =~= views(bo).push(rule_ref(names@[k as int]@)));
            assert(name_refs_js(names@.take(k as int + 1)) =~= name_refs_js(names@.take(k as int)).push(rule_ref(names@[k as int]@)));
        }
        k += 1;
    }
    assert(names@.take(names@.len() as int) =~= names@);
    out
}

/// Appends the list-valued key `key` built from `parts` to `out`.
fn push_list_section(out: &mut String, key: &str, parts: &Vec<String>)
    ensures
        final(out)@ == old(out)@ + list_section(key@, views(parts@)),
{
    if parts.len() > 0 {
        out.append("  ");
        out.append(key);
        out.append(": $ => [");
        out.append(join_strings(parts, ", ").as_str());
        out.append("],\n");
        out.append("\n");
    }
}

impl<'a> Scaffold<'a> {
    /// The complete `grammar.js` text: the name, then `extras`, `inline`,
    /// `supertypes` and `conflicts` where the grammar declares any, then
    /// every rule in declaration order.
    pub fn to_text(&self) -> (r: String)
        ensures
            r@ == scaffold_text(*self.grammar, self.name@),
    {
        let g = self.grammar;
        let mut out = String::from_str("module.exports = grammar({\n");
        out.append("  name: \"");
        out.append(self.name);
        out.append("\",\n");
        out.append("\n");
        let extras = extra_strings(&g.extras);
        push_list_section(&mut out, "extras", &extras);
        let inline = ref_strings(&g.inline);
        push_list_section(&mut out, "inline", &inline);
        let supertypes = ref_strings(&g.supertypes);
        push_list_section(&mut out, "supertypes", &supertypes);
        if g.conflicts.len() > 0 {
            out.append("  conflicts: $ => [\n");
            let ghost before = out@;
            let mut i: usize = 0;
            while i < g.conflicts.len()
                invariant
                    0 <= i <= g.conflicts@.len(),
                    out@ == before + conflict_lines(g.conflicts@.take(i as int)),
                decreases g.conflicts@.len() - i,
            {
                let parts = name_ref_strings(&g.conflicts[i].rules);
                out.append("    [");
                out.append(join_strings(&parts, ", ").as_str());
                out.append("],\n");
                proof {
                    let t = g.conflicts@.take(i as int + 1);
                    assert(t.drop_last() =~= g.conflicts@.take(i as int));
                }
                i += 1;
            }
            assert(g.conflicts@.take(g.conflicts@.len() as int) =~= g.conflicts@);
            out.append("  ],\n");
            out.append("\n");
        }
        out.append("  rules: {\n");
        let ghost es = entries(*g);
        let ghost before = out@;
        let n = rules_len(&g.productions);
        let mut i: usize = 0;
        while i < n
            invariant
                0 <= i <= n,
                n == es.len(),
                es == entries(*g),
                out@ == before + rule_lines(es.take(i as int)),
            decreases n - i,
        {
            let (_, p) = rules_get_index(&g.productions, i);
            out.append("    ");
            out.append(p.name.as_str());
            out.append(": $ => ");
            out.append(p.body.to_js().as_str());
            out.append(",\n");
            proof {
                let t = es.take(i as int + 1);
                assert(t.drop_last() =~= es.take(i as int));
            }
            i += 1;
        }
        assert(es.take(n as int) =~= es);
        out.append("  }\n");
        out.append("});");
        out
    }
}

} // verus!
