//! The rule-dependency graph of a grammar and its DOT and Mermaid forms.

use vstd::prelude::*;
use vstd::string::*;
use crate::nameset::{add_all, NameSet};
use crate::nodes::nt_names;
use crate::production::Production;
use crate::railroad::{sorted_unique, strictly_sorted, undefined_warning};
use crate::rules::{has_key, rules_get_index, rules_len};
use crate::text::{join, owned, str_eq, str_to_chars, views};
use crate::types::{entries, Grammar};

verus! {

/// A rule-dependency graph.
#[derive(Debug)]
pub struct GraphData {
    /// Directed edges `(from_rule, to_rule)`, without repetition, in
    /// declaration order.
    pub edges: Vec<(String, String)>,
    /// The start rule (empty for an empty grammar).
    pub start: String,
    /// The defined rules in the graph.
    pub defined: NameSet,
    /// The rules referenced by an edge but not defined.
    pub undefined: NameSet,
}

/// The view of an edge list.
pub open spec fn edges_view(v: Seq<(String, String)>) -> Seq<(Seq<char>, Seq<char>)> {
    v.map_values(|e: (String, String)| (e.0@, e.1@))
}

/// The edges of the rules of `es`: each rule to each rule its body
/// references, each once, rule after rule.
pub open spec fn raw_edges(es: Seq<(String, Production)>) -> Seq<(Seq<char>, Seq<char>)>
    decreases es.len(),
{
    if es.len() == 0 {
        seq![]
    } else {
        raw_edges(es.drop_last())
            + add_all(seq![], nt_names(es.last().1.body)).map_values(|r: Seq<char>| (es.last().0@, r))
    }
}

/// The edges of the rules of `grammar`, each once, in declaration order.
fn build_raw_edges(grammar: &Grammar) -> (r: Vec<(String, String)>)
    ensures
        edges_view(r@) == raw_edges(entries(*grammar)),
{
    let ghost es = entries(*grammar);
    let n = rules_len(&grammar.productions);
    let mut edges: Vec<(String, String)> = Vec::new();
    let mut i: usize = 0;
    while i < n
        invariant
            0 <= i <= n,
            n == es.len(),
            es == entries(*grammar),
            edges_view(edges@) == raw_edges(es.take(i as int)),
        decreases n - i,
    {
        let (lhs, p) = rules_get_index(&grammar.productions, i);
        let names = p.body.nonterminal_names();
        let mut seen = NameSet::new();
        let mut k: usize = 0;
        let ghost base = edges_view(edges@);
        let ghost f = |r: Seq<char>| (lhs@, r);
        while k < names.len()
            invariant
                0 <= k <= names@.len(),
                f == (|r: Seq<char>| (lhs@, r)),
                edges_view(edges@) == base + seen@.map_values(f),
                seen@ == add_all(seq![], names@.map_values(|s: &str| s@).take(k as int)),
            decreases names@.len() - k,
        {
            let ghost sb = seen@;
            let ghost eb = edges@;
            let ghost t = names@.map_values(|s: &str| s@).take(k as int + 1);
            assert(t.drop_last() =~= names@.map_values(|s: &str| s@).take(k as int));
            if seen.insert(names[k]) {
                edges.push((owned(lhs.as_str()), owned(names[k])));
                assert(seen@.map_values(f) =~= sb.map_values(f).push(f(names[k as int]@)));
                assert(edges_view(edges@) =~= edges_view(eb).push((lhs@, names[k as int]@)));
            }
            k += 1;
        }
        proof {
            assert(names@.map_values(|s: &str| s@).take(names@.len() as int) =~= names@.map_values(|s: &str| s@));
            let t = es.take(i as int + 1);
            assert(t.drop_last() =~= es.take(i as int));
            assert(t.last() == es[i as int]);
        }
        i += 1;
    }
    assert(es.take(n as int) =~= es);
    edges
}

/// The names referenced by the edges of `e` and not in `defined`.
pub open spec fn undefined_targets(e: Seq<(Seq<char>, Seq<char>)>, defined: Set<Seq<char>>) -> Set<Seq<char>> {
    Set::new(|x: Seq<char>| !defined.contains(x) && exists|i: int| 0 <= i < e.len() && (#[trigger] e[i]).1 == x)
}

/// The undefined targets of `edges`, and their warnings sorted.
fn compute_undefined(edges: &Vec<(String, String)>, defined: &NameSet) -> (r: (NameSet, Vec<String>))
    ensures
        r.0@.to_set() == undefined_targets(edges_view(edges@), defined@.to_set()),
        strictly_sorted(views(r.1@)),
        views(r.1@).to_set() == r.0@.to_set().map(|x: Seq<char>| undefined_warning(x)),
{
    let ghost e = edges_view(edges@);
    let mut undefined = NameSet::new();
    let mut msgs: Vec<String> = Vec::new();
    let mut i: usize = 0;
    while i < edges.len()
        invariant
            0 <= i <= edges@.len(),
            e == edges_view(edges@),
            forall|x: Seq<char>| undefined@.to_set().contains(x) <==>
                (!defined@.to_set().contains(x) && exists|j: int| 0 <= j < i && (#[trigger] e[j]).1 == x),
            views(msgs@).to_set() == undefined@.to_set().map(|x: Seq<char>| undefined_warning(x)),
        decreases edges@.len() - i,
    {
        let rhs = edges[i].1.as_str();
        assert(e[i as int].1 == rhs@);
        if !defined.contains(rhs) && !undefined.contains(rhs) {
            let ghost ub = undefined@;
            let ghost mb = msgs@;
            undefined.insert(rhs);
            let mut msg = String::from_str("warning: rule '");
            msg.append(rhs);
            msg.append("' referenced but not defined");
            msgs.push(msg);
            proof {
                assert(views(msgs@) =~= views(mb).push(undefined_warning(rhs@)));
                views(mb).lemma_push_to_set_commute(undefined_warning(rhs@));
                let f = |x: Seq<char>| undefined_warning(x);
                let now = undefined@.to_set();
                let old_set = ub.to_set();
                assert(now == old_set.insert(rhs@));
                assert forall|y: Seq<char>| now.map(f).contains(y) <==> old_set.map(f).insert(f(rhs@)).contains(y) by {
                    if now.map(f).contains(y) {
                        let x = choose|x: Seq<char>| now.contains(x) && f(x) == y;
                        if x != rhs@ {
                            assert(old_set.contains(x));
                            assert(old_set.map(f).contains(f(x)));
                        }
                    }
                    if old_set.map(f).contains(y) {
                        let x = choose|x: Seq<char>| old_set.contains(x) && f(x) == y;
                        assert(now.contains(x));
                        assert(now.map(f).contains(f(x)));
                    }
                    if y == f(rhs@) {
                        assert(now.contains(rhs@));
                        assert(now.map(f).contains(f(rhs@)));
                    }
                }
                assert(now.map(f) =~= old_set.map(f).insert(f(rhs@)));
            }
        }
        proof {
            assert forall|x: Seq<char>| undefined@.to_set().contains(x) <==>
                (!defined@.to_set().contains(x) && exists|j: int| 0 <= j < i + 1 && (#[trigger] e[j]).1 == x) by {
                if exists|j: int| 0 <= j < i + 1 && (#[trigger] e[j]).1 == x {
                    let j = choose|j: int| 0 <= j < i + 1 && (#[trigger] e[j]).1 == x;
                    if j < i {
                        assert(exists|j: int| 0 <= j < i && (#[trigger] e[j]).1 == x);
                    }
                }
            }
        }
        i += 1;
    }
    assert(undefined@.to_set() =~= undefined_targets(e, defined@.to_set()));
    let sorted = sorted_unique(&msgs);
    (undefined, sorted)
}

// ── Reachability ─────────────────────────────────────────────────────────

/// `b` is reached from `a` along at most `n` edges of `e`.
pub open spec fn edge_reach(e: Seq<(Seq<char>, Seq<char>)>, a: Seq<char>, b: Seq<char>, n: nat) -> bool
    decreases n,
{
    a == b || (n > 0 && exists|i: int| 0 <= i < e.len() && edge_reach(e, a, (#[trigger] e[i]).0, (n - 1) as nat) && e[i].1 == b)
}

/// Whether `b` is reached from `a` along edges of `e`.
pub open spec fn reaches(e: Seq<(Seq<char>, Seq<char>)>, a: Seq<char>, b: Seq<char>) -> bool {
    exists|n: nat| #[trigger] edge_reach(e, a, b, n)
}

/// A set holding `a` and closed under the edges holds all that `a` reaches.
proof fn lemma_edge_closed(e: Seq<(Seq<char>, Seq<char>)>, r: Set<Seq<char>>, a: Seq<char>, b: Seq<char>, n: nat)
    requires
        r.contains(a),
        forall|i: int| 0 <= i < e.len() && r.contains((#[trigger] e[i]).0) ==> r.contains(e[i].1),
        edge_reach(e, a, b, n),
    ensures
        r.contains(b),
    decreases n,
{
    if a != b {
        let i = choose|i: int| 0 <= i < e.len() && edge_reach(e, a, (#[trigger] e[i]).0, (n - 1) as nat) && e[i].1 == b;
        lemma_edge_closed(e, r, a, e[i].0, (n - 1) as nat);
    }
}

/// The edges of `e` whose source is in `keep`, in order.
pub open spec fn edges_from(e: Seq<(Seq<char>, Seq<char>)>, keep: Set<Seq<char>>) -> Seq<(Seq<char>, Seq<char>)>
    decreases e.len(),
{
    if e.len() == 0 {
        seq![]
    } else {
        edges_from(e.drop_last(), keep) + (if keep.contains(e.last().0) { seq![e.last()] } else { seq![] })
    }
}

/// The edges whose source `start` reaches, and the defined rules it
/// reaches.
fn filter_reachable(edges: Vec<(String, String)>, defined: &NameSet, start: &str) -> (r: (Vec<(String, String)>, NameSet))
    ensures
        edges_view(r.0@) == edges_from(edges_view(edges@), Set::new(|x: Seq<char>| reaches(edges_view(edges@), start@, x))),
        r.1@.to_set() == defined@.to_set().filter(|x: Seq<char>| reaches(edges_view(edges@), start@, x)),
{
    let ghost e = edges_view(edges@);
    let ghost reach = Set::new(|x: Seq<char>| reaches(e, start@, x));
    let ghost u = Set::new(|x: Seq<char>| x == start@ || exists|i: int| 0 <= i < e.len() && (#[trigger] e[i]).1 == x);
    proof {
        let s = e.map_values(|p: (Seq<char>, Seq<char>)| p.1).to_set().insert(start@);
        assert(u =~= s) by {
            assert forall|x: Seq<char>| u.contains(x) implies s.contains(x) by {
                if x != start@ {
                    let i = choose|i: int| 0 <= i < e.len() && (#[trigger] e[i]).1 == x;
                    assert(e.map_values(|p: (Seq<char>, Seq<char>)| p.1)[i] == x);
                }
            }
        }
    }
    let mut reachable = NameSet::new();
    reachable.insert(start);
    proof {
        assert(edge_reach(e, start@, start@, 0));
        assert(reachable@[0] == start@);
        assert forall|x: Seq<char>| reachable@.contains(x) implies u.contains(x) && reaches(e, start@, x) by {
            assert(reachable@ == seq![start@]);
            assert(x == start@);
            assert(edge_reach(e, start@, x, 0));
        }
    }
    let mut head: usize = 0;
    while head < reachable.len()
        invariant
            0 <= head <= reachable@.len(),
            e == edges_view(edges@),
            u == Set::new(|x: Seq<char>| x == start@ || exists|i: int| 0 <= i < e.len() && (#[trigger] e[i]).1 == x),
            u.finite(),
            reachable@.no_duplicates(),
            reachable@.contains(start@),
            forall|x: Seq<char>| reachable@.contains(x) ==> u.contains(x),
            forall|x: Seq<char>| reachable@.contains(x) ==> reaches(e, start@, x),
            forall|k: int, i: int| 0 <= k < head && 0 <= i < e.len() && (#[trigger] e[i]).0 == #[trigger] reachable@[k]
                ==> reachable@.contains(e[i].1),
        decreases u.len() - head,
    {
        proof {
            reachable@.unique_seq_to_set();
            assert(reachable@.to_set().subset_of(u));
            vstd::set_lib::lemma_len_subset(reachable@.to_set(), u);
        }
        let current = owned(reachable.get(head));
        let ghost before = reachable@;
        let mut i: usize = 0;
        while i < edges.len()
            invariant
                0 <= i <= edges@.len(),
                e == edges_view(edges@),
                u == Set::new(|x: Seq<char>| x == start@ || exists|i: int| 0 <= i < e.len() && (#[trigger] e[i]).1 == x),
                current@ == before[head as int],
                head < before.len(),
                reachable@.len() >= before.len(),
                reachable@.take(before.len() as int) == before,
                reachable@.no_duplicates(),
                reachable@.contains(start@),
                forall|x: Seq<char>| reachable@.contains(x) ==> u.contains(x),
                forall|x: Seq<char>| reachable@.contains(x) ==> reaches(e, start@, x),
                forall|j: int| 0 <= j < i && (#[trigger] e[j]).0 == current@ ==> reachable@.contains(e[j].1),
                forall|k: int, j: int| 0 <= k < head && 0 <= j < e.len() && (#[trigger] e[j]).0 == #[trigger] before[k]
                    ==> reachable@.contains(e[j].1),
            decreases edges@.len() - i,
        {
            let ghost mid = reachable@;
            if str_eq(edges[i].0.as_str(), current.as_str()) {
                let target = edges[i].1.as_str();
                assert(e[i as int] == (edges@[i as int].0@, target@));
                proof {
                    assert(before.contains(current@)) by { assert(before[head as int] == current@); }
                    assert(mid.contains(current@)) by { assert(mid[head as int] == current@); }
                    let n = choose|n: nat| #[trigger] edge_reach(e, start@, current@, n);
                    assert(e[i as int].0 == current@);
                    assert(e[i as int].1 == target@);
                    assert(edge_reach(e, start@, target@, (n + 1) as nat));
                    assert(reaches(e, start@, target@));
                    assert(u.contains(target@));
                }
                reachable.insert(target);
                proof {
                    assert(reachable@.take(before.len() as int) =~= before) by {
                        if reachable@ != mid {
                            assert(reachable@.take(before.len() as int) =~= mid.take(before.len() as int));
                        }
                    }
                    assert forall|x: Seq<char>| #[trigger] reachable@.contains(x) implies u.contains(x) && reaches(e, start@, x) by {
                        if x != target@ {
                            let q = choose|q: int| 0 <= q < reachable@.len() && reachable@[q] == x;
                            if q < mid.len() {
                                assert(mid[q] == x);
                                assert(mid.contains(x));
                            } else {
                                assert(reachable@ == mid.push(target@));
                            }
                        }
                    }
                    assert(reachable@.contains(start@)) by {
                        let q = choose|q: int| 0 <= q < mid.len() && mid[q] == start@;
                        assert(reachable@[q] == start@);
                    }
                    assert forall|y: Seq<char>| mid.contains(y) implies reachable@.contains(y) by {
                        let q = choose|q: int| 0 <= q < mid.len() && mid[q] == y;
                        assert(reachable@[q] == y);
                    }
                    assert(reachable@.contains(target@)) by {
                        if !mid.contains(target@) {
                            assert(reachable@[mid.len() as int] == target@);
                        }
                    }
                }
            }
            i += 1;
        }
        proof {
            assert forall|k: int, j: int| 0 <= k < head + 1 && 0 <= j < e.len() && (#[trigger] e[j]).0 == #[trigger] reachable@[k]
                implies reachable@.contains(e[j].1) by {
                assert(reachable@[k] == before[k]);
            }
        }
        head += 1;
    }
    proof {
        assert forall|x: Seq<char>| reach.contains(x) implies reachable@.contains(x) by {
            let n = choose|n: nat| #[trigger] edge_reach(e, start@, x, n);
            let rs = reachable@.to_set();
            assert forall|i: int| 0 <= i < e.len() && rs.contains((#[trigger] e[i]).0) implies rs.contains(e[i].1) by {
                let k = choose|k: int| 0 <= k < reachable@.len() && reachable@[k] == e[i].0;
                assert(e[i].0 == reachable@[k]);
            }
            lemma_edge_closed(e, rs, start@, x, n);
        }
    }
    assert forall|x: Seq<char>| reachable@.contains(x) <==> reaches(e, start@, x) by {
        assert(reach.contains(x) == reaches(e, start@, x));
    }
    let mut out_edges: Vec<(String, String)> = Vec::new();
    let mut j: usize = 0;
    while j < edges.len()
        invariant
            0 <= j <= edges@.len(),
            e == edges_view(edges@),
            reach == Set::new(|x: Seq<char>| reaches(e, start@, x)),
            forall|x: Seq<char>| reachable@.contains(x) <==> reach.contains(x),
            edges_view(out_edges@) == edges_from(e.take(j as int), reach),
        decreases edges@.len() - j,
    {
        let ghost ob = out_edges@;
        proof {
            let t = e.take(j as int + 1);
            assert(t.drop_last() =~= e.take(j as int));
            assert(t.last() == e[j as int]);
        }
        if reachable.contains(edges[j].0.as_str()) {
            out_edges.push((owned(edges[j].0.as_str()), owned(edges[j].1.as_str())));
            assert(edges_view(out_edges@) =~= edges_view(ob).push(e[j as int]));
        }
        j += 1;
    }
    assert(e.take(edges@.len() as int) =~= e);
    let mut kept = NameSet::new();
    let mut k: usize = 0;
    while k < defined.len()
        invariant
            0 <= k <= defined@.len(),
            forall|x: Seq<char>| reachable@.contains(x) <==> reaches(e, start@, x),
            kept@.to_set() == defined@.take(k as int).to_set().filter(|x: Seq<char>| reaches(e, start@, x)),
        decreases defined@.len() - k,
    {
        let name = defined.get(k);
        let ghost kb = kept@;
        proof {
            assert(defined@.take(k as int + 1) =~= defined@.take(k as int).push(name@));
            defined@.take(k as int).lemma_push_to_set_commute(name@);
        }
        if reachable.contains(name) {
            kept.insert(name);
        }
        assert(kept@.to_set() =~= defined@.take(k as int + 1).to_set().filter(|x: Seq<char>| reaches(e, start@, x)));
        k += 1;
    }
    assert(defined@.take(defined@.len() as int) =~= defined@);
    (out_edges, kept)
}

// ── Building the graph ───────────────────────────────────────────────────

/// The names of the rules of `g`.
pub open spec fn defined_names(g: Grammar) -> Set<Seq<char>> {
    Set::new(|k: Seq<char>| has_key(entries(g), k))
}

/// The start rule: `start_rule` when given, else the first rule, else empty.
pub open spec fn graph_start(g: Grammar, start_rule: Option<Seq<char>>) -> Seq<char> {
    match start_rule {
        Some(s) => s,
        None => if entries(g).len() > 0 { entries(g)[0].0@ } else { seq![] },
    }
}

/// The graph of `grammar`: an edge from each rule to each rule its body
/// references, each edge once, in declaration order; the start rule is
/// `start_rule` when given, else the first rule. When `start_rule` is
/// given, only the edges and defined rules it reaches are kept. Beside the
/// graph, the sorted warnings for referenced rules that are not defined.
/// Fails when `start_rule` names no rule.
pub fn build_graph(grammar: &Grammar, start_rule: Option<&str>) -> (r: Result<(GraphData, Vec<String>), String>)
    ensures
        match start_rule {
            Some(s) => !has_key(entries(*grammar), s@) <==> r is Err,
            None => r is Ok,
        },
        r matches Err(e) ==> (start_rule matches Some(s) && e@ == "error: rule '"@ + s@ + "' not found in grammar"@),
        r matches Ok((data, warnings)) ==> {
            let st = graph_start(*grammar, match start_rule { Some(s) => Some(s@), None => None });
            let raw = raw_edges(entries(*grammar));
            let filtered = start_rule is Some && st.len() > 0;
            let reach = Set::new(|x: Seq<char>| reaches(raw, st, x));
            &&& data.start@ == st
            &&& edges_view(data.edges@) == if filtered { edges_from(raw, reach) } else { raw }
            &&& data.defined@.to_set() == if filtered { defined_names(*grammar).filter(|x: Seq<char>| reaches(raw, st, x)) } else { defined_names(*grammar) }
            &&& data.undefined@.to_set() == undefined_targets(edges_view(data.edges@), data.defined@.to_set())
            &&& strictly_sorted(views(warnings@))
            &&& views(warnings@).to_set() == data.undefined@.to_set().map(|x: Seq<char>| undefined_warning(x))
        },
{
    let defined = grammar.known_rules();
    assert(defined@.to_set() =~= defined_names(*grammar));
    let start: String = match start_rule {
        Some(sr) => {
            if !defined.contains(sr) {
                let mut msg = String::from_str("error: rule '");
                msg.append(sr);
                msg.append("' not found in grammar");
                return Err(msg);
            }
            owned(sr)
        },
        None => {
            if rules_len(&grammar.productions) > 0 {
                let (name, _) = rules_get_index(&grammar.productions, 0);
                owned(name.as_str())
            } else {
                String::new()
            }
        },
    };
    let raw = build_raw_edges(grammar);
    let (edges, kept) = if start_rule.is_some() && nonempty(start.as_str()) {
        filter_reachable(raw, &defined, start.as_str())
    } else {
        (raw, defined)
    };
    let (undefined, warnings) = compute_undefined(&edges, &kept);
    Ok((GraphData { edges, start, defined: kept, undefined }, warnings))
}

// ── Text forms ───────────────────────────────────────────────────────────

/// Whether `s` is not empty.
fn nonempty(s: &str) -> (r: bool)
    ensures
        r == (s@.len() > 0),
{
    str_to_chars(s).len() > 0
}

/// The rules named by the edges of `e`, at either end.
pub open spec fn edge_nodes(e: Seq<(Seq<char>, Seq<char>)>) -> Set<Seq<char>> {
    Set::new(|x: Seq<char>| exists|i: int| 0 <= i < e.len() && ((#[trigger] e[i]).0 == x || e[i].1 == x))
}

/// The defined rules of `data` that no edge touches, the start aside.
pub open spec fn isolated_set(data: GraphData) -> Set<Seq<char>> {
    data.defined@.to_set().filter(|x: Seq<char>| x != data.start@ && !edge_nodes(edges_view(data.edges@)).contains(x))
}

/// Whether some edge of `edges` touches `name`.
fn touches(edges: &Vec<(String, String)>, name: &str) -> (r: bool)
    ensures
        r == edge_nodes(edges_view(edges@)).contains(name@),
{
    let ghost e = edges_view(edges@);
    let mut i: usize = 0;
    while i < edges.len()
        invariant
            0 <= i <= edges@.len(),
            e == edges_view(edges@),
            forall|j: int| 0 <= j < i ==> (#[trigger] e[j]).0 != name@ && e[j].1 != name@,
        decreases edges@.len() - i,
    {
        assert(e[i as int] == (edges@[i as int].0@, edges@[i as int].1@));
        if str_eq(edges[i].0.as_str(), name) || str_eq(edges[i].1.as_str(), name) {
            return true;
        }
        i += 1;
    }
    false
}

/// The defined rules of `data` that no edge touches, the start aside, sorted.
fn isolated_nodes(data: &GraphData) -> (r: Vec<String>)
    ensures
        strictly_sorted(views(r@)),
        views(r@).to_set() == isolated_set(*data),
{
    let mut found: Vec<String> = Vec::new();
    let mut k: usize = 0;
    let ghost f = |x: Seq<char>| x != data.start@ && !edge_nodes(edges_view(data.edges@)).contains(x);
    while k < data.defined.len()
        invariant
            0 <= k <= data.defined@.len(),
            f == (|x: Seq<char>| x != data.start@ && !edge_nodes(edges_view(data.edges@)).contains(x)),
            views(found@).to_set() == data.defined@.take(k as int).to_set().filter(f),
        decreases data.defined@.len() - k,
    {
        let name = data.defined.get(k);
        let ghost fb = found@;
        proof {
            assert(data.defined@.take(k as int + 1) =~= data.defined@.take(k as int).push(name@));
            data.defined@.take(k as int).lemma_push_to_set_commute(name@);
        }
        if !str_eq(name, data.start.as_str()) && !touches(&data.edges, name) {
            found.push(owned(name));
            proof {
                assert(views(found@) =~= views(fb).push(name@));
                views(fb).lemma_push_to_set_commute(name@);
            }
        }
        assert(views(found@).to_set() =~= data.defined@.take(k as int + 1).to_set().filter(f));
        k += 1;
    }
    assert(data.defined@.take(data.defined@.len() as int) =~= data.defined@);
    sorted_unique(&found)
}

/// The names of `s`, as strings.
fn names_of(s: &NameSet) -> (r: Vec<String>)
    ensures
        views(r@) == s@,
{
    let mut out: Vec<String> = Vec::new();
    let mut i: usize = 0;
    while i < s.len()
        invariant
            0 <= i <= s@.len(),
            views(out@) == s@.take(i as int),
        decreases s@.len() - i,
    {
        let ghost before = out@;
        out.push(owned(s.get(i)));
        assert(views(out@) =~= views(before).push(s@[i as int]));
        assert(s@.take(i as int + 1) =~= s@.take(i as int).push(s@[i as int]));
        i += 1;
    }
    assert(s@.take(s@.len() as int) =~= s@);
    out
}

/// The lines of the DOT form of a graph with start `start`, sorted
/// undefined rules `undef`, sorted isolated rules `iso` and edges `e`.
pub open spec fn dot_lines(start: Seq<char>, undef: Seq<Seq<char>>, iso: Seq<Seq<char>>, e: Seq<(Seq<char>, Seq<char>)>) -> Seq<Seq<char>> {
    seq!["digraph grammar {"@]
        + (if start.len() > 0 { seq!["  "@ + start + " [shape=doublecircle];"@] } else { seq![] })
        + undef.map_values(|n: Seq<char>| "  "@ + n + " [style=dashed];"@)
        + iso.map_values(|n: Seq<char>| "  "@ + n + ";"@)
        + e.map_values(|p: (Seq<char>, Seq<char>)| "  "@ + p.0 + " -> "@ + p.1 + ";"@)
        + seq!["}"@]
}

/// The lines of the Mermaid form of such a graph.
pub open spec fn mermaid_lines(start: Seq<char>, undef: Seq<Seq<char>>, iso: Seq<Seq<char>>, e: Seq<(Seq<char>, Seq<char>)>) -> Seq<Seq<char>> {
    seq!["graph TD"@]
        + (if start.len() > 0 { seq!["  "@ + start + "([\""@ + start + "  ★\"])"@] } else { seq![] })
        + undef.map_values(|n: Seq<char>| "  "@ + n + "[\""@ + n + " ⚠\"]"@)
        + iso.map_values(|n: Seq<char>| "  "@ + n)
        + (if e.len() > 0 { seq![Seq::<char>::empty()] } else { seq![] })
        + e.map_values(|p: (Seq<char>, Seq<char>)| "  "@ + p.0 + " --> "@ + p.1)
}

/// Appends `line` to `lines`.
fn push_line(lines: &mut Vec<String>, line: String)
    ensures
        views(final(lines)@) == views(old(lines)@).push(line@),
{
    lines.push(line);
    assert(views(lines@) =~= views(old(lines)@).push(line@));
}

/// The DOT form of `data`: the start rule as a double circle, undefined
/// rules dashed, untouched rules alone, then every edge; lines joined by
/// newlines and ended by one.
pub fn emit_dot(data: &GraphData) -> (r: String)
    ensures
        exists|undef: Seq<Seq<char>>, iso: Seq<Seq<char>>|
            strictly_sorted(undef) && undef.to_set() == data.undefined@.to_set()
            && strictly_sorted(iso) && iso.to_set() == isolated_set(*data)
            && #[trigger] r@ == join(dot_lines(data.start@, undef, iso, edges_view(data.edges@)), "\n"@) + "\n"@,
{
    let undef = sorted_unique(&names_of(&data.undefined));
    let iso = isolated_nodes(data);
    let mut lines: Vec<String> = Vec::new();
    push_line(&mut lines, String::from_str("digraph grammar {"));
    if nonempty(data.start.as_str()) {
        let mut l = String::from_str("  ");
        l.append(data.start.as_str());
        l.append(" [shape=doublecircle];");
        push_line(&mut lines, l);
    }
    let ghost a = views(lines@);
    let mut i: usize = 0;
    while i < undef.len()
        invariant
            0 <= i <= undef@.len(),
            views(lines@) == a + views(undef@).take(i as int).map_values(|n: Seq<char>| "  "@ + n + " [style=dashed];"@),
        decreases undef@.len() - i,
    {
        let mut l = String::from_str("  ");
        l.append(undef[i].as_str());
        l.append(" [style=dashed];");
        push_line(&mut lines, l);
        assert(views(undef@).take(i as int + 1).map_values(|n: Seq<char>| "  "@ + n + " [style=dashed];"@)
            =~= views(undef@).take(i as int).map_values(|n: Seq<char>| "  "@ + n + " [style=dashed];"@).push("  "@ + undef@[i as int]@ + " [style=dashed];"@));
        i += 1;
    }
    assert(views(undef@).take(undef@.len() as int) =~= views(undef@));
    let ghost b = views(lines@);
    let mut j: usize = 0;
    while j < iso.len()
        invariant
            0 <= j <= iso@.len(),
            views(lines@) == b + views(iso@).take(j as int).map_values(|n: Seq<char>| "  "@ + n + ";"@),
        decreases iso@.len() - j,
    {
        let mut l = String::from_str("  ");
        l.append(iso[j].as_str());
        l.append(";");
        push_line(&mut lines, l);
        assert(views(iso@).take(j as int + 1).map_values(|n: Seq<char>| "  "@ + n + ";"@)
            =~= views(iso@).take(j as int).map_values(|n: Seq<char>| "  "@ + n + ";"@).push("  "@ + iso@[j as int]@ + ";"@));
        j += 1;
    }
    assert(views(iso@).take(iso@.len() as int) =~= views(iso@));
    let ghost c = views(lines@);
    let ghost e = edges_view(data.edges@);
    let mut k: usize = 0;
    while k < data.edges.len()
        invariant
            0 <= k <= data.edges@.len(),
            e == edges_view(data.edges@),
            views(lines@) == c + e.take(k as int).map_values(|p: (Seq<char>, Seq<char>)| "  "@ + p.0 + " -> "@ + p.1 + ";"@),
        decreases data.edges@.len() - k,
    {
        let mut l = String::from_str("  ");
        l.append(data.edges[k].0.as_str());
        l.append(" -> ");
        l.append(data.edges[k].1.as_str());
        l.append(";");
        push_line(&mut lines, l);
        assert(e[k as int] == (data.edges@[k as int].0@, data.edges@[k as int].1@));
        assert(e.take(k as int + 1).map_values(|p: (Seq<char>, Seq<char>)| "  "@ + p.0 + " -> "@ + p.1 + ";"@)
            =~= e.take(k as int).map_values(|p: (Seq<char>, Seq<char>)| "  "@ + p.0 + " -> "@ + p.1 + ";"@).push("  "@ + e[k as int].0 + " -> "@ + e[k as int].1 + ";"@));
        k += 1;
    }
    assert(e.take(data.edges@.len() as int) =~= e);
    push_line(&mut lines, String::from_str("}"));
    assert(views(lines@) =~= dot_lines(data.start@, views(undef@), views(iso@), e));
    let mut out = crate::text::join_strings(&lines, "\n");
    out.append("\n");
    out
}

/// The Mermaid form of `data`: the start rule starred, undefined rules
/// flagged, untouched rules alone, a blank line, then every edge; lines
/// joined by newlines and ended by one.
pub fn emit_mermaid(data: &GraphData) -> (r: String)
    ensures
        exists|undef: Seq<Seq<char>>, iso: Seq<Seq<char>>|
            strictly_sorted(undef) && undef.to_set() == data.undefined@.to_set()
            && strictly_sorted(iso) && iso.to_set() == isolated_set(*data)
            && #[trigger] r@ == join(mermaid_lines(data.start@, undef, iso, edges_view(data.edges@)), "\n"@) + "\n"@,
{
    let undef = sorted_unique(&names_of(&data.undefined));
    let iso = isolated_nodes(data);
    let mut lines: Vec<String> = Vec::new();
    push_line(&mut lines, String::from_str("graph TD"));
    if nonempty(data.start.as_str()) {
        let mut l = String::from_str("  ");
        l.append(data.start.as_str());
        l.append("([\"");
        l.append(data.start.as_str());
        l.append("  ★\"])");
        push_line(&mut lines, l);
    }
    let ghost a = views(lines@);
    let mut i: usize = 0;
    while i < undef.len()
        invariant
            0 <= i <= undef@.len(),
            views(lines@) == a + views(undef@).take(i as int).map_values(|n: Seq<char>| "  "@ + n + "[\""@ + n + " ⚠\"]"@),
        decreases undef@.len() - i,
    {
        let mut l = String::from_str("  ");
        l.append(undef[i].as_str());
        l.append("[\"");
        l.append(undef[i].as_str());
        l.append(" ⚠\"]");
        push_line(&mut lines, l);
        assert(views(undef@).take(i as int + 1).map_values(|n: Seq<char>| "  "@ + n + "[\""@ + n + " ⚠\"]"@)
            =~= views(undef@).take(i as int).map_values(|n: Seq<char>| "  "@ + n + "[\""@ + n + " ⚠\"]"@).push("  "@ + undef@[i as int]@ + "[\""@ + undef@[i as int]@ + " ⚠\"]"@));
        i += 1;
    }
    assert(views(undef@).take(undef@.len() as int) =~= views(undef@));
    let ghost b = views(lines@);
    let mut j: usize = 0;
    while j < iso.len()
        invariant
            0 <= j <= iso@.len(),
            views(lines@) == b + views(iso@).take(j as int).map_values(|n: Seq<char>| "  "@ + n),
        decreases iso@.len() - j,
    {
        let mut l = String::from_str("  ");
        l.append(iso[j].as_str());
        push_line(&mut lines, l);
        assert(views(iso@).take(j as int + 1).map_values(|n: Seq<char>| "  "@ + n)
            =~= views(iso@).take(j as int).map_values(|n: Seq<char>| "  "@ + n).push("  "@ + iso@[j as int]@));
        j += 1;
    }
    assert(views(iso@).take(iso@.len() as int) =~= views(iso@));
    if data.edges.len() > 0 {
        push_line(&mut lines, String::new());
    }
    let ghost c = views(lines@);
    let ghost e = edges_view(data.edges@);
    let mut k: usize = 0;
    while k < data.edges.len()
        invariant
            0 <= k <= data.edges@.len(),
            e == edges_view(data.edges@),
            views(lines@) == c + e.take(k as int).map_values(|p: (Seq<char>, Seq<char>)| "  "@ + p.0 + " --> "@ + p.1),
        decreases data.edges@.len() - k,
    {
        let mut l = String::from_str("  ");
        l.append(data.edges[k].0.as_str());
        l.append(" --> ");
        l.append(data.edges[k].1.as_str());
        push_line(&mut lines, l);
        assert(e[k as int] == (data.edges@[k as int].0@, data.edges@[k as int].1@));
        assert(e.take(k as int + 1).map_values(|p: (Seq<char>, Seq<char>)| "  "@ + p.0 + " --> "@ + p.1)
            =~= e.take(k as int).map_values(|p: (Seq<char>, Seq<char>)| "  "@ + p.0 + " --> "@ + p.1).push("  "@ + e[k as int].0 + " --> "@ + e[k as int].1));
        k += 1;
    }
    assert(e.take(data.edges@.len() as int) =~= e);
    assert(views(lines@) =~= mermaid_lines(data.start@, views(undef@), views(iso@), e));
    let mut out = crate::text::join_strings(&lines, "\n");
    out.append("\n");
    out
}

} // verus!
