//! An insertion-ordered set of names, used where the grammar keeps a set
//! of rule names (`rhs_nonterminals`, the set of known rules): an
//! `indexmap::IndexSet`, reached through a small set of trusted wrappers.

use indexmap::IndexSet;
use vstd::prelude::*;
use crate::text::{owned, views};

verus! {

// ── Ordered sets ─────────────────────────────────────────────────────────

/// `d` with the elements of `s` added in order, each unless already there.
pub open spec fn add_all(d: Seq<Seq<char>>, s: Seq<Seq<char>>) -> Seq<Seq<char>>
    decreases s.len(),
{
    if s.len() == 0 {
        d
    } else {
        let r = add_all(d, s.drop_last());
        if r.contains(s.last()) { r } else { r.push(s.last()) }
    }
}

/// Adding a concatenation adds its parts one after the other.
pub proof fn lemma_add_all_concat(d: Seq<Seq<char>>, a: Seq<Seq<char>>, b: Seq<Seq<char>>)
    ensures
        add_all(d, a + b) == add_all(add_all(d, a), b),
    decreases b.len(),
{
    if b.len() == 0 {
        assert(a + b =~= a);
    } else {
        lemma_add_all_concat(d, a, b.drop_last());
        assert((a + b).drop_last() =~= a + b.drop_last());
        assert((a + b).last() == b.last());
    }
}


/// A name is in `add_all(d, s)` exactly when it is in `d` or in `s`.
pub proof fn lemma_add_all_contains(d: Seq<Seq<char>>, s: Seq<Seq<char>>, x: Seq<char>)
    ensures
        add_all(d, s).contains(x) <==> d.contains(x) || s.contains(x),
    decreases s.len(),
{
    if s.len() > 0 {
        let r = add_all(d, s.drop_last());
        lemma_add_all_contains(d, s.drop_last(), x);
        if s.drop_last().contains(x) {
            let k = choose|k: int| 0 <= k < s.drop_last().len() && s.drop_last()[k] == x;
            assert(s[k] == x);
        }
        if s.contains(x) && !s.drop_last().contains(x) {
            let k = choose|k: int| 0 <= k < s.len() && s[k] == x;
            if k < s.len() - 1 {
                assert(s.drop_last()[k] == x);
            }
            assert(x == s.last());
        }
        if !r.contains(s.last()) {
            if r.push(s.last()).contains(x) && !r.contains(x) {
                let k = choose|k: int| 0 <= k < r.push(s.last()).len() && r.push(s.last())[k] == x;
                if k < r.len() {
                    assert(r[k] == x);
                }
            }
            if r.contains(x) {
                let k = choose|k: int| 0 <= k < r.len() && r[k] == x;
                assert(r.push(s.last())[k] == x);
            }
            assert(r.push(s.last())[r.len() as int] == s.last());
        }
    }
}

/// Adding names one by one to a set without repeats gives a set without
/// repeats.
pub proof fn lemma_add_all_distinct(d: Seq<Seq<char>>, s: Seq<Seq<char>>)
    requires
        d.no_duplicates(),
    ensures
        add_all(d, s).no_duplicates(),
    decreases s.len(),
{
    if s.len() > 0 {
        lemma_add_all_distinct(d, s.drop_last());
        let r = add_all(d, s.drop_last());
        if !r.contains(s.last()) {
            let t = r.push(s.last());
            assert forall|i: int, j: int| 0 <= i < t.len() && 0 <= j < t.len() && i != j implies t[i] != t[j] by {
                if i < r.len() && j < r.len() {
                    assert(t[i] == r[i] && t[j] == r[j]);
                } else if i < r.len() {
                    assert(t[i] == r[i]);
                } else {
                    assert(t[j] == r[j]);
                }
            }
        }
    }
}

/// A filter that keeps every element leaves the sequence as it is.
pub proof fn lemma_filter_all(s: Seq<Seq<char>>, pred: spec_fn(Seq<char>) -> bool)
    requires
        forall|i: int| 0 <= i < s.len() ==> pred(s[i]),
    ensures
        s.filter(pred) == s,
    decreases s.len(),
{
    reveal(Seq::filter);
    if s.len() > 0 {
        lemma_filter_all(s.drop_last(), pred);
        assert(s.drop_last().push(s.last()) =~= s);
    } else {
        assert(s.filter(pred) =~= s);
    }
}

/// In a sequence without repeats, dropping the one element `s[i]` is
/// keeping every element other than it.
proof fn lemma_filter_one(s: Seq<Seq<char>>, i: int)
    requires
        s.no_duplicates(),
        0 <= i < s.len(),
    ensures
        s.filter(|x: Seq<char>| x != s[i]) == s.remove(i),
{
    let t = s[i];
    let pred = |x: Seq<char>| x != s[i];
    let a = s.take(i);
    let b = s.skip(i + 1);
    let one = Seq::<Seq<char>>::empty().push(t);
    assert(s =~= a + one + b);
    Seq::filter_distributes_over_add(a + one, b, pred);
    Seq::filter_distributes_over_add(a, one, pred);
    lemma_filter_all(a, pred);
    assert forall|k: int| 0 <= k < b.len() implies pred(b[k]) by {
        assert(b[k] == s[i + 1 + k]);
    }
    lemma_filter_all(b, pred);
    Seq::<Seq<char>>::empty().lemma_filter_push(t, pred);
    lemma_filter_all(Seq::<Seq<char>>::empty(), pred);
    assert(one.filter(pred) =~= Seq::<Seq<char>>::empty());
    assert(s.remove(i) =~= a + b);
}

#[verifier::external_type_specification]
#[verifier::external_body]
#[verifier::reject_recursive_types(T)]
#[verifier::reject_recursive_types(S)]
pub struct ExIndexSet<T, S>(IndexSet<T, S>);

/// The names held by an `IndexSet`, in insertion order.
pub uninterp spec fn set_names(s: IndexSet<String>) -> Seq<String>;

/// An empty set (`IndexSet::new`).
#[verifier::external_body]
fn names_new() -> (s: IndexSet<String>)
    ensures
        set_names(s) == Seq::<String>::empty(),
{
    IndexSet::new()
}

/// The number of names (`IndexSet::len`).
#[verifier::external_body]
fn names_len(s: &IndexSet<String>) -> (n: usize)
    ensures
        n == set_names(*s).len(),
{
    s.len()
}

/// The `i`-th name in insertion order (`IndexSet::get_index`).
#[verifier::external_body]
fn names_get(s: &IndexSet<String>, i: usize) -> (r: &String)
    requires
        i < set_names(*s).len(),
    ensures
        *r == set_names(*s)[i as int],
{
    s.get_index(i).unwrap()
}

/// Whether a name equal to `name` is held (`IndexSet::contains`).
#[verifier::external_body]
fn names_contains(s: &IndexSet<String>, name: &str) -> (b: bool)
    ensures
        b == views(set_names(*s)).contains(name@),
{
    s.contains(name)
}

/// Adds `name` at the end unless an equal name is held, which keeps its
/// place (`IndexSet::insert`); returns whether it was added.
#[verifier::external_body]
fn names_insert(s: &mut IndexSet<String>, name: String) -> (added: bool)
    ensures
        added == !views(set_names(*old(s))).contains(name@),
        set_names(*final(s)) == if added { set_names(*old(s)).push(name) } else { set_names(*old(s)) },
{
    s.insert(name)
}

/// Removes the name equal to `name`, if held, shifting the later names
/// down and keeping their order (`IndexSet::shift_remove`); returns
/// whether one was removed.
#[verifier::external_body]
fn names_shift_remove(s: &mut IndexSet<String>, name: &str) -> (removed: bool)
    ensures
        removed == views(set_names(*old(s))).contains(name@),
        forall|i: int| 0 <= i < set_names(*old(s)).len() && (#[trigger] set_names(*old(s))[i])@ == name@
            ==> set_names(*final(s)) == set_names(*old(s)).remove(i),
        !removed ==> set_names(*final(s)) == set_names(*old(s)),
{
    s.shift_remove(name)
}

/// An insertion-ordered set of names (an `IndexSet`); inserting a name
/// already present changes nothing.
#[derive(Debug)]
pub struct NameSet {
    names: IndexSet<String>,
}

impl View for NameSet {
    type V = Seq<Seq<char>>;

    closed spec fn view(&self) -> Seq<Seq<char>> {
        views(set_names(self.names))
    }
}

impl NameSet {
    /// A set holds each name once.
    #[verifier::type_invariant]
    spec fn distinct(self) -> bool {
        self@.no_duplicates()
    }

    /// An empty set.
    pub fn new() -> (s: Self)
        ensures
            s@ == Seq::<Seq<char>>::empty(),
    {
        let names = names_new();
        assert(views(set_names(names)) =~= Seq::<Seq<char>>::empty());
        NameSet { names }
    }

    /// The number of names in the set.
    pub fn len(&self) -> (n: usize)
        ensures
            n == self@.len(),
    {
        names_len(&self.names)
    }

    /// Whether the set is empty.
    pub fn is_empty(&self) -> (b: bool)
        ensures
            b == (self@.len() == 0),
    {
        names_len(&self.names) == 0
    }

    /// The `i`-th name, in insertion order.
    pub fn get(&self, i: usize) -> (r: &str)
        requires
            i < self@.len(),
        ensures
            r@ == self@[i as int],
    {
        names_get(&self.names, i).as_str()
    }

    /// Whether `name` is in the set.
    pub fn contains(&self, name: &str) -> (b: bool)
        ensures
            b == self@.contains(name@),
    {
        names_contains(&self.names, name)
    }

    /// Adds `name` unless present; returns whether it was added.
    pub fn insert(&mut self, name: &str) -> (added: bool)
        ensures
            added == !old(self)@.contains(name@),
            final(self)@ == if added { old(self)@.push(name@) } else { old(self)@ },
            old(self)@.no_duplicates() ==> final(self)@.no_duplicates(),
            final(self)@.to_set() == old(self)@.to_set().insert(name@),
    {
        proof {
            use_type_invariant(&*self);
        }
        let ghost before = self@;
        let mut names = names_new();
        std::mem::swap(&mut names, &mut self.names);
        let added = names_insert(&mut names, owned(name));
        proof {
            if added {
                assert(views(set_names(names)) =~= before.push(name@));
                before.lemma_push_to_set_commute(name@);
                assert forall|i: int, j: int| 0 <= i < views(set_names(names)).len() && 0 <= j < views(set_names(names)).len() && i != j
                    implies views(set_names(names))[i] != views(set_names(names))[j] by {
                    if i == before.len() as int {
                        assert(views(set_names(names))[j] == before[j]);
                    } else if j == before.len() as int {
                        assert(views(set_names(names))[i] == before[i]);
                    } else {
                        assert(views(set_names(names))[i] == before[i] && views(set_names(names))[j] == before[j]);
                    }
                }
            } else {
                assert(before.to_set().insert(name@) =~= before.to_set());
            }
        }
        self.names = names;
        added
    }

    /// Removes `name`; returns whether it was present.
    pub fn remove(&mut self, name: &str) -> (removed: bool)
        ensures
            removed == old(self)@.contains(name@),
            final(self)@ == old(self)@.filter(|x: Seq<char>| x != name@),
    {
        proof {
            use_type_invariant(&*self);
        }
        let ghost before = self@;
        let ghost raw = set_names(self.names);
        let mut names = names_new();
        std::mem::swap(&mut names, &mut self.names);
        let removed = names_shift_remove(&mut names, name);
        proof {
            if removed {
                let i = choose|i: int| 0 <= i < before.len() && before[i] == name@;
                assert(raw[i]@ == before[i]);
                assert(set_names(names) == raw.remove(i));
                assert(views(set_names(names)) =~= before.remove(i));
                lemma_filter_one(before, i);
                assert((|x: Seq<char>| x != before[i]) == (|x: Seq<char>| x != name@));
            } else {
                assert forall|i: int| 0 <= i < before.len() implies (|x: Seq<char>| x != name@)(before[i]) by {
                    assert(before.contains(before[i]));
                }
                lemma_filter_all(before, |x: Seq<char>| x != name@);
            }
            assert forall|i: int, j: int| 0 <= i < views(set_names(names)).len() && 0 <= j < views(set_names(names)).len() && i != j
                implies views(set_names(names))[i] != views(set_names(names))[j] by {
                if removed {
                    let k = choose|k: int| 0 <= k < before.len() && before[k] == name@;
                    assert(set_names(names) == raw.remove(k));
                    let ii = if i < k { i } else { i + 1 };
                    let jj = if j < k { j } else { j + 1 };
                    assert(views(set_names(names))[i] == before[ii] && views(set_names(names))[j] == before[jj]);
                }
            }
        }
        self.names = names;
        removed
    }

    /// A copy of this set, names in the same order.
    pub fn duplicate(&self) -> (r: Self)
        ensures
            r@ == self@,
    {
        proof {
            use_type_invariant(self);
        }
        let mut r = NameSet::new();
        let mut i: usize = 0;
        while i < self.len()
            invariant
                0 <= i <= self@.len(),
                self@.no_duplicates(),
                r@ == self@.take(i as int),
            decreases self@.len() - i,
        {
            proof {
                if self@.take(i as int).contains(self@[i as int]) {
                    let k = choose|k: int| 0 <= k < i && self@.take(i as int)[k] == self@[i as int];
                    assert(self@[k] == self@[i as int]);
                }
            }
            r.insert(self.get(i));
            assert(r@ =~= self@.take(i as int + 1));
            i += 1;
        }
        assert(self@.take(self@.len() as int) =~= self@);
        r
    }

    /// Adds every name of `other` missing from this set, in `other`'s
    /// order; returns whether any was added.
    pub fn extend(&mut self, other: &NameSet) -> (added: bool)
        ensures
            final(self)@ == add_all(old(self)@, other@),
            final(self)@.to_set() == old(self)@.to_set() + other@.to_set(),
            old(self)@.no_duplicates() ==> final(self)@.no_duplicates(),
            added == !other@.to_set().subset_of(old(self)@.to_set()),
            final(self)@.len() >= old(self)@.len(),
            added ==> final(self)@.len() > old(self)@.len(),
    {
        let mut added = false;
        let mut i: usize = 0;
        while i < other.len()
            invariant
                0 <= i <= other@.len(),
                self@ == add_all(old(self)@, other@.take(i as int)),
                self@.to_set() == old(self)@.to_set() + other@.take(i as int).to_set(),
                old(self)@.no_duplicates() ==> self@.no_duplicates(),
                added == !other@.take(i as int).to_set().subset_of(old(self)@.to_set()),
                self@.len() >= old(self)@.len(),
                added ==> self@.len() > old(self)@.len(),
            decreases other@.len() - i,
        {
            let ghost before = self@;
            let a = self.insert(other.get(i));
            proof {
                let o = other@;
                assert(o.take(i as int + 1) =~= o.take(i as int).push(o[i as int]));
                assert(o.take(i as int + 1).drop_last() =~= o.take(i as int));
                o.take(i as int).lemma_push_to_set_commute(o[i as int]);
                let x = o[i as int];
                if a {
                    before.lemma_push_to_set_commute(x);
                    assert(!before.to_set().contains(x));
                    assert(!old(self)@.to_set().contains(x));
                    assert(o.take(i as int + 1).to_set().contains(x));
                } else {
                    assert(before.to_set().contains(x));
                    assert(before.to_set().insert(x) =~= before.to_set());
                    if !old(self)@.to_set().contains(x) {
                        assert(o.take(i as int).to_set().contains(x));
                    }
                }
                assert(self@.to_set() =~= old(self)@.to_set() + o.take(i as int + 1).to_set());
            }
            if a {
                added = true;
            }
            i += 1;
        }
        assert(other@.take(other@.len() as int) =~= other@);
        added
    }
}

} // verus!
