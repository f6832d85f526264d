//! The merge configuration of the generated syntax-tree types: which kinds
//! collapse into one enum, which are renamed, which are left alone, and
//! the check of such a configuration against a grammar.

use vstd::prelude::*;
use vstd::string::*;
use crate::kinds::{first_clash, first_pos, lemma_first_clash, lemma_first_clash_prefix, lemma_first_pos, visible_kind_list, visible_kinds};
use crate::nameset::NameSet;
use crate::text::{owned, str_eq, views};
use crate::types::Grammar;

verus! {

/// A merge configuration: kinds collapsed into shared enums, kinds renamed,
/// and kinds left as plain structs.
#[derive(Debug)]
pub struct MergeConfig {
    /// Kinds to collapse into one enum, one entry per enum.
    pub merge: Vec<MergeEntry>,
    /// Kinds to emit under another type name.
    pub passthrough: Vec<PassthroughEntry>,
    /// Kinds left as the default struct; may be the single wildcard `*`.
    pub ignore: Vec<String>,
}

/// Several kinds collapsing into one enum named `target`.
#[derive(Debug)]
pub struct MergeEntry {
    /// The enum's type name.
    pub target: String,
    /// The kinds that become its variants.
    pub from: Vec<String>,
}

/// One kind emitted under the type name `target`.
#[derive(Debug)]
pub struct PassthroughEntry {
    /// The kind being renamed.
    pub kind: String,
    /// The type name to emit it under.
    pub target: String,
}

/// Whether `name` parses as exactly one Rust identifier that is not a
/// keyword (what `syn` accepts as an `Ident`).
pub uninterp spec fn rust_ident(name: Seq<char>) -> bool;

/// Whether `name` is a Rust identifier and no keyword, so that it can be
/// used verbatim as a type name (`syn::parse_str::<syn::Ident>`); the
/// result is named [`rust_ident`], a function of `name` alone.
#[verifier::external_body]
fn is_valid_rust_type_name(name: &str) -> (r: bool)
    ensures
        r == rust_ident(name@),
{
    syn::parse_str::<syn::Ident>(name).is_ok()
}

// ── Messages ─────────────────────────────────────────────────────────────

/// A merge entry's target is no Rust identifier.
pub open spec fn bad_merge_target_msg(target: Seq<char>) -> Seq<char> {
    "merge entry's target '"@ + target + "' is not a valid Rust identifier; choose a target that isn't empty, uses only Rust identifier characters, and isn't a Rust keyword"@
}

/// A passthrough entry's target is no Rust identifier.
pub open spec fn bad_passthrough_target_msg(kind: Seq<char>, target: Seq<char>) -> Seq<char> {
    "passthrough entry '"@ + kind + "''s target '"@ + target + "' is not a valid Rust identifier; choose a target that isn't empty, uses only Rust identifier characters, and isn't a Rust keyword"@
}

/// A merge entry names a kind the grammar does not have.
pub open spec fn unknown_merge_kind_msg(target: Seq<char>, kind: Seq<char>) -> Seq<char> {
    "merge target '"@ + target + "' names '"@ + kind + "', which is not a visible kind of this grammar; check for a typo or a kind that no longer exists"@
}

/// A passthrough entry names a kind the grammar does not have.
pub open spec fn unknown_passthrough_kind_msg(kind: Seq<char>) -> Seq<char> {
    "passthrough entry names '"@ + kind + "', which is not a visible kind of this grammar; check for a typo or a kind that no longer exists"@
}

/// `ignore` mixes the wildcard with named kinds.
pub open spec fn mixed_wildcard_msg() -> Seq<char> {
    "ignore mixes the wildcard '*' with named entries; '*' already means \"every kind not otherwise claimed\", so listing specific kinds alongside it is almost certainly a misunderstanding — use '*' alone, or drop it and list kinds explicitly"@
}

/// `ignore` names a kind the grammar does not have.
pub open spec fn unknown_ignore_kind_msg(kind: Seq<char>) -> Seq<char> {
    "ignore entry names '"@ + kind + "', which is not a visible kind of this grammar; check for a typo or a kind that no longer exists"@
}

/// A merge entry lists a kind twice.
pub open spec fn repeated_kind_msg(kind: Seq<char>, target: Seq<char>) -> Seq<char> {
    "kind '"@ + kind + "' is listed twice in merge target '"@ + target + "''s own `from` list"@
}

/// Two entries claim the same kind.
pub open spec fn claimed_twice_msg(kind: Seq<char>, other: Seq<char>, this: Seq<char>) -> Seq<char> {
    "kind '"@ + kind + "' is claimed by more than one entry ("@ + other + " and "@ + this + "); a kind may appear in at most one of merge/passthrough/ignore"@
}

// ── The checks, in the order they run ────────────────────────────────────

/// The first merge entry whose target is no Rust identifier.
pub open spec fn merge_target_error(es: Seq<MergeEntry>) -> Option<Seq<char>>
    decreases es.len(),
{
    if es.len() == 0 {
        None
    } else if !rust_ident(es[0].target@) {
        Some(bad_merge_target_msg(es[0].target@))
    } else {
        merge_target_error(es.drop_first())
    }
}

/// The first passthrough entry whose target is no Rust identifier.
pub open spec fn passthrough_target_error(es: Seq<PassthroughEntry>) -> Option<Seq<char>>
    decreases es.len(),
{
    if es.len() == 0 {
        None
    } else if !rust_ident(es[0].target@) {
        Some(bad_passthrough_target_msg(es[0].kind@, es[0].target@))
    } else {
        passthrough_target_error(es.drop_first())
    }
}

/// The first kind of `from` that is not in `visible`.
pub open spec fn first_unknown(from: Seq<Seq<char>>, visible: Seq<Seq<char>>) -> Option<Seq<char>>
    decreases from.len(),
{
    if from.len() == 0 {
        None
    } else if !visible.contains(from[0]) {
        Some(from[0])
    } else {
        first_unknown(from.drop_first(), visible)
    }
}

/// The first merge entry naming a kind that is not visible.
pub open spec fn merge_kind_error(es: Seq<MergeEntry>, visible: Seq<Seq<char>>) -> Option<Seq<char>>
    decreases es.len(),
{
    if es.len() == 0 {
        None
    } else {
        match first_unknown(views(es[0].from@), visible) {
            Some(k) => Some(unknown_merge_kind_msg(es[0].target@, k)),
            None => merge_kind_error(es.drop_first(), visible),
        }
    }
}

/// The first passthrough entry naming a kind that is not visible.
pub open spec fn passthrough_kind_error(es: Seq<PassthroughEntry>, visible: Seq<Seq<char>>) -> Option<Seq<char>>
    decreases es.len(),
{
    if es.len() == 0 {
        None
    } else if !visible.contains(es[0].kind@) {
        Some(unknown_passthrough_kind_msg(es[0].kind@))
    } else {
        passthrough_kind_error(es.drop_first(), visible)
    }
}

/// The first ignored kind, other than the wildcard, that is not visible.
pub open spec fn ignore_kind_error(ks: Seq<Seq<char>>, visible: Seq<Seq<char>>) -> Option<Seq<char>>
    decreases ks.len(),
{
    if ks.len() == 0 {
        None
    } else if ks[0] != "*"@ && !visible.contains(ks[0]) {
        Some(unknown_ignore_kind_msg(ks[0]))
    } else {
        ignore_kind_error(ks.drop_first(), visible)
    }
}

/// The first merge entry listing a kind twice, with the first repeated kind.
pub open spec fn repeated_kind_error(es: Seq<MergeEntry>) -> Option<Seq<char>>
    decreases es.len(),
{
    if es.len() == 0 {
        None
    } else {
        match first_clash(views(es[0].from@)) {
            Some((_, j)) => Some(repeated_kind_msg(views(es[0].from@)[j], es[0].target@)),
            None => repeated_kind_error(es.drop_first()),
        }
    }
}

/// The claims of the merge entries: each kind with its entry's label.
pub open spec fn merge_claims(es: Seq<MergeEntry>) -> Seq<(Seq<char>, Seq<char>)>
    decreases es.len(),
{
    if es.len() == 0 {
        seq![]
    } else {
        merge_claims(es.drop_last())
            + views(es.last().from@).map_values(|k: Seq<char>| ("merge target '"@ + es.last().target@ + "'"@, k))
    }
}

/// The claims of the passthrough entries.
pub open spec fn passthrough_claims(es: Seq<PassthroughEntry>) -> Seq<(Seq<char>, Seq<char>)> {
    es.map_values(|e: PassthroughEntry| ("passthrough entry '"@ + e.kind@ + "'"@, e.kind@))
}

/// The claims of the ignored kinds, the wildcard aside.
pub open spec fn ignore_claims(ks: Seq<Seq<char>>) -> Seq<(Seq<char>, Seq<char>)>
    decreases ks.len(),
{
    if ks.len() == 0 {
        seq![]
    } else {
        ignore_claims(ks.drop_last()) + (if ks.last() == "*"@ { seq![] } else { seq![("ignore"@, ks.last())] })
    }
}

/// Every claim of `c`: merge entries, then passthrough entries, then
/// ignored kinds.
pub open spec fn all_claims(c: MergeConfig) -> Seq<(Seq<char>, Seq<char>)> {
    merge_claims(c.merge@) + passthrough_claims(c.passthrough@) + ignore_claims(views(c.ignore@))
}

/// The claimed kinds, in order.
pub open spec fn claim_kinds(cs: Seq<(Seq<char>, Seq<char>)>) -> Seq<Seq<char>> {
    cs.map_values(|c: (Seq<char>, Seq<char>)| c.1)
}

/// The first error of `c` checked against the visible kinds `visible`, in
/// the order the checks run; nothing for a valid configuration.
pub open spec fn merge_config_error(c: MergeConfig, visible: Seq<Seq<char>>) -> Option<Seq<char>> {
    if merge_target_error(c.merge@) is Some {
        merge_target_error(c.merge@)
    } else if passthrough_target_error(c.passthrough@) is Some {
        passthrough_target_error(c.passthrough@)
    } else if merge_kind_error(c.merge@, visible) is Some {
        merge_kind_error(c.merge@, visible)
    } else if passthrough_kind_error(c.passthrough@, visible) is Some {
        passthrough_kind_error(c.passthrough@, visible)
    } else if views(c.ignore@).contains("*"@) && c.ignore@.len() > 1 {
        Some(mixed_wildcard_msg())
    } else if ignore_kind_error(views(c.ignore@), visible) is Some {
        ignore_kind_error(views(c.ignore@), visible)
    } else if repeated_kind_error(c.merge@) is Some {
        repeated_kind_error(c.merge@)
    } else {
        match first_clash(claim_kinds(all_claims(c))) {
            Some((i, j)) => Some(claimed_twice_msg(all_claims(c)[j].1, all_claims(c)[i].0, all_claims(c)[j].0)),
            None => None,
        }
    }
}

// ── When a configuration is valid ────────────────────────────────────────

/// The kinds of the `from` lists of `es`, one entry after another.
pub open spec fn merged_kinds(es: Seq<MergeEntry>) -> Seq<Seq<char>>
    decreases es.len(),
{
    if es.len() == 0 {
        seq![]
    } else {
        merged_kinds(es.drop_last()) + views(es.last().from@)
    }
}

/// Every kind that `c` names, in order and with repeats: the `from` kinds
/// of the merge entries, the passthrough kinds, then the ignored kinds
/// other than the wildcard.
pub open spec fn claimed_kinds(c: MergeConfig) -> Seq<Seq<char>> {
    merged_kinds(c.merge@) + c.passthrough@.map_values(|e: PassthroughEntry| e.kind@)
        + views(c.ignore@).filter(|k: Seq<char>| k != "*"@)
}

/// What a valid configuration is, against the visible kinds `visible`:
/// every merge and passthrough target is a Rust identifier and no keyword;
/// every kind named by a merge entry, a passthrough entry or `ignore` (the
/// wildcard aside) is visible; the wildcard stands alone; and no kind is
/// claimed twice, within one merge entry or across entries.
pub open spec fn merge_config_valid(c: MergeConfig, visible: Seq<Seq<char>>) -> bool {
    &&& forall|i: int| 0 <= i < c.merge@.len() ==> rust_ident(#[trigger] c.merge@[i].target@)
    &&& forall|i: int| 0 <= i < c.passthrough@.len() ==> rust_ident(#[trigger] c.passthrough@[i].target@)
    &&& forall|i: int, j: int| 0 <= i < c.merge@.len() && 0 <= j < c.merge@[i].from@.len()
            ==> visible.contains(#[trigger] c.merge@[i].from@[j]@)
    &&& forall|i: int| 0 <= i < c.passthrough@.len() ==> visible.contains(#[trigger] c.passthrough@[i].kind@)
    &&& forall|i: int| 0 <= i < c.ignore@.len() && c.ignore@[i]@ != "*"@
            ==> visible.contains(#[trigger] c.ignore@[i]@)
    &&& views(c.ignore@).contains("*"@) ==> c.ignore@.len() == 1
    &&& claimed_kinds(c).no_duplicates()
}

proof fn lemma_merge_target_ok(es: Seq<MergeEntry>)
    ensures
        merge_target_error(es) is None <==> forall|i: int| 0 <= i < es.len() ==> rust_ident(#[trigger] es[i].target@),
    decreases es.len(),
{
    if es.len() > 0 {
        lemma_merge_target_ok(es.drop_first());
        assert forall|i: int| 0 < i < es.len() implies #[trigger] es[i] == es.drop_first()[i - 1] by {}
    }
}

proof fn lemma_passthrough_target_ok(es: Seq<PassthroughEntry>)
    ensures
        passthrough_target_error(es) is None <==> forall|i: int| 0 <= i < es.len() ==> rust_ident(#[trigger] es[i].target@),
    decreases es.len(),
{
    if es.len() > 0 {
        lemma_passthrough_target_ok(es.drop_first());
        assert forall|i: int| 0 < i < es.len() implies #[trigger] es[i] == es.drop_first()[i - 1] by {}
    }
}

proof fn lemma_first_unknown_ok(from: Seq<Seq<char>>, visible: Seq<Seq<char>>)
    ensures
        first_unknown(from, visible) is None <==> forall|j: int| 0 <= j < from.len() ==> visible.contains(#[trigger] from[j]),
    decreases from.len(),
{
    if from.len() > 0 {
        lemma_first_unknown_ok(from.drop_first(), visible);
        assert forall|j: int| 0 < j < from.len() implies #[trigger] from[j] == from.drop_first()[j - 1] by {}
    }
}

proof fn lemma_merge_kind_ok(es: Seq<MergeEntry>, visible: Seq<Seq<char>>)
    ensures
        merge_kind_error(es, visible) is None <==> forall|i: int, j: int|
            0 <= i < es.len() && 0 <= j < es[i].from@.len() ==> visible.contains(#[trigger] es[i].from@[j]@),
    decreases es.len(),
{
    if es.len() > 0 {
        lemma_merge_kind_ok(es.drop_first(), visible);
        lemma_first_unknown_ok(views(es[0].from@), visible);
        assert forall|i: int| 0 < i < es.len() implies #[trigger] es[i] == es.drop_first()[i - 1] by {}
        assert forall|j: int| 0 <= j < es[0].from@.len() implies #[trigger] views(es[0].from@)[j] == es[0].from@[j]@ by {}
        if merge_kind_error(es, visible) is None {
            assert forall|i: int, j: int| 0 <= i < es.len() && 0 <= j < es[i].from@.len()
                implies visible.contains(#[trigger] es[i].from@[j]@) by {
                if i == 0 {
                    assert(views(es[0].from@)[j] == es[0].from@[j]@);
                } else {
                    assert(es[i] == es.drop_first()[i - 1]);
                }
            }
        }
        if forall|i: int, j: int| 0 <= i < es.len() && 0 <= j < es[i].from@.len() ==> visible.contains(#[trigger] es[i].from@[j]@) {
            assert forall|j: int| 0 <= j < views(es[0].from@).len() implies visible.contains(#[trigger] views(es[0].from@)[j]) by {
                assert(visible.contains(es[0].from@[j]@));
            }
            assert forall|i: int, j: int| 0 <= i < es.drop_first().len() && 0 <= j < es.drop_first()[i].from@.len()
                implies visible.contains(#[trigger] es.drop_first()[i].from@[j]@) by {
                assert(es.drop_first()[i] == es[i + 1]);
                assert(visible.contains(es[i + 1].from@[j]@));
            }
        }
    }
}

proof fn lemma_passthrough_kind_ok(es: Seq<PassthroughEntry>, visible: Seq<Seq<char>>)
    ensures
        passthrough_kind_error(es, visible) is None <==> forall|i: int| 0 <= i < es.len() ==> visible.contains(#[trigger] es[i].kind@),
    decreases es.len(),
{
    if es.len() > 0 {
        lemma_passthrough_kind_ok(es.drop_first(), visible);
        assert forall|i: int| 0 < i < es.len() implies #[trigger] es[i] == es.drop_first()[i - 1] by {}
    }
}

proof fn lemma_ignore_kind_ok(ks: Seq<Seq<char>>, visible: Seq<Seq<char>>)
    ensures
        ignore_kind_error(ks, visible) is None <==> forall|i: int| 0 <= i < ks.len() && ks[i] != "*"@ ==> visible.contains(#[trigger] ks[i]),
    decreases ks.len(),
{
    if ks.len() > 0 {
        lemma_ignore_kind_ok(ks.drop_first(), visible);
        assert forall|i: int| 0 < i < ks.len() implies #[trigger] ks[i] == ks.drop_first()[i - 1] by {}
    }
}

proof fn lemma_repeated_kind_ok(es: Seq<MergeEntry>)
    ensures
        repeated_kind_error(es) is None <==> forall|i: int| 0 <= i < es.len() ==> (#[trigger] views(es[i].from@)).no_duplicates(),
    decreases es.len(),
{
    if es.len() > 0 {
        lemma_repeated_kind_ok(es.drop_first());
        lemma_first_clash(views(es[0].from@));
        assert forall|i: int| 0 < i < es.len() implies #[trigger] es[i] == es.drop_first()[i - 1] by {}
    }
}

/// Both parts of a sequence without repeats are without repeats.
proof fn lemma_no_duplicates_parts(a: Seq<Seq<char>>, b: Seq<Seq<char>>)
    requires
        (a + b).no_duplicates(),
    ensures
        a.no_duplicates(),
        b.no_duplicates(),
{
    assert forall|i: int, j: int| 0 <= i < a.len() && 0 <= j < a.len() && i != j implies a[i] != a[j] by {
        assert((a + b)[i] == a[i] && (a + b)[j] == a[j]);
    }
    assert forall|i: int, j: int| 0 <= i < b.len() && 0 <= j < b.len() && i != j implies b[i] != b[j] by {
        assert((a + b)[a.len() + i] == b[i] && (a + b)[a.len() + j] == b[j]);
    }
}

/// The kinds claimed by the merge entries are those of each entry's
/// `from` list, one entry after another.
proof fn lemma_merge_claim_kinds(es: Seq<MergeEntry>)
    requires
        es.len() > 0,
    ensures
        claim_kinds(merge_claims(es)) == claim_kinds(merge_claims(es.drop_last())) + views(es.last().from@),
{
    let label = "merge target '"@ + es.last().target@ + "'"@;
    let tail = views(es.last().from@).map_values(|k: Seq<char>| (label, k));
    assert(claim_kinds(merge_claims(es.drop_last()) + tail) =~= claim_kinds(merge_claims(es.drop_last())) + claim_kinds(tail));
    assert(claim_kinds(tail) =~= views(es.last().from@));
}

/// Where the merge claims repeat no kind, no entry's `from` list does.
proof fn lemma_merge_claims_distinct(es: Seq<MergeEntry>)
    requires
        claim_kinds(merge_claims(es)).no_duplicates(),
    ensures
        forall|i: int| 0 <= i < es.len() ==> (#[trigger] views(es[i].from@)).no_duplicates(),
    decreases es.len(),
{
    if es.len() > 0 {
        lemma_merge_claim_kinds(es);
        lemma_no_duplicates_parts(claim_kinds(merge_claims(es.drop_last())), views(es.last().from@));
        lemma_merge_claims_distinct(es.drop_last());
        assert forall|i: int| 0 <= i < es.len() implies (#[trigger] views(es[i].from@)).no_duplicates() by {
            if i < es.len() - 1 {
                assert(es[i] == es.drop_last()[i]);
            }
        }
    }
}

/// The kinds claimed by the merge entries are their `from` kinds.
proof fn lemma_merge_claims_kinds(es: Seq<MergeEntry>)
    ensures
        claim_kinds(merge_claims(es)) == merged_kinds(es),
    decreases es.len(),
{
    if es.len() == 0 {
        assert(claim_kinds(merge_claims(es)) =~= Seq::<Seq<char>>::empty());
    } else {
        lemma_merge_claims_kinds(es.drop_last());
        lemma_merge_claim_kinds(es);
    }
}

/// The kinds claimed by `ignore` are its entries other than the wildcard.
proof fn lemma_ignore_claims_kinds(ks: Seq<Seq<char>>)
    ensures
        claim_kinds(ignore_claims(ks)) == ks.filter(|k: Seq<char>| k != "*"@),
    decreases ks.len(),
{
    reveal(Seq::filter);
    if ks.len() == 0 {
        assert(claim_kinds(ignore_claims(ks)) =~= Seq::<Seq<char>>::empty());
    } else {
        lemma_ignore_claims_kinds(ks.drop_last());
        let d = ignore_claims(ks.drop_last());
        let t: Seq<(Seq<char>, Seq<char>)> = if ks.last() == "*"@ { seq![] } else { seq![("ignore"@, ks.last())] };
        assert(claim_kinds(d + t) =~= claim_kinds(d) + claim_kinds(t));
        if ks.last() == "*"@ {
            assert(claim_kinds(t) =~= Seq::<Seq<char>>::empty());
        } else {
            assert(claim_kinds(t) =~= seq![ks.last()]);
        }
    }
}

/// Every claim of `c` is one of the kinds it names, in the same order.
pub proof fn lemma_claimed_kinds(c: MergeConfig)
    ensures
        claim_kinds(all_claims(c)) == claimed_kinds(c),
{
    lemma_merge_claims_kinds(c.merge@);
    lemma_ignore_claims_kinds(views(c.ignore@));
    let mp = merge_claims(c.merge@) + passthrough_claims(c.passthrough@);
    assert(claim_kinds(all_claims(c)) =~= claim_kinds(mp) + claim_kinds(ignore_claims(views(c.ignore@))));
    assert(claim_kinds(mp) =~= claim_kinds(merge_claims(c.merge@)) + claim_kinds(passthrough_claims(c.passthrough@)));
    assert(claim_kinds(passthrough_claims(c.passthrough@)) =~= c.passthrough@.map_values(|e: PassthroughEntry| e.kind@));
}

/// A configuration passes [`check_merge_config`] exactly when it is valid
/// in the sense of [`merge_config_valid`].
pub proof fn lemma_merge_config_ok(c: MergeConfig, visible: Seq<Seq<char>>)
    ensures
        merge_config_error(c, visible) is None <==> merge_config_valid(c, visible),
{
    lemma_merge_target_ok(c.merge@);
    lemma_passthrough_target_ok(c.passthrough@);
    lemma_merge_kind_ok(c.merge@, visible);
    lemma_passthrough_kind_ok(c.passthrough@, visible);
    lemma_ignore_kind_ok(views(c.ignore@), visible);
    lemma_repeated_kind_ok(c.merge@);
    lemma_first_clash(claim_kinds(all_claims(c)));
    lemma_claimed_kinds(c);
    let iv = views(c.ignore@);
    assert((forall|i: int| 0 <= i < iv.len() && iv[i] != "*"@ ==> visible.contains(#[trigger] iv[i]))
        <==> (forall|i: int| 0 <= i < c.ignore@.len() && c.ignore@[i]@ != "*"@ ==> visible.contains(#[trigger] c.ignore@[i]@))) by {
        if forall|i: int| 0 <= i < iv.len() && iv[i] != "*"@ ==> visible.contains(#[trigger] iv[i]) {
            assert forall|i: int| 0 <= i < c.ignore@.len() && c.ignore@[i]@ != "*"@
                implies visible.contains(#[trigger] c.ignore@[i]@) by {
                assert(iv[i] == c.ignore@[i]@);
            }
        }
        if forall|i: int| 0 <= i < c.ignore@.len() && c.ignore@[i]@ != "*"@ ==> visible.contains(#[trigger] c.ignore@[i]@) {
            assert forall|i: int| 0 <= i < iv.len() && iv[i] != "*"@ implies visible.contains(#[trigger] iv[i]) by {
                assert(iv[i] == c.ignore@[i]@);
            }
        }
    }
    if views(c.ignore@).contains("*"@) {
        assert(c.ignore@.len() >= 1);
    }
    let mp = merge_claims(c.merge@) + passthrough_claims(c.passthrough@);
    assert(claim_kinds(all_claims(c)) =~= claim_kinds(mp) + claim_kinds(ignore_claims(iv)));
    assert(claim_kinds(mp) =~= claim_kinds(merge_claims(c.merge@)) + claim_kinds(passthrough_claims(c.passthrough@)));
    if claim_kinds(all_claims(c)).no_duplicates() {
        lemma_no_duplicates_parts(claim_kinds(mp), claim_kinds(ignore_claims(iv)));
        lemma_no_duplicates_parts(claim_kinds(merge_claims(c.merge@)), claim_kinds(passthrough_claims(c.passthrough@)));
        lemma_merge_claims_distinct(c.merge@);
    }
}

// ── Checking ─────────────────────────────────────────────────────────────

/// The view of an optional message.
pub open spec fn msg_view(o: Option<String>) -> Option<Seq<char>> {
    match o {
        Some(m) => Some(m@),
        None => None,
    }
}

/// The first merge entry whose target is no Rust identifier.
fn check_merge_targets(es: &Vec<MergeEntry>) -> (r: Option<String>)
    ensures
        msg_view(r) == merge_target_error(es@),
{
    let mut i: usize = 0;
    assert(es@.skip(0) =~= es@);
    while i < es.len()
        invariant
            0 <= i <= es@.len(),
            merge_target_error(es@) == merge_target_error(es@.skip(i as int)),
        decreases es@.len() - i,
    {
        proof {
            assert(es@.skip(i as int)[0] == es@[i as int]);
            assert(es@.skip(i as int).drop_first() =~= es@.skip(i + 1));
        }
        if !is_valid_rust_type_name(es[i].target.as_str()) {
            let mut msg = String::from_str("merge entry's target '");
            msg.append(es[i].target.as_str());
            msg.append("' is not a valid Rust identifier; choose a target that isn't empty, uses only Rust identifier characters, and isn't a Rust keyword");
            return Some(msg);
        }
        i += 1;
    }
    None
}

/// The first passthrough entry whose target is no Rust identifier.
fn check_passthrough_targets(es: &Vec<PassthroughEntry>) -> (r: Option<String>)
    ensures
        msg_view(r) == passthrough_target_error(es@),
{
    let mut i: usize = 0;
    assert(es@.skip(0) =~= es@);
    while i < es.len()
        invariant
            0 <= i <= es@.len(),
            passthrough_target_error(es@) == passthrough_target_error(es@.skip(i as int)),
        decreases es@.len() - i,
    {
        proof {
            assert(es@.skip(i as int)[0] == es@[i as int]);
            assert(es@.skip(i as int).drop_first() =~= es@.skip(i + 1));
        }
        if !is_valid_rust_type_name(es[i].target.as_str()) {
            let mut msg = String::from_str("passthrough entry '");
            msg.append(es[i].kind.as_str());
            msg.append("''s target '");
            msg.append(es[i].target.as_str());
            msg.append("' is not a valid Rust identifier; choose a target that isn't empty, uses only Rust identifier characters, and isn't a Rust keyword");
            return Some(msg);
        }
        i += 1;
    }
    None
}

/// The first kind of `from` that `visible` lacks.
fn find_unknown(from: &Vec<String>, visible: &NameSet) -> (r: Option<String>)
    ensures
        msg_view(r) == first_unknown(views(from@), visible@),
{
    let ghost v = views(from@);
    let mut i: usize = 0;
    assert(v.skip(0) =~= v);
    while i < from.len()
        invariant
            0 <= i <= from@.len(),
            v == views(from@),
            first_unknown(v, visible@) == first_unknown(v.skip(i as int), visible@),
        decreases from@.len() - i,
    {
        proof {
            assert(v.skip(i as int)[0] == from@[i as int]@);
            assert(v.skip(i as int).drop_first() =~= v.skip(i + 1));
        }
        if !visible.contains(from[i].as_str()) {
            return Some(owned(from[i].as_str()));
        }
        i += 1;
    }
    None
}

/// The first merge entry naming a kind that `visible` lacks.
fn check_merge_kinds(es: &Vec<MergeEntry>, visible: &NameSet) -> (r: Option<String>)
    ensures
        msg_view(r) == merge_kind_error(es@, visible@),
{
    let mut i: usize = 0;
    assert(es@.skip(0) =~= es@);
    while i < es.len()
        invariant
            0 <= i <= es@.len(),
            merge_kind_error(es@, visible@) == merge_kind_error(es@.skip(i as int), visible@),
        decreases es@.len() - i,
    {
        proof {
            assert(es@.skip(i as int)[0] == es@[i as int]);
            assert(es@.skip(i as int).drop_first() =~= es@.skip(i + 1));
        }
        match find_unknown(&es[i].from, visible) {
            Some(kind) => {
                let mut msg = String::from_str("merge target '");
                msg.append(es[i].target.as_str());
                msg.append("' names '");
                msg.append(kind.as_str());
                msg.append("', which is not a visible kind of this grammar; check for a typo or a kind that no longer exists");
                return Some(msg);
            },
            None => {},
        }
        i += 1;
    }
    None
}

/// The first passthrough entry naming a kind that `visible` lacks.
fn check_passthrough_kinds(es: &Vec<PassthroughEntry>, visible: &NameSet) -> (r: Option<String>)
    ensures
        msg_view(r) == passthrough_kind_error(es@, visible@),
{
    let mut i: usize = 0;
    assert(es@.skip(0) =~= es@);
    while i < es.len()
        invariant
            0 <= i <= es@.len(),
            passthrough_kind_error(es@, visible@) == passthrough_kind_error(es@.skip(i as int), visible@),
        decreases es@.len() - i,
    {
        proof {
            assert(es@.skip(i as int)[0] == es@[i as int]);
            assert(es@.skip(i as int).drop_first() =~= es@.skip(i + 1));
        }
        if !visible.contains(es[i].kind.as_str()) {
            let mut msg = String::from_str("passthrough entry names '");
            msg.append(es[i].kind.as_str());
            msg.append("', which is not a visible kind of this grammar; check for a typo or a kind that no longer exists");
            return Some(msg);
        }
        i += 1;
    }
    None
}

/// Whether `ks` holds the wildcard `*`.
fn has_wildcard(ks: &Vec<String>) -> (r: bool)
    ensures
        r == views(ks@).contains("*"@),
{
    let mut i: usize = 0;
    while i < ks.len()
        invariant
            0 <= i <= ks@.len(),
            forall|j: int| 0 <= j < i ==> (#[trigger] ks@[j])@ != "*"@,
        decreases ks@.len() - i,
    {
        if str_eq(ks[i].as_str(), "*") {
            assert(views(ks@)[i as int] == "*"@);
            return true;
        }
        i += 1;
    }
    proof {
        if views(ks@).contains("*"@) {
            let j = choose|j: int| 0 <= j < views(ks@).len() && views(ks@)[j] == "*"@;
            assert(ks@[j]@ == "*"@);
        }
    }
    false
}

/// The first ignored kind, the wildcard aside, that `visible` lacks.
fn check_ignore_kinds(ks: &Vec<String>, visible: &NameSet) -> (r: Option<String>)
    ensures
        msg_view(r) == ignore_kind_error(views(ks@), visible@),
{
    let ghost v = views(ks@);
    let mut i: usize = 0;
    assert(v.skip(0) =~= v);
    while i < ks.len()
        invariant
            0 <= i <= ks@.len(),
            v == views(ks@),
            ignore_kind_error(v, visible@) == ignore_kind_error(v.skip(i as int), visible@),
        decreases ks@.len() - i,
    {
        proof {
            assert(v.skip(i as int)[0] == ks@[i as int]@);
            assert(v.skip(i as int).drop_first() =~= v.skip(i + 1));
        }
        if !str_eq(ks[i].as_str(), "*") && !visible.contains(ks[i].as_str()) {
            let mut msg = String::from_str("ignore entry names '");
            msg.append(ks[i].as_str());
            msg.append("', which is not a visible kind of this grammar; check for a typo or a kind that no longer exists");
            return Some(msg);
        }
        i += 1;
    }
    None
}

/// The first kind of `from` that occurs earlier in `from`.
fn find_repeat(from: &Vec<String>) -> (r: Option<String>)
    ensures
        match first_clash(views(from@)) {
            Some((_, j)) => r matches Some(k) && k@ == views(from@)[j],
            None => r is None,
        },
{
    let ghost v = views(from@);
    let mut seen = NameSet::new();
    let mut k: usize = 0;
    while k < from.len()
        invariant
            0 <= k <= from@.len(),
            v == views(from@),
            seen@ == v.take(k as int),
            first_clash(v.take(k as int)) is None,
        decreases from@.len() - k,
    {
        proof {
            let t = v.take(k as int + 1);
            assert(t.drop_last() =~= v.take(k as int));
            assert(t.last() == v[k as int]);
            lemma_first_pos(v.take(k as int), v[k as int]);
        }
        if !seen.insert(from[k].as_str()) {
            proof { lemma_first_clash_prefix(v, k + 1); }
            return Some(owned(from[k].as_str()));
        }
        assert(seen@ =~= v.take(k as int + 1));
        k += 1;
    }
    assert(v.take(from@.len() as int) =~= v);
    None
}

/// The first merge entry that lists a kind twice.
fn check_repeated_kinds(es: &Vec<MergeEntry>) -> (r: Option<String>)
    ensures
        msg_view(r) == repeated_kind_error(es@),
{
    let mut i: usize = 0;
    assert(es@.skip(0) =~= es@);
    while i < es.len()
        invariant
            0 <= i <= es@.len(),
            repeated_kind_error(es@) == repeated_kind_error(es@.skip(i as int)),
        decreases es@.len() - i,
    {
        proof {
            assert(es@.skip(i as int)[0] == es@[i as int]);
            assert(es@.skip(i as int).drop_first() =~= es@.skip(i + 1));
        }
        match find_repeat(&es[i].from) {
            Some(kind) => {
                let mut msg = String::from_str("kind '");
                msg.append(kind.as_str());
                msg.append("' is listed twice in merge target '");
                msg.append(es[i].target.as_str());
                msg.append("''s own `from` list");
                return Some(msg);
            },
            None => {},
        }
        i += 1;
    }
    None
}

/// The view of a list of (label, kind) claims.
pub open spec fn claims_view(v: Seq<(String, String)>) -> Seq<(Seq<char>, Seq<char>)> {
    v.map_values(|c: (String, String)| (c.0@, c.1@))
}

/// The first claim whose kind was claimed before: the earlier claim's
/// label, this claim's label, and the kind.
pub fn find_first_name_collision(items: &Vec<(String, String)>) -> (r: Option<(String, String, String)>)
    ensures
        match first_clash(claim_kinds(claims_view(items@))) {
            None => r is None,
            Some((i, j)) => r matches Some((o, t, k)) && o@ == claims_view(items@)[i].0
                && t@ == claims_view(items@)[j].0 && k@ == claims_view(items@)[j].1,
        },
{
    let ghost ks = claim_kinds(claims_view(items@));
    let mut j: usize = 0;
    while j < items.len()
        invariant
            0 <= j <= items@.len(),
            ks == claim_kinds(claims_view(items@)),
            first_clash(ks.take(j as int)) is None,
        decreases items@.len() - j,
    {
        let mut i: usize = 0;
        while i < j && !str_eq(items[i].1.as_str(), items[j].1.as_str())
            invariant
                0 <= i <= j < items@.len(),
                ks == claim_kinds(claims_view(items@)),
                forall|k: int| 0 <= k < i ==> ks[k] != ks[j as int],
            decreases j - i,
        {
            i += 1;
        }
        proof {
            let t = ks.take(j as int + 1);
            assert(t.drop_last() =~= ks.take(j as int));
            assert(t.last() == ks[j as int]);
            crate::kinds::lemma_first_pos_at(ks.take(j as int), ks[j as int], i as int);
        }
        if i < j {
            proof {
                lemma_first_clash_prefix(ks, j + 1);
                assert(claims_view(items@)[i as int] == (items@[i as int].0@, items@[i as int].1@));
                assert(claims_view(items@)[j as int] == (items@[j as int].0@, items@[j as int].1@));
            }
            return Some((owned(items[i].0.as_str()), owned(items[j].0.as_str()), owned(items[j].1.as_str())));
        }
        j += 1;
    }
    assert(ks.take(items@.len() as int) =~= ks);
    None
}

/// Every claim of `config`, in order: the kinds of each merge entry, each
/// passthrough kind, then the ignored kinds other than the wildcard.
fn collect_claims(config: &MergeConfig) -> (r: Vec<(String, String)>)
    ensures
        claims_view(r@) == all_claims(*config),
{
    let mut claims: Vec<(String, String)> = Vec::new();
    let mut i: usize = 0;
    while i < config.merge.len()
        invariant
            0 <= i <= config.merge@.len(),
            claims_view(claims@) == merge_claims(config.merge@.take(i as int)),
        decreases config.merge@.len() - i,
    {
        let entry = &config.merge[i];
        let mut label = String::from_str("merge target '");
        label.append(entry.target.as_str());
        label.append("'");
        let ghost base = claims_view(claims@);
        let ghost f = |k: Seq<char>| ("merge target '"@ + entry.target@ + "'"@, k);
        let mut k: usize = 0;
        while k < entry.from.len()
            invariant
                0 <= k <= entry.from@.len(),
                label@ == "merge target '"@ + entry.target@ + "'"@,
                f == (|k: Seq<char>| ("merge target '"@ + entry.target@ + "'"@, k)),
                claims_view(claims@) == base + views(entry.from@).take(k as int).map_values(f),
            decreases entry.from@.len() - k,
        {
            let ghost before = claims@;
            claims.push((owned(label.as_str()), owned(entry.from[k].as_str())));
            assert(views(entry.from@).take(k as int + 1).map_values(f)
                =~= views(entry.from@).take(k as int).map_values(f).push(f(entry.from@[k as int]@)));
            assert(claims_view(claims@) =~= claims_view(before).push(f(entry.from@[k as int]@)));
            k += 1;
        }
        proof {
            let t = config.merge@.take(i as int + 1);
            assert(t.drop_last() =~= config.merge@.take(i as int));
            assert(t.last() == config.merge@[i as int]);
            assert(views(entry.from@).take(entry.from@.len() as int) =~= views(entry.from@));
        }
        i += 1;
    }
    assert(config.merge@.take(config.merge@.len() as int) =~= config.merge@);
    let ghost after_merge = claims_view(claims@);
    let mut j: usize = 0;
    while j < config.passthrough.len()
        invariant
            0 <= j <= config.passthrough@.len(),
            after_merge == merge_claims(config.merge@),
            claims_view(claims@) == after_merge + passthrough_claims(config.passthrough@.take(j as int)),
        decreases config.passthrough@.len() - j,
    {
        let entry = &config.passthrough[j];
        let mut label = String::from_str("passthrough entry '");
        label.append(entry.kind.as_str());
        label.append("'");
        let ghost before = claims@;
        claims.push((label, owned(entry.kind.as_str())));
        assert(passthrough_claims(config.passthrough@.take(j as int + 1))
            =~= passthrough_claims(config.passthrough@.take(j as int)).push(("passthrough entry '"@ + entry.kind@ + "'"@, entry.kind@)));
        assert(claims_view(claims@) =~= claims_view(before).push(("passthrough entry '"@ + entry.kind@ + "'"@, entry.kind@)));
        j += 1;
    }
    assert(config.passthrough@.take(config.passthrough@.len() as int) =~= config.passthrough@);
    let ghost after_pass = claims_view(claims@);
    let ghost iv = views(config.ignore@);
    let mut k: usize = 0;
    while k < config.ignore.len()
        invariant
            0 <= k <= config.ignore@.len(),
            iv == views(config.ignore@),
            after_pass == merge_claims(config.merge@) + passthrough_claims(config.passthrough@),
            claims_view(claims@) == after_pass + ignore_claims(iv.take(k as int)),
        decreases config.ignore@.len() - k,
    {
        let ghost before = claims@;
        proof {
            let t = iv.take(k as int + 1);
            assert(t.drop_last() =~= iv.take(k as int));
            assert(t.last() == config.ignore@[k as int]@);
        }
        if !str_eq(config.ignore[k].as_str(), "*") {
            claims.push((String::from_str("ignore"), owned(config.ignore[k].as_str())));
            assert(claims_view(claims@) =~= claims_view(before).push(("ignore"@, config.ignore@[k as int]@)));
        } else {
            assert(ignore_claims(iv.take(k as int + 1)) =~= ignore_claims(iv.take(k as int)));
        }
        k += 1;
    }
    assert(iv.take(config.ignore@.len() as int) =~= iv);
    claims
}

/// Checks `config` against `grammar`: every merge and passthrough target
/// must be a Rust identifier and no keyword; every kind named by a merge
/// entry, a passthrough entry or `ignore` (the wildcard `*` aside) must be
/// a visible kind of the grammar; the wildcard must stand alone; a merge
/// entry may not list a kind twice; and no kind may be claimed by two
/// entries. The first failure, in that order, is the error.
pub fn check_merge_config(grammar: &Grammar, config: &MergeConfig) -> (r: Result<(), String>)
    ensures
        match merge_config_error(*config, visible_kind_list(*grammar)) {
            None => r is Ok,
            Some(m) => r matches Err(e) && e@ == m,
        },
        r is Ok <==> merge_config_valid(*config, visible_kind_list(*grammar)),
{
    proof {
        lemma_merge_config_ok(*config, visible_kind_list(*grammar));
    }
    match check_merge_targets(&config.merge) {
        Some(e) => return Err(e),
        None => {},
    }
    match check_passthrough_targets(&config.passthrough) {
        Some(e) => return Err(e),
        None => {},
    }
    let visible = visible_kinds(grammar);
    match check_merge_kinds(&config.merge, &visible) {
        Some(e) => return Err(e),
        None => {},
    }
    match check_passthrough_kinds(&config.passthrough, &visible) {
        Some(e) => return Err(e),
        None => {},
    }
    if has_wildcard(&config.ignore) && config.ignore.len() > 1 {
        return Err(String::from_str("ignore mixes the wildcard '*' with named entries; '*' already means \"every kind not otherwise claimed\", so listing specific kinds alongside it is almost certainly a misunderstanding — use '*' alone, or drop it and list kinds explicitly"));
    }
    match check_ignore_kinds(&config.ignore, &visible) {
        Some(e) => return Err(e),
        None => {},
    }
    match check_repeated_kinds(&config.merge) {
        Some(e) => return Err(e),
        None => {},
    }
    let claims = collect_claims(config);
    match find_first_name_collision(&claims) {
        Some((other, this, kind)) => {
            let mut msg = String::from_str("kind '");
            msg.append(kind.as_str());
            msg.append("' is claimed by more than one entry (");
            msg.append(other.as_str());
            msg.append(" and ");
            msg.append(this.as_str());
            msg.append("); a kind may appear in at most one of merge/passthrough/ignore");
            Err(msg)
        },
        None => Ok(()),
    }
}

// ── Coverage ─────────────────────────────────────────────────────────────

/// The kinds of the merge entries of `es`.
pub open spec fn merge_sources(es: Seq<MergeEntry>) -> Set<Seq<char>>
    decreases es.len(),
{
    if es.len() == 0 {
        Set::empty()
    } else {
        merge_sources(es.drop_last()) + views(es.last().from@).to_set()
    }
}

/// The kinds named anywhere in `c`: merge sources, passthrough kinds and
/// ignored kinds.
pub open spec fn covered_kinds(c: MergeConfig) -> Set<Seq<char>> {
    merge_sources(c.merge@) + c.passthrough@.map_values(|e: PassthroughEntry| e.kind@).to_set()
        + views(c.ignore@).to_set()
}

/// The elements of `ks` outside `covered`, in order.
pub open spec fn uncovered_list(ks: Seq<Seq<char>>, covered: Set<Seq<char>>) -> Seq<Seq<char>>
    decreases ks.len(),
{
    if ks.len() == 0 {
        seq![]
    } else {
        uncovered_list(ks.drop_last(), covered) + (if covered.contains(ks.last()) { seq![] } else { seq![ks.last()] })
    }
}

/// Adds every name of `names` to `covered`.
fn insert_all(covered: &mut NameSet, names: &Vec<String>)
    ensures
        final(covered)@.to_set() == old(covered)@.to_set() + views(names@).to_set(),
{
    let mut f: usize = 0;
    while f < names.len()
        invariant
            0 <= f <= names@.len(),
            covered@.to_set() == old(covered)@.to_set() + views(names@).take(f as int).to_set(),
        decreases names@.len() - f,
    {
        covered.insert(names[f].as_str());
        proof {
            let t = views(names@).take(f as int + 1);
            assert(t =~= views(names@).take(f as int).push(names@[f as int]@));
            views(names@).take(f as int).lemma_push_to_set_commute(names@[f as int]@);
            assert(covered@.to_set() =~= old(covered)@.to_set() + t.to_set());
        }
        f += 1;
    }
    assert(views(names@).take(names@.len() as int) =~= views(names@));
}

/// The set of kinds named in `config`, as a name set.
fn covered_set(config: &MergeConfig) -> (r: NameSet)
    ensures
        r@.to_set() == covered_kinds(*config),
{
    let mut covered = NameSet::new();
    assert(covered@.to_set() =~= Set::<Seq<char>>::empty());
    let mut i: usize = 0;
    while i < config.merge.len()
        invariant
            0 <= i <= config.merge@.len(),
            covered@.to_set() == merge_sources(config.merge@.take(i as int)),
        decreases config.merge@.len() - i,
    {
        insert_all(&mut covered, &config.merge[i].from);
        proof {
            let t = config.merge@.take(i as int + 1);
            assert(t.drop_last() =~= config.merge@.take(i as int));
            assert(t.last() == config.merge@[i as int]);
        }
        i += 1;
    }
    assert(config.merge@.take(config.merge@.len() as int) =~= config.merge@);
    let ghost after_merge = covered@.to_set();
    let ghost kinds = config.passthrough@.map_values(|e: PassthroughEntry| e.kind@);
    let mut j: usize = 0;
    while j < config.passthrough.len()
        invariant
            0 <= j <= config.passthrough@.len(),
            after_merge == merge_sources(config.merge@),
            kinds == config.passthrough@.map_values(|e: PassthroughEntry| e.kind@),
            covered@.to_set() == after_merge + kinds.take(j as int).to_set(),
        decreases config.passthrough@.len() - j,
    {
        covered.insert(config.passthrough[j].kind.as_str());
        proof {
            let t = kinds.take(j as int + 1);
            assert(t =~= kinds.take(j as int).push(config.passthrough@[j as int].kind@));
            kinds.take(j as int).lemma_push_to_set_commute(config.passthrough@[j as int].kind@);
            assert(covered@.to_set() =~= after_merge + t.to_set());
        }
        j += 1;
    }
    assert(kinds.take(kinds.len() as int) =~= kinds);
    insert_all(&mut covered, &config.ignore);
    assert(covered@.to_set() =~= covered_kinds(*config));
    covered
}

/// The visible kinds of `grammar` that no entry of `config` names, in the
/// order of the visible kinds; nothing when `ignore` holds the wildcard.
pub fn uncovered_kinds(grammar: &Grammar, config: &MergeConfig) -> (r: Vec<String>)
    ensures
        views(r@) == if views(config.ignore@).contains("*"@) {
            Seq::<Seq<char>>::empty()
        } else {
            uncovered_list(visible_kind_list(*grammar), covered_kinds(*config))
        },
{
    if has_wildcard(&config.ignore) {
        let r: Vec<String> = Vec::new();
        assert(views(r@) =~= Seq::<Seq<char>>::empty());
        return r;
    }
    let covered = covered_set(config);
    let visible = visible_kinds(grammar);
    let ghost vs = visible@;
    let mut out: Vec<String> = Vec::new();
    let mut i: usize = 0;
    while i < visible.len()
        invariant
            0 <= i <= vs.len(),
            vs == visible@,
            vs == visible_kind_list(*grammar),
            covered@.to_set() == covered_kinds(*config),
            views(out@) == uncovered_list(vs.take(i as int), covered_kinds(*config)),
        decreases vs.len() - i,
    {
        let kind = visible.get(i);
        proof {
            let t = vs.take(i as int + 1);
            assert(t.drop_last() =~= vs.take(i as int));
            assert(t.last() == vs[i as int]);
        }
        if !covered.contains(kind) {
            let ghost before = out@;
            out.push(owned(kind));
            assert(views(out@) =~= views(before).push(kind@));
        } else {
            assert(covered@.to_set().contains(kind@));
        }
        i += 1;
    }
    assert(vs.take(vs.len() as int) =~= vs);
    out
}

} // verus!
