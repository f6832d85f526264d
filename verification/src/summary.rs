//! A compact summary of a grammar's shape and analysis results, and its
//! aligned text table.

use vstd::prelude::*;
use vstd::string::*;
use crate::analysis::{count_leaf_rules, count_left_recursive, count_unique_terminals, first_lfp, first_set_stats,
    leaf_count, left_recursive_kind, sizes_max, sizes_min, sizes_sum, tenths_rounded, terms_of_rules, texts_of_kind};
use crate::checks::{undefined_ref_count, unreachable_msgs};
use crate::text::{digit_char, nat_decimal, repeat_char, str_to_chars, u128_to_decimal};
use crate::types::{entries, Grammar};
use crate::rules::rules_len;

verus! {

/// Statistics about FIRST-set sizes across all rules in a grammar.
#[derive(Debug, Clone, Copy, PartialEq, Eq)]
pub struct FirstSetStats {
    /// Smallest FIRST set (number of distinct leading terminals).
    pub min: usize,
    /// Largest FIRST set.
    pub max: usize,
    /// Mean FIRST set size in tenths, rounded half up (`32` for 3.2).
    pub avg_tenths: u128,
}

/// A compact summary of grammar shape and analysis results.
#[derive(Debug, Clone, Copy, PartialEq, Eq)]
pub struct GrammarSummary {
    /// Total number of named productions.
    pub rules: usize,
    /// Productions whose body contains no non-terminal references.
    pub leaf_rules: usize,
    /// Productions never reached from the start symbol.
    pub unreachable_rules: usize,
    /// Unique string literal terminals across all rule bodies.
    pub unique_literals: usize,
    /// Unique regex pattern terminals across all rule bodies.
    pub unique_patterns: usize,
    /// Number of undefined rule references.
    pub undefined_refs: usize,
    /// Rules that are directly left-recursive (`A → A …`).
    pub left_recursive_direct: usize,
    /// Rules that are only mutually left-recursive.
    pub left_recursive_mutual: usize,
    /// FIRST-set statistics, or `None` if the grammar has no productions.
    pub first_sets: Option<FirstSetStats>,
}

impl Grammar {
    /// Builds the summary of this grammar, running every summary analysis
    /// (FIRST sets included).
    pub fn summarise(&self) -> (s: GrammarSummary)
        ensures
            s.rules == entries(*self).len(),
            s.leaf_rules == leaf_count(entries(*self), entries(*self).len() as int),
            s.unreachable_rules == unreachable_msgs(*self, entries(*self)).len(),
            s.unique_literals == texts_of_kind(terms_of_rules(entries(*self), entries(*self).len() as int), true).len(),
            s.unique_patterns == texts_of_kind(terms_of_rules(entries(*self), entries(*self).len() as int), false).len(),
            s.undefined_refs == undefined_ref_count(self.rhs_nonterminals@, entries(*self)),
            s.left_recursive_direct == left_recursive_kind(entries(*self), true).len(),
            s.left_recursive_mutual == left_recursive_kind(entries(*self), false).len(),
            s.first_sets is None <==> entries(*self).len() == 0,
            s.first_sets matches Some(st) ==> {
                &&& st.min == sizes_min(first_lfp(entries(*self)))
                &&& st.max == sizes_max(first_lfp(entries(*self)))
                &&& st.avg_tenths == tenths_rounded(sizes_sum(first_lfp(entries(*self))), entries(*self).len() as int)
            },
    {
        let (unique_literals, unique_patterns) = count_unique_terminals(self);
        let (left_recursive_direct, left_recursive_mutual) = count_left_recursive(self);
        GrammarSummary {
            rules: rules_len(&self.productions),
            leaf_rules: count_leaf_rules(self),
            unreachable_rules: self.count_unreachable_rules(),
            unique_literals,
            unique_patterns,
            undefined_refs: self.count_undefined_refs(),
            left_recursive_direct,
            left_recursive_mutual,
            first_sets: first_set_stats(self),
        }
    }
}

/// `s` padded with spaces on the right to `w` characters.
pub open spec fn pad_right(s: Seq<char>, w: nat) -> Seq<char> {
    if s.len() < w {
        s + repeat_char(' ', (w - s.len()) as nat)
    } else {
        s
    }
}

/// `s` padded with spaces on the left to `w` characters.
pub open spec fn pad_left(s: Seq<char>, w: nat) -> Seq<char> {
    if s.len() < w {
        repeat_char(' ', (w - s.len()) as nat) + s
    } else {
        s
    }
}

/// A number of tenths as a decimal with at most one fractional digit,
/// dropped when zero (`32` is `3.2`, `30` is `3`).
pub open spec fn tenths_text(t: nat) -> Seq<char> {
    if t % 10 == 0 {
        nat_decimal(t / 10)
    } else {
        nat_decimal(t / 10) + "."@ + nat_decimal(t % 10)
    }
}

/// The width of the label column: the longest label.
pub open spec fn label_width() -> nat {
    14
}

/// One table row with a count: label, right-aligned count, optional detail.
pub open spec fn count_row(label: Seq<char>, count: Seq<char>, count_w: nat, detail: Seq<char>) -> Seq<char> {
    if detail.len() == 0 {
        pad_right(label, label_width()) + "  "@ + pad_left(count, count_w)
    } else {
        pad_right(label, label_width()) + "  "@ + pad_left(count, count_w) + "  "@ + detail
    }
}

/// The larger of two lengths.
pub open spec fn max_len(a: nat, b: nat) -> nat {
    if a < b { b } else { a }
}

/// The value of the FIRST sets row.
pub open spec fn first_sets_text(f: Option<FirstSetStats>) -> Seq<char> {
    match f {
        Some(fs) => "min "@ + nat_decimal(fs.min as nat) + "  max "@ + nat_decimal(fs.max as nat) + "  avg "@ + tenths_text(fs.avg_tenths as nat),
        None => "n/a"@,
    }
}

/// The summary as an aligned table, one row per line, without a final newline.
pub open spec fn summary_text(s: GrammarSummary) -> Seq<char> {
    let rules = nat_decimal(s.rules as nat);
    let terminals = nat_decimal((s.unique_literals + s.unique_patterns) as nat);
    let undefined = nat_decimal(s.undefined_refs as nat);
    let left = nat_decimal((s.left_recursive_direct + s.left_recursive_mutual) as nat);
    let count_w = max_len(max_len(rules.len(), terminals.len()), max_len(undefined.len(), left.len()));
    count_row("Rules"@, rules, count_w, "(leaf: "@ + nat_decimal(s.leaf_rules as nat) + ", unreachable: "@ + nat_decimal(s.unreachable_rules as nat) + ")"@)
        + "\n"@ + count_row("Terminals"@, terminals, count_w, "(literals: "@ + nat_decimal(s.unique_literals as nat) + ", patterns: "@ + nat_decimal(s.unique_patterns as nat) + ", unique values)"@)
        + "\n"@ + count_row("Undefined refs"@, undefined, count_w, ""@)
        + "\n"@ + count_row("Left-recursive"@, left, count_w, "(direct: "@ + nat_decimal(s.left_recursive_direct as nat) + ", mutual: "@ + nat_decimal(s.left_recursive_mutual as nat) + ")"@)
        + "\n"@ + pad_right("FIRST sets"@, label_width()) + "  "@ + first_sets_text(s.first_sets)
}

/// `s` padded with spaces on the right to `w` characters.
pub fn padded_right(s: &str, w: usize) -> (r: String)
    ensures
        r@ == pad_right(s@, w as nat),
{
    let n = str_to_chars(s).len();
    let mut out = String::from_str(s);
    if n < w {
        out.append(crate::text::spaces(w - n).as_str());
    }
    out
}

/// `s` padded with spaces on the left to `w` characters.
fn padded_left(s: &str, w: usize) -> (r: String)
    ensures
        r@ == pad_left(s@, w as nat),
{
    let n = str_to_chars(s).len();
    if n < w {
        let mut out = crate::text::spaces(w - n);
        out.append(s);
        out
    } else {
        String::from_str(s)
    }
}

/// The text of a number of tenths.
fn tenths_string(t: u128) -> (r: String)
    ensures
        r@ == tenths_text(t as nat),
{
    let mut out = u128_to_decimal(t / 10);
    if t % 10 != 0 {
        out.append(".");
        out.append(u128_to_decimal(t % 10).as_str());
    }
    out
}

/// One table row with a count.
fn count_row_string(label: &str, count: &str, count_w: usize, detail: &str) -> (r: String)
    requires
        label@.len() <= 14,
    ensures
        r@ == count_row(label@, count@, count_w as nat, detail@),
{
    let mut out = padded_right(label, 14);
    out.append("  ");
    out.append(padded_left(count, count_w).as_str());
    if str_to_chars(detail).len() > 0 {
        out.append("  ");
        out.append(detail);
    }
    out
}

impl GrammarSummary {
    /// The summary as an aligned table: a row each for rules, terminals,
    /// undefined references, left recursion and FIRST sets, without a final
    /// newline.
    pub fn to_text(&self) -> (r: String)
        ensures
            r@ == summary_text(*self),
    {
        let rules = u128_to_decimal(self.rules as u128);
        let terminals = u128_to_decimal(self.unique_literals as u128 + self.unique_patterns as u128);
        let undefined = u128_to_decimal(self.undefined_refs as u128);
        let left = u128_to_decimal(self.left_recursive_direct as u128 + self.left_recursive_mutual as u128);
        let mut count_w = str_to_chars(rules.as_str()).len();
        let tw = str_to_chars(terminals.as_str()).len();
        if count_w < tw {
            count_w = tw;
        }
        let uw = str_to_chars(undefined.as_str()).len();
        let lw = str_to_chars(left.as_str()).len();
        let w2 = if uw < lw { lw } else { uw };
        if count_w < w2 {
            count_w = w2;
        }
        proof {
            reveal_strlit("Rules");
            reveal_strlit("Terminals");
            reveal_strlit("Undefined refs");
            reveal_strlit("Left-recursive");
            reveal_strlit("FIRST sets");
            reveal_strlit("");
        }
        let mut d1 = String::from_str("(leaf: ");
        d1.append(u128_to_decimal(self.leaf_rules as u128).as_str());
        d1.append(", unreachable: ");
        d1.append(u128_to_decimal(self.unreachable_rules as u128).as_str());
        d1.append(")");
        let mut d2 = String::from_str("(literals: ");
        d2.append(u128_to_decimal(self.unique_literals as u128).as_str());
        d2.append(", patterns: ");
        d2.append(u128_to_decimal(self.unique_patterns as u128).as_str());
        d2.append(", unique values)");
        let mut d4 = String::from_str("(direct: ");
        d4.append(u128_to_decimal(self.left_recursive_direct as u128).as_str());
        d4.append(", mutual: ");
        d4.append(u128_to_decimal(self.left_recursive_mutual as u128).as_str());
        d4.append(")");
        let first = match &self.first_sets {
            Some(fs) => {
                let mut v = String::from_str("min ");
                v.append(u128_to_decimal(fs.min as u128).as_str());
                v.append("  max ");
                v.append(u128_to_decimal(fs.max as u128).as_str());
                v.append("  avg ");
                v.append(tenths_string(fs.avg_tenths).as_str());
                v
            },
            None => String::from_str("n/a"),
        };
        let mut out = count_row_string("Rules", rules.as_str(), count_w, d1.as_str());
        out.append("\n");
        out.append(count_row_string("Terminals", terminals.as_str(), count_w, d2.as_str()).as_str());
        out.append("\n");
        out.append(count_row_string("Undefined refs", undefined.as_str(), count_w, "").as_str());
        out.append("\n");
        out.append(count_row_string("Left-recursive", left.as_str(), count_w, d4.as_str()).as_str());
        out.append("\n");
        out.append(padded_right("FIRST sets", 14).as_str());
        out.append("  ");
        out.append(first.as_str());
        out
    }
}


/// A decimal holds no line break.
proof fn lemma_decimal_one_line(n: nat)
    ensures
        !nat_decimal(n).contains('\n'),
    decreases n,
{
    if n >= 10 {
        lemma_decimal_one_line(n / 10);
    }
    let d = nat_decimal(n);
    assert forall|i: int| 0 <= i < d.len() implies d[i] != '\n' by {
        if n < 10 {
            assert(d[i] == digit_char(n));
            assert(digit_char(n) as int == 48 + n);
        } else if i < d.len() - 1 {
            assert(d[i] == nat_decimal(n / 10)[i]);
        } else {
            assert(d[i] == digit_char(n % 10));
            assert(digit_char(n % 10) as int == 48 + n % 10);
        }
    }
}

/// No line break in a text made of spaces.
proof fn lemma_spaces_one_line(k: nat)
    ensures
        !repeat_char(' ', k).contains('\n'),
{
}

/// The rules row of the summary is one line.
proof fn lemma_rules_row_one_line(s: GrammarSummary, count_w: nat)
    ensures
        !count_row("Rules"@, nat_decimal(s.rules as nat), count_w, "(leaf: "@ + nat_decimal(s.leaf_rules as nat)
            + ", unreachable: "@ + nat_decimal(s.unreachable_rules as nat) + ")"@).contains('\n'),
{
    reveal_strlit("Rules");
    reveal_strlit("  ");
    reveal_strlit("(leaf: ");
    reveal_strlit(", unreachable: ");
    reveal_strlit(")");
    let rules = nat_decimal(s.rules as nat);
    lemma_decimal_one_line(s.rules as nat);
    lemma_decimal_one_line(s.leaf_rules as nat);
    lemma_decimal_one_line(s.unreachable_rules as nat);
    let rd = "(leaf: "@ + nat_decimal(s.leaf_rules as nat) + ", unreachable: "@ + nat_decimal(s.unreachable_rules as nat) + ")"@;
    let rules_row = count_row("Rules"@, rules, count_w, rd);
    let rlead: nat = if rules.len() < count_w { (count_w - rules.len()) as nat } else { 0 };
    assert(rules_row =~= "Rules"@ + repeat_char(' ', 9) + "  "@ + repeat_char(' ', rlead) + rules + "  "@ + rd);
    assert forall|i: int| 0 <= i < rules_row.len() implies rules_row[i] != '\n' by {
        let a = "Rules"@ + repeat_char(' ', 9) + "  "@ + repeat_char(' ', rlead);
        let b = "  "@ + "(leaf: "@;
        let c = ", unreachable: "@;
        if i < a.len() {
        } else if i < a.len() + rules.len() {
            assert(rules_row[i] == rules[i - a.len()]);
        } else if i < a.len() + rules.len() + b.len() {
        } else if i < a.len() + rules.len() + b.len() + nat_decimal(s.leaf_rules as nat).len() {
            assert(rules_row[i] == nat_decimal(s.leaf_rules as nat)[i - a.len() - rules.len() - b.len()]);
        } else if i < a.len() + rules.len() + b.len() + nat_decimal(s.leaf_rules as nat).len() + c.len() {
        } else if i < rules_row.len() - 1 {
            assert(rules_row[i] == nat_decimal(s.unreachable_rules as nat)[i - a.len() - rules.len() - b.len() - nat_decimal(s.leaf_rules as nat).len() - c.len()]);
        }
    }
}

/// The terminals row: the label, spaces, the count and its detail.
proof fn lemma_terminals_row(s: GrammarSummary, count_w: nat) -> (gap: nat)
    ensures
        count_row("Terminals"@, nat_decimal((s.unique_literals + s.unique_patterns) as nat), count_w,
            "(literals: "@ + nat_decimal(s.unique_literals as nat) + ", patterns: "@ + nat_decimal(s.unique_patterns as nat) + ", unique values)"@)
            == "Terminals"@ + repeat_char(' ', gap) + nat_decimal((s.unique_literals + s.unique_patterns) as nat)
            + "  (literals: "@ + nat_decimal(s.unique_literals as nat) + ", patterns: "@ + nat_decimal(s.unique_patterns as nat)
            + ", unique values)"@,
        gap >= 7,
{
    reveal_strlit("Terminals");
    reveal_strlit("  ");
    reveal_strlit("(literals: ");
    reveal_strlit("  (literals: ");
    let terminals = nat_decimal((s.unique_literals + s.unique_patterns) as nat);
    let detail = "(literals: "@ + nat_decimal(s.unique_literals as nat) + ", patterns: "@ + nat_decimal(s.unique_patterns as nat) + ", unique values)"@;
    let lead: nat = if terminals.len() < count_w { (count_w - terminals.len()) as nat } else { 0 };
    let gap: nat = 5 + 2 + lead;
    assert(pad_right("Terminals"@, label_width()) =~= "Terminals"@ + repeat_char(' ', 5));
    assert(pad_left(terminals, count_w) =~= repeat_char(' ', lead) + terminals);
    assert(repeat_char(' ', 5) + "  "@ + repeat_char(' ', lead) =~= repeat_char(' ', gap));
    assert("  (literals: "@ =~= "  "@ + "(literals: "@);
    assert(count_row("Terminals"@, terminals, count_w, detail)
        =~= "Terminals"@ + repeat_char(' ', gap) + terminals + "  (literals: "@ + nat_decimal(s.unique_literals as nat)
            + ", patterns: "@ + nat_decimal(s.unique_patterns as nat) + ", unique values)"@);
    gap
}

/// The second row of the summary is the terminals row: its count is the
/// total of unique literals and unique patterns, each shown beside it.
#[verifier::rlimit(60)]
pub proof fn lemma_summary_terminals(s: GrammarSummary) -> (parts: (Seq<char>, nat, Seq<char>))
    ensures
        summary_text(s) == parts.0 + "\n"@ + "Terminals"@ + repeat_char(' ', parts.1)
            + nat_decimal((s.unique_literals + s.unique_patterns) as nat)
            + "  (literals: "@ + nat_decimal(s.unique_literals as nat)
            + ", patterns: "@ + nat_decimal(s.unique_patterns as nat) + ", unique values)"@
            + "\n"@ + parts.2,
        !parts.0.contains('\n'),
        parts.1 >= 7,
{
    let rules = nat_decimal(s.rules as nat);
    let terminals = nat_decimal((s.unique_literals + s.unique_patterns) as nat);
    let undefined = nat_decimal(s.undefined_refs as nat);
    let left = nat_decimal((s.left_recursive_direct + s.left_recursive_mutual) as nat);
    let count_w = max_len(max_len(rules.len(), terminals.len()), max_len(undefined.len(), left.len()));
    let rules_row = count_row("Rules"@, rules, count_w, "(leaf: "@ + nat_decimal(s.leaf_rules as nat) + ", unreachable: "@ + nat_decimal(s.unreachable_rules as nat) + ")"@);
    let row2 = count_row("Terminals"@, terminals, count_w, "(literals: "@ + nat_decimal(s.unique_literals as nat) + ", patterns: "@ + nat_decimal(s.unique_patterns as nat) + ", unique values)"@);
    let rest = count_row("Undefined refs"@, undefined, count_w, ""@)
        + "\n"@ + count_row("Left-recursive"@, left, count_w, "(direct: "@ + nat_decimal(s.left_recursive_direct as nat) + ", mutual: "@ + nat_decimal(s.left_recursive_mutual as nat) + ")"@)
        + "\n"@ + pad_right("FIRST sets"@, label_width()) + "  "@ + first_sets_text(s.first_sets);
    lemma_rules_row_one_line(s, count_w);
    let gap = lemma_terminals_row(s, count_w);
    assert(summary_text(s) =~= rules_row + "\n"@ + row2 + "\n"@ + rest);
    let body = "Terminals"@ + repeat_char(' ', gap) + terminals + "  (literals: "@ + nat_decimal(s.unique_literals as nat)
        + ", patterns: "@ + nat_decimal(s.unique_patterns as nat) + ", unique values)"@;
    assert(row2 == body);
    assert(summary_text(s) =~= rules_row + "\n"@ + body + "\n"@ + rest);
    (rules_row, gap, rest)
}


/// A table row: the label, at least two spaces, the count, then the
/// detail after two spaces when there is one.
proof fn lemma_row_shape(label: Seq<char>, count: Seq<char>, count_w: nat, detail: Seq<char>) -> (gap: nat)
    requires
        label.len() <= 14,
    ensures
        gap >= 2,
        count_row(label, count, count_w, detail) == if detail.len() == 0 {
            label + repeat_char(' ', gap) + count
        } else {
            label + repeat_char(' ', gap) + count + "  "@ + detail
        },
{
    reveal_strlit("  ");
    let lead: nat = if count.len() < count_w { (count_w - count.len()) as nat } else { 0 };
    let gap: nat = (14 - label.len()) as nat + 2 + lead;
    assert(pad_right(label, label_width()) =~= label + repeat_char(' ', (14 - label.len()) as nat));
    assert(pad_left(count, count_w) =~= repeat_char(' ', lead) + count);
    assert(repeat_char(' ', (14 - label.len()) as nat) + "  "@ + repeat_char(' ', lead) =~= repeat_char(' ', gap));
    if detail.len() == 0 {
        assert(count_row(label, count, count_w, detail) =~= label + repeat_char(' ', gap) + count);
    } else {
        assert(count_row(label, count, count_w, detail) =~= label + repeat_char(' ', gap) + count + "  "@ + detail);
    }
    gap
}

/// The summary table row by row: the rule count, the terminal count (the
/// total of unique literals and patterns), the undefined references, the
/// left-recursive rules (direct and mutual together) and the FIRST-set
/// statistics, each row's detail giving the parts it adds up.
#[verifier::rlimit(100)]
pub proof fn lemma_summary_table(s: GrammarSummary) -> (gaps: (nat, nat, nat, nat))
    ensures
        gaps.0 >= 2 && gaps.1 >= 2 && gaps.2 >= 2 && gaps.3 >= 2,
        summary_text(s) ==
            ("Rules"@ + repeat_char(' ', gaps.0) + nat_decimal(s.rules as nat) + "  "@
                + ("(leaf: "@ + nat_decimal(s.leaf_rules as nat) + ", unreachable: "@ + nat_decimal(s.unreachable_rules as nat) + ")"@))
            + "\n"@ + ("Terminals"@ + repeat_char(' ', gaps.1) + nat_decimal((s.unique_literals + s.unique_patterns) as nat) + "  "@
                + ("(literals: "@ + nat_decimal(s.unique_literals as nat) + ", patterns: "@ + nat_decimal(s.unique_patterns as nat) + ", unique values)"@))
            + "\n"@ + ("Undefined refs"@ + repeat_char(' ', gaps.2) + nat_decimal(s.undefined_refs as nat))
            + "\n"@ + ("Left-recursive"@ + repeat_char(' ', gaps.3) + nat_decimal((s.left_recursive_direct + s.left_recursive_mutual) as nat) + "  "@
                + ("(direct: "@ + nat_decimal(s.left_recursive_direct as nat) + ", mutual: "@ + nat_decimal(s.left_recursive_mutual as nat) + ")"@))
            + "\n"@ + ("FIRST sets"@ + repeat_char(' ', 6) + match s.first_sets {
                Some(fs) => "min "@ + nat_decimal(fs.min as nat) + "  max "@ + nat_decimal(fs.max as nat)
                    + "  avg "@ + tenths_text(fs.avg_tenths as nat),
                None => "n/a"@,
            }),
{
    reveal_strlit("Rules");
    reveal_strlit("Terminals");
    reveal_strlit("Undefined refs");
    reveal_strlit("Left-recursive");
    reveal_strlit("FIRST sets");
    reveal_strlit("(leaf: ");
    reveal_strlit("(literals: ");
    reveal_strlit("(direct: ");
    reveal_strlit("");
    reveal_strlit("  ");
    let rules = nat_decimal(s.rules as nat);
    let terminals = nat_decimal((s.unique_literals + s.unique_patterns) as nat);
    let undefined = nat_decimal(s.undefined_refs as nat);
    let left = nat_decimal((s.left_recursive_direct + s.left_recursive_mutual) as nat);
    let count_w = max_len(max_len(rules.len(), terminals.len()), max_len(undefined.len(), left.len()));
    let d1 = "(leaf: "@ + nat_decimal(s.leaf_rules as nat) + ", unreachable: "@ + nat_decimal(s.unreachable_rules as nat) + ")"@;
    let d2 = "(literals: "@ + nat_decimal(s.unique_literals as nat) + ", patterns: "@ + nat_decimal(s.unique_patterns as nat) + ", unique values)"@;
    let d4 = "(direct: "@ + nat_decimal(s.left_recursive_direct as nat) + ", mutual: "@ + nat_decimal(s.left_recursive_mutual as nat) + ")"@;
    let g1 = lemma_row_shape("Rules"@, rules, count_w, d1);
    let g2 = lemma_row_shape("Terminals"@, terminals, count_w, d2);
    let g3 = lemma_row_shape("Undefined refs"@, undefined, count_w, ""@);
    let g4 = lemma_row_shape("Left-recursive"@, left, count_w, d4);
    assert(pad_right("FIRST sets"@, label_width()) + "  "@ =~= "FIRST sets"@ + repeat_char(' ', 6));
    assert(summary_text(s) == count_row("Rules"@, rules, count_w, d1) + "\n"@ + count_row("Terminals"@, terminals, count_w, d2)
        + "\n"@ + count_row("Undefined refs"@, undefined, count_w, ""@) + "\n"@ + count_row("Left-recursive"@, left, count_w, d4)
        + "\n"@ + pad_right("FIRST sets"@, label_width()) + "  "@ + first_sets_text(s.first_sets));
    let f = pad_right("FIRST sets"@, label_width()) + "  "@;
    vstd::seq_lib::lemma_concat_associative(
        count_row("Rules"@, rules, count_w, d1) + "\n"@ + count_row("Terminals"@, terminals, count_w, d2)
            + "\n"@ + count_row("Undefined refs"@, undefined, count_w, ""@) + "\n"@ + count_row("Left-recursive"@, left, count_w, d4) + "\n"@,
        f, first_sets_text(s.first_sets));
    (g1, g2, g3, g4)
}
} // verus!
