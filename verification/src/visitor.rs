//! Naming and text-layout helpers for generated visitor code: snake_case
//! method names, indentation, comment prefixes and markdown tables.

use vstd::prelude::*;
use vstd::string::*;
use crate::chars::{ascii_digit, is_lowercase, is_uppercase, lower_of, to_lowercase, unicode_lowercase, unicode_uppercase};
use crate::summary::pad_right;
use crate::text::{chars_to_string, join, join_strings, owned, repeat_char, spaces, str_len, str_to_chars, utf8_len, views};
use crate::util::{lines, lines_of};

verus! {

// ── snake_case ───────────────────────────────────────────────────────────

/// Whether `out` ends with an underscore.
pub open spec fn ends_with_underscore(out: Seq<char>) -> bool {
    out.len() > 0 && out.last() == '_'
}

/// Whether the upper-case character at position `k` of `cs` starts a new
/// word: after a lower-case letter or a digit, or as the last of a run of
/// upper-case letters followed by a lower-case one.
pub open spec fn starts_word(cs: Seq<char>, k: int) -> bool {
    if k == 0 {
        false
    } else {
        let p = cs[k - 1];
        if unicode_lowercase(p) || ascii_digit(p) {
            true
        } else {
            unicode_uppercase(p) && k + 1 < cs.len() && unicode_lowercase(cs[k + 1])
        }
    }
}

/// The snake_case rendering of the first `k` characters of `cs`.
pub open spec fn snake_prefix(cs: Seq<char>, k: int) -> Seq<char>
    decreases k,
{
    if k <= 0 {
        seq![]
    } else {
        let out = snake_prefix(cs, k - 1);
        let c = cs[k - 1];
        if c == '.' {
            if out.len() > 0 && !ends_with_underscore(out) {
                out.push('_')
            } else {
                out
            }
        } else if unicode_uppercase(c) {
            (if starts_word(cs, k - 1) && !ends_with_underscore(out) { out.push('_') } else { out }) + lower_of(c)
        } else {
            out.push(c)
        }
    }
}

/// `name` in snake_case.
pub open spec fn snake_case(name: Seq<char>) -> Seq<char> {
    snake_prefix(name, name.len() as int)
}

/// Converts a node-kind name (camelCase, mixed, or dot-separated like
/// `prec.dynamic`) to a snake_case method-name fragment.  A `.` is a word
/// boundary; an upper-case letter starts a word after a lower-case letter
/// or a digit, or when it ends a run of capitals followed by a lower-case
/// letter (`HTMLParser` gives `html_parser`).
pub fn to_snake_case(name: &str) -> (r: String)
    ensures
        r@ == snake_case(name@),
        snake_plain(name@) ==> r@ == name@,
        snake_plain(r@) ==> snake_case(r@) == r@,
{
    proof {
        if snake_plain(name@) {
            lemma_snake_case_plain(name@);
        }
        if snake_plain(snake_case(name@)) {
            lemma_snake_case_idempotent(name@);
        }
    }
    let cs = str_to_chars(name);
    let mut out: Vec<char> = Vec::new();
    let mut i: usize = 0;
    while i < cs.len()
        invariant
            0 <= i <= cs.len(),
            cs@ == name@,
            out@ == snake_prefix(cs@, i as int),
        decreases cs.len() - i,
    {
        let c = cs[i];
        let n = out.len();
        let ends_us = n > 0 && out[n - 1] == '_';
        if c == '.' {
            if n > 0 && !ends_us {
                out.push('_');
            }
        } else if is_uppercase(c) {
            let starts = if i == 0 {
                false
            } else {
                let p = cs[i - 1];
                if is_lowercase(p) || ('0' <= p && p <= '9') {
                    true
                } else {
                    is_uppercase(p) && i + 1 < cs.len() && is_lowercase(cs[i + 1])
                }
            };
            if starts && !ends_us {
                out.push('_');
            }
            let low = to_lowercase(c);
            let ghost before = out@;
            let mut k: usize = 0;
            while k < low.len()
                invariant
                    0 <= k <= low@.len(),
                    out@ == before + low@.take(k as int),
                decreases low@.len() - k,
            {
                out.push(low[k]);
                assert(out@ =~= before + low@.take(k as int + 1));
                k += 1;
            }
            assert(low@.take(low@.len() as int) =~= low@);
        } else {
            out.push(c);
        }
        i += 1;
    }
    chars_to_string(out.as_slice())
}

/// Whether `cs` holds no upper-case letter and no `.`: the names that
/// [`to_snake_case`] leaves as they are.
pub open spec fn snake_plain(cs: Seq<char>) -> bool {
    forall|i: int| 0 <= i < cs.len() ==> !unicode_uppercase(#[trigger] cs[i]) && cs[i] != '.'
}

/// Each prefix of a plain name renders as itself.
proof fn lemma_snake_prefix_plain(cs: Seq<char>, k: int)
    requires
        snake_plain(cs),
        0 <= k <= cs.len(),
    ensures
        snake_prefix(cs, k) == cs.take(k),
    decreases k,
{
    if k > 0 {
        lemma_snake_prefix_plain(cs, k - 1);
        assert(!unicode_uppercase(cs[k - 1]) && cs[k - 1] != '.');
        assert(cs.take(k - 1).push(cs[k - 1]) =~= cs.take(k));
    }
}

/// A name with no upper-case letter and no `.` (already snake_case, or a
/// single lower-case word) passes through [`to_snake_case`] unchanged.
pub proof fn lemma_snake_case_plain(name: Seq<char>)
    requires
        snake_plain(name),
    ensures
        snake_case(name) == name,
{
    lemma_snake_prefix_plain(name, name.len() as int);
    assert(name.take(name.len() as int) =~= name);
}

/// Converting twice gives what converting once gave, wherever the first
/// result holds no upper-case letter and no `.`.
pub proof fn lemma_snake_case_idempotent(name: Seq<char>)
    requires
        snake_plain(snake_case(name)),
    ensures
        snake_case(snake_case(name)) == snake_case(name),
{
    lemma_snake_case_plain(snake_case(name));
}

// ── Indentation and comment prefixes ─────────────────────────────────────

/// `text` with every non-empty line indented by `n` spaces; empty lines
/// stay empty.
pub open spec fn indented(text: Seq<char>, n: nat) -> Seq<char> {
    join(lines_of(text).map_values(|l: Seq<char>| if l.len() == 0 { l } else { repeat_char(' ', n) + l }), "\n"@)
}

/// `text` with every line prefixed by `marker`: `marker line` for a
/// non-empty line, the bare marker for an empty one.
pub open spec fn prefixed(text: Seq<char>, marker: Seq<char>) -> Seq<char> {
    join(lines_of(text).map_values(|l: Seq<char>| if l.len() == 0 { marker } else { marker + " "@ + l }), "\n"@)
}

/// Indents every non-empty line of `text` by `n` spaces, leaving empty
/// lines untouched so that no line ends in white space.
pub fn indent(text: &str, n: usize) -> (r: String)
    ensures
        r@ == indented(text@, n as nat),
{
    let pad = spaces(n);
    let ls = lines(text);
    let ghost lv = ls@.map_values(|l: String| l@);
    let ghost f = |l: Seq<char>| if l.len() == 0 { l } else { repeat_char(' ', n as nat) + l };
    let mut parts: Vec<String> = Vec::new();
    let mut i: usize = 0;
    while i < ls.len()
        invariant
            0 <= i <= ls@.len(),
            lv == ls@.map_values(|l: String| l@),
            pad@ == repeat_char(' ', n as nat),
            f == (|l: Seq<char>| if l.len() == 0 { l } else { repeat_char(' ', n as nat) + l }),
            views(parts@) == lv.take(i as int).map_values(f),
        decreases ls@.len() - i,
    {
        let line = ls[i].as_str();
        let s = if str_to_chars(line).len() == 0 {
            owned(line)
        } else {
            let mut s = owned(pad.as_str());
            s.append(line);
            s
        };
        let ghost bp = parts@;
        parts.push(s);
        proof {
            assert(lv[i as int] == ls@[i as int]@);
            assert(views(parts@) =~= views(bp).push(f(lv[i as int])));
            assert(lv.take(i as int + 1).map_values(f) =~= lv.take(i as int).map_values(f).push(f(lv[i as int])));
        }
        i += 1;
    }
    assert(lv.take(lv.len() as int) =~= lv);
    join_strings(&parts, "\n")
}

/// Prefixes every line of `text` with the comment `marker`: a non-empty
/// line gets the marker, a space and the line; an empty line gets the bare
/// marker.
pub fn prefix_lines(text: &str, marker: &str) -> (r: String)
    ensures
        r@ == prefixed(text@, marker@),
{
    let ls = lines(text);
    let ghost lv = ls@.map_values(|l: String| l@);
    let ghost f = |l: Seq<char>| if l.len() == 0 { marker@ } else { marker@ + " "@ + l };
    let mut parts: Vec<String> = Vec::new();
    let mut i: usize = 0;
    while i < ls.len()
        invariant
            0 <= i <= ls@.len(),
            lv == ls@.map_values(|l: String| l@),
            f == (|l: Seq<char>| if l.len() == 0 { marker@ } else { marker@ + " "@ + l }),
            views(parts@) == lv.take(i as int).map_values(f),
        decreases ls@.len() - i,
    {
        let line = ls[i].as_str();
        let s = if str_to_chars(line).len() == 0 {
            owned(marker)
        } else {
            let mut s = owned(marker);
            s.append(" ");
            s.append(line);
            s
        };
        let ghost bp = parts@;
        parts.push(s);
        proof {
            assert(lv[i as int] == ls@[i as int]@);
            assert(views(parts@) =~= views(bp).push(f(lv[i as int])));
            assert(lv.take(i as int + 1).map_values(f) =~= lv.take(i as int).map_values(f).push(f(lv[i as int])));
        }
        i += 1;
    }
    assert(lv.take(lv.len() as int) =~= lv);
    join_strings(&parts, "\n")
}

// ── Markdown tables ──────────────────────────────────────────────────────

/// The widest byte length of column `col` over `rows`.
pub open spec fn column_width(rows: Seq<[&str; 2]>, col: int) -> nat
    decreases rows.len(),
{
    if rows.len() == 0 {
        0
    } else {
        let w = column_width(rows.drop_last(), col);
        let c = utf8_len(rows.last()@[col]@);
        if c > w { c } else { w }
    }
}

/// The text line of one table row.
pub open spec fn table_row(row: [&str; 2], w0: nat, w1: nat) -> Seq<char> {
    "| "@ + pad_right(row@[0]@, w0) + " | "@ + pad_right(row@[1]@, w1) + " |"@
}

/// The lines of a table: each row, with the separator after the header.
pub open spec fn table_lines(rows: Seq<[&str; 2]>) -> Seq<Seq<char>> {
    let w0 = column_width(rows, 0);
    let w1 = column_width(rows, 1);
    let sep = "|"@ + repeat_char('-', w0 + 2) + "|"@ + repeat_char('-', w1 + 2) + "|"@;
    if rows.len() == 0 {
        seq![]
    } else {
        seq![table_row(rows[0], w0, w1), sep] + rows.drop_first().map_values(|r: [&str; 2]| table_row(r, w0, w1))
    }
}

/// Every column is at least as wide as each of its cells.
proof fn lemma_column_width(rows: Seq<[&str; 2]>, col: int)
    requires
        0 <= col < 2,
    ensures
        forall|i: int| 0 <= i < rows.len() ==> utf8_len((#[trigger] rows[i])@[col]@) <= column_width(rows, col),
        rows.len() > 0 ==> exists|i: int| 0 <= i < rows.len() && utf8_len((#[trigger] rows[i])@[col]@) == column_width(rows, col),
    decreases rows.len(),
{
    if rows.len() > 0 {
        lemma_column_width(rows.drop_last(), col);
        assert forall|i: int| 0 <= i < rows.len() implies utf8_len((#[trigger] rows[i])@[col]@) <= column_width(rows, col) by {
            if i < rows.len() - 1 {
                assert(rows.drop_last()[i] == rows[i]);
            }
        }
        let last = rows.len() - 1;
        assert(rows.last() == rows[last]);
        if utf8_len(rows.last()@[col]@) > column_width(rows.drop_last(), col) {
            assert(utf8_len(rows[last]@[col]@) == column_width(rows, col));
        } else if rows.len() > 1 {
            let i = choose|i: int| 0 <= i < rows.drop_last().len() && utf8_len((#[trigger] rows.drop_last()[i])@[col]@) == column_width(rows.drop_last(), col);
            assert(rows[i] == rows.drop_last()[i]);
            assert(utf8_len(rows[i]@[col]@) == column_width(rows, col));
        } else {
            assert(utf8_len(rows[last]@[col]@) == column_width(rows, col));
        }
    }
}

/// Renders `rows` (row 0 is the header) as a GitHub-flavoured markdown
/// pipe table, each column padded to its widest cell so the source text
/// lines up.
pub fn render_table(rows: &[[&str; 2]]) -> (r: String)
    requires
        forall|i: int| 0 <= i < rows@.len() ==> utf8_len((#[trigger] rows@[i])@[0]@) + 2 <= usize::MAX && utf8_len(rows@[i]@[1]@) + 2 <= usize::MAX,
    ensures
        r@ == join(table_lines(rows@), "\n"@),
{
    let mut w0: usize = 0;
    let mut w1: usize = 0;
    let mut i: usize = 0;
    while i < rows.len()
        invariant
            0 <= i <= rows@.len(),
            w0 == column_width(rows@.take(i as int), 0),
            w1 == column_width(rows@.take(i as int), 1),
        decreases rows@.len() - i,
    {
        proof {
            let t = rows@.take(i as int + 1);
            assert(t.drop_last() =~= rows@.take(i as int));
            assert(t.last() == rows@[i as int]);
        }
        let a = str_len(rows[i][0]);
        let b = str_len(rows[i][1]);
        if a > w0 {
            w0 = a;
        }
        if b > w1 {
            w1 = b;
        }
        i += 1;
    }
    assert(rows@.take(rows@.len() as int) =~= rows@);
    proof {
        lemma_column_width(rows@, 0);
        lemma_column_width(rows@, 1);
        if rows@.len() > 0 {
            let a = choose|i: int| 0 <= i < rows@.len() && utf8_len((#[trigger] rows@[i])@[0]@) == column_width(rows@, 0);
            let b = choose|i: int| 0 <= i < rows@.len() && utf8_len((#[trigger] rows@[i])@[1]@) == column_width(rows@, 1);
        }
    }
    let mut lines_v: Vec<String> = Vec::new();
    let ghost tl = table_lines(rows@);
    let mut i: usize = 0;
    while i < rows.len()
        invariant
            0 <= i <= rows@.len(),
            w0 == column_width(rows@, 0),
            w1 == column_width(rows@, 1),
            w0 + 2 <= usize::MAX,
            w1 + 2 <= usize::MAX,
            tl == table_lines(rows@),
            views(lines_v@) == tl.take(if i == 0 { 0int } else { i + 1 }),
        decreases rows@.len() - i,
    {
        let mut line = String::from_str("| ");
        line.append(crate::summary::padded_right(rows[i][0], w0).as_str());
        line.append(" | ");
        line.append(crate::summary::padded_right(rows[i][1], w1).as_str());
        line.append(" |");
        let ghost bl = lines_v@;
        lines_v.push(line);
        proof {
            assert(views(lines_v@) =~= views(bl).push(table_row(rows@[i as int], w0 as nat, w1 as nat)));
            if i == 0 {
                assert(tl[0] == table_row(rows@[0], w0 as nat, w1 as nat));
            } else {
                assert(tl[i + 1] == table_row(rows@[i as int], w0 as nat, w1 as nat)) by {
                    assert(rows@.drop_first()[i - 1] == rows@[i as int]);
                }
            }
        }
        if i == 0 {
            let mut sep = String::from_str("|");
            sep.append(dashes(w0 + 2).as_str());
            sep.append("|");
            sep.append(dashes(w1 + 2).as_str());
            sep.append("|");
            let ghost bl2 = lines_v@;
            lines_v.push(sep);
            proof {
                assert(views(lines_v@) =~= views(bl2).push(tl[1]));
                assert(tl.take(2) =~= seq![tl[0], tl[1]]);
            }
        }
        proof {
            assert(tl.take(i + 2) =~= views(lines_v@)) by {
                if i > 0 {
                    assert(tl.take(i + 2) =~= tl.take(i + 1).push(tl[i + 1]));
                }
            }
        }
        i += 1;
    }
    proof {
        if rows@.len() > 0 {
            assert(tl.len() == rows@.len() + 1);
            assert(tl.take(rows@.len() as int + 1) =~= tl);
        } else {
            assert(tl =~= Seq::<Seq<char>>::empty());
        }
    }
    join_strings(&lines_v, "\n")
}

/// `n` dashes.
fn dashes(n: usize) -> (r: String)
    ensures
        r@ == repeat_char('-', n as nat),
{
    let mut v: Vec<char> = Vec::new();
    let mut i: usize = 0;
    while i < n
        invariant
            0 <= i <= n,
            v@ == repeat_char('-', i as nat),
        decreases n - i,
    {
        v.push('-');
        i += 1;
        assert(v@ =~= repeat_char('-', i as nat));
    }
    chars_to_string(v.as_slice())
}

} // verus!
