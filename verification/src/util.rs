//! Text utilities: splitting into lines, name casing, whitespace
//! normalisation, literal quoting and diagnostic snippets.

use vstd::prelude::*;
use vstd::string::*;
use crate::chars::{is_whitespace, to_uppercase, unicode_whitespace, upper_of};
use crate::text::{chars_to_string, str_to_chars};

verus! {

// ── Lines ────────────────────────────────────────────────────────────────

/// `s` without one trailing carriage return.
pub open spec fn strip_cr(s: Seq<char>) -> Seq<char> {
    if s.len() > 0 && s.last() == '\r' {
        s.drop_last()
    } else {
        s
    }
}

/// The lines finished so far and the line being read, after reading `s`:
/// a newline ends a line (dropping a carriage return before it).
pub open spec fn line_scan(s: Seq<char>) -> (Seq<Seq<char>>, Seq<char>)
    decreases s.len(),
{
    if s.len() == 0 {
        (seq![], seq![])
    } else {
        let (done, cur) = line_scan(s.drop_last());
        if s.last() == '\n' {
            (done.push(strip_cr(cur)), seq![])
        } else {
            (done, cur.push(s.last()))
        }
    }
}

/// The lines of `s` as `str::lines` gives them: split at `\n` or `\r\n`, a
/// final line ending being optional.
pub open spec fn lines_of(s: Seq<char>) -> Seq<Seq<char>> {
    let (done, cur) = line_scan(s);
    if cur.len() > 0 {
        done.push(cur)
    } else {
        done
    }
}

/// The lines of `text`, as `str::lines` gives them.
pub fn lines(text: &str) -> (r: Vec<String>)
    ensures
        r@.map_values(|l: String| l@) == lines_of(text@),
{
    let cs = str_to_chars(text);
    let mut done: Vec<String> = Vec::new();
    let mut cur: Vec<char> = Vec::new();
    let mut i: usize = 0;
    while i < cs.len()
        invariant
            0 <= i <= cs.len(),
            cs@ == text@,
            (done@.map_values(|l: String| l@), cur@) == line_scan(cs@.take(i as int)),
        decreases cs.len() - i,
    {
        proof {
            let t = cs@.take(i as int + 1);
            assert(t.drop_last() =~= cs@.take(i as int));
            assert(t.last() == cs@[i as int]);
        }
        let c = cs[i];
        if c == '\n' {
            let n = cur.len();
            let line = if n > 0 && cur[n - 1] == '\r' {
                chars_to_string(&cur.as_slice()[0..n - 1])
            } else {
                chars_to_string(cur.as_slice())
            };
            let ghost bd = done@;
            proof {
                if n > 0 && cur@[n - 1] == '\r' {
                    assert(cur@.subrange(0, n - 1) =~= cur@.drop_last());
                }
            }
            done.push(line);
            assert(done@.map_values(|l: String| l@) =~= bd.map_values(|l: String| l@).push(strip_cr(cur@)));
            cur = Vec::new();
            assert(cur@ =~= Seq::<char>::empty());
        } else {
            cur.push(c);
        }
        i += 1;
    }
    assert(cs@.take(cs@.len() as int) =~= cs@);
    if cur.len() > 0 {
        let ghost bd = done@;
        done.push(chars_to_string(cur.as_slice()));
        assert(done@.map_values(|l: String| l@) =~= bd.map_values(|l: String| l@).push(cur@));
    }
    done
}

// ── Casing ───────────────────────────────────────────────────────────────

/// The pieces of `s` between occurrences of `d` (`str::split`): one more
/// piece than there are separators.
pub open spec fn split_on(s: Seq<char>, d: char) -> Seq<Seq<char>>
    decreases s.len(),
{
    if s.len() == 0 {
        seq![seq![]]
    } else {
        let p = split_on(s.drop_last(), d);
        if s.last() == d {
            p.push(seq![])
        } else {
            p.update(p.len() - 1, p.last().push(s.last()))
        }
    }
}

/// `split_on` always yields at least one piece.
proof fn lemma_split_on_len(s: Seq<char>, d: char)
    ensures
        split_on(s, d).len() >= 1,
    decreases s.len(),
{
    if s.len() > 0 {
        lemma_split_on_len(s.drop_last(), d);
    }
}

/// A piece with its first character upper-cased.
pub open spec fn camel_part(p: Seq<char>) -> Seq<char> {
    if p.len() == 0 {
        seq![]
    } else {
        upper_of(p[0]) + p.drop_first()
    }
}

/// The pieces of `ps`, concatenated.
pub open spec fn concat(ps: Seq<Seq<char>>) -> Seq<char>
    decreases ps.len(),
{
    if ps.len() == 0 {
        seq![]
    } else {
        concat(ps.drop_last()) + ps.last()
    }
}

/// `name` in UpperCamelCase: split at `_`, each piece's first character
/// upper-cased, the pieces joined.
pub open spec fn camelcase(name: Seq<char>) -> Seq<char> {
    concat(split_on(name, '_').map_values(|p: Seq<char>| camel_part(p)))
}

/// Converts a snake_case grammar name to UpperCamelCase, e.g. `my_lang`
/// to `MyLang`.
pub fn to_camelcase(name: &str) -> (r: String)
    ensures
        r@ == camelcase(name@),
{
    let cs = str_to_chars(name);
    let mut out: Vec<char> = Vec::new();
    let mut at_start = true;
    let mut i: usize = 0;
    proof {
        assert(cs@.take(0) =~= Seq::<char>::empty());
        assert(split_on(Seq::<char>::empty(), '_').map_values(|p: Seq<char>| camel_part(p)) =~= seq![Seq::<char>::empty()]);
        assert(concat(seq![Seq::<char>::empty()]) =~= Seq::<char>::empty()) by {
            let one = seq![Seq::<char>::empty()];
            assert(one.drop_last() =~= Seq::<Seq<char>>::empty());
            assert(one.last() == Seq::<char>::empty());
            assert(concat(one) == concat(one.drop_last()) + one.last());
        }
    }
    while i < cs.len()
        invariant
            0 <= i <= cs.len(),
            cs@ == name@,
            out@ == camelcase(cs@.take(i as int)),
            at_start == (split_on(cs@.take(i as int), '_').last().len() == 0),
        decreases cs.len() - i,
    {
        let c = cs[i];
        let ghost pre = cs@.take(i as int);
        let ghost parts = split_on(pre, '_');
        proof {
            let t = cs@.take(i as int + 1);
            assert(t.drop_last() =~= pre);
            assert(t.last() == c);
            lemma_split_on_len(pre, '_');
        }
        if c == '_' {
            proof {
                let ms = parts.map_values(|p: Seq<char>| camel_part(p));
                assert(parts.push(seq![]).map_values(|p: Seq<char>| camel_part(p)) =~= ms.push(seq![]));
                assert(ms.push(seq![]).drop_last() =~= ms);
                assert(concat(ms.push(seq![])) =~= concat(ms));
            }
            at_start = true;
        } else {
            let ghost last = parts.last();
            let ghost ms = parts.map_values(|p: Seq<char>| camel_part(p));
            proof {
                let np = parts.update(parts.len() - 1, last.push(c));
                assert(np.map_values(|p: Seq<char>| camel_part(p)) =~= ms.update(ms.len() - 1, camel_part(last.push(c))));
                assert(ms.update(ms.len() - 1, camel_part(last.push(c))).drop_last() =~= ms.drop_last());
                assert(concat(ms) == concat(ms.drop_last()) + camel_part(last));
            }
            if at_start {
                let up = to_uppercase(c);
                let mut k: usize = 0;
                let ghost before = out@;
                while k < up.len()
                    invariant
                        0 <= k <= up@.len(),
                        out@ == before + up@.take(k as int),
                    decreases up@.len() - k,
                {
                    out.push(up[k]);
                    assert(out@ =~= before + up@.take(k as int + 1));
                    k += 1;
                }
                proof {
                    assert(up@.take(up@.len() as int) =~= up@);
                    assert(last.push(c) =~= seq![c]);
                    assert(camel_part(seq![c]) =~= upper_of(c));
                    assert(camel_part(last) =~= Seq::<char>::empty());
                }
                at_start = false;
            } else {
                let ghost before = out@;
                out.push(c);
                proof {
                    assert(last.len() > 0);
                    assert(camel_part(last.push(c)) =~= camel_part(last).push(c));
                    assert(out@ =~= before.push(c));
                }
            }
        }
        i += 1;
    }
    assert(cs@.take(cs@.len() as int) =~= cs@);
    chars_to_string(out.as_slice())
}

// ── Whitespace normalisation ─────────────────────────────────────────────

/// `s` without trailing whitespace (`str::trim_end`).
pub open spec fn trim_end(s: Seq<char>) -> Seq<char>
    decreases s.len(),
{
    if s.len() > 0 && unicode_whitespace(s.last()) {
        trim_end(s.drop_last())
    } else {
        s
    }
}

/// The normalised text of the first `ls.len()` lines and whether content
/// has been seen, with the count of blank lines since the last content.
pub open spec fn normalize_scan(ls: Seq<Seq<char>>) -> (Seq<char>, nat, bool)
    decreases ls.len(),
{
    if ls.len() == 0 {
        (seq![], 0, false)
    } else {
        let (out, blanks, seen) = normalize_scan(ls.drop_last());
        let t = trim_end(ls.last());
        if t.len() == 0 {
            (out, blanks + 1, seen)
        } else {
            ((if seen && blanks > 0 { out.push('\n') } else { out }) + t + "\n"@, 0, true)
        }
    }
}

/// `s` with trailing whitespace stripped from each line, runs of blank
/// lines collapsed to one, leading blank lines removed, and each line
/// ended by a newline.
pub open spec fn normalized(s: Seq<char>) -> Seq<char> {
    normalize_scan(lines_of(s)).0
}

/// `s` without trailing whitespace.
fn trimmed_end(s: &str) -> (r: Vec<char>)
    ensures
        r@ == trim_end(s@),
{
    let mut cs = str_to_chars(s);
    while cs.len() > 0 && is_whitespace(cs[cs.len() - 1])
        invariant
            trim_end(cs@) == trim_end(s@),
        decreases cs.len(),
    {
        let ghost before = cs@;
        cs.pop();
        assert(cs@ =~= before.drop_last());
    }
    cs
}

/// Strips trailing whitespace from each line, collapses runs of blank lines
/// to one, removes leading blank lines, and ends every line with a newline.
pub fn normalize_stripped(s: &str) -> (r: String)
    ensures
        r@ == normalized(s@),
{
    let ls = lines(s);
    let ghost lv = ls@.map_values(|l: String| l@);
    let mut result: Vec<char> = Vec::new();
    let mut blank_run: usize = 0;
    let mut past_first_content = false;
    let mut i: usize = 0;
    while i < ls.len()
        invariant
            0 <= i <= ls@.len(),
            lv == ls@.map_values(|l: String| l@),
            (result@, blank_run as nat, past_first_content) == normalize_scan(lv.take(i as int)),
            blank_run <= i,
        decreases ls@.len() - i,
    {
        proof {
            let t = lv.take(i as int + 1);
            assert(t.drop_last() =~= lv.take(i as int));
            assert(t.last() == ls@[i as int]@);
        }
        let t = trimmed_end(ls[i].as_str());
        if t.len() == 0 {
            blank_run += 1;
        } else {
            let ghost before = result@;
            if past_first_content && blank_run > 0 {
                result.push('\n');
            }
            let ghost mid = result@;
            let mut k: usize = 0;
            while k < t.len()
                invariant
                    0 <= k <= t@.len(),
                    result@ == mid + t@.take(k as int),
                decreases t@.len() - k,
            {
                result.push(t[k]);
                assert(result@ =~= mid + t@.take(k as int + 1));
                k += 1;
            }
            result.push('\n');
            proof {
                reveal_strlit("\n");
                assert(t@.take(t@.len() as int) =~= t@);
                assert(result@ =~= mid + t@ + "\n"@);
            }
            past_first_content = true;
            blank_run = 0;
        }
        i += 1;
    }
    assert(lv.take(lv.len() as int) =~= lv);
    chars_to_string(result.as_slice())
}

// ── Snippets and literals ────────────────────────────────────────────────

/// The first line of `text`, cut to 30 characters with `…` when longer.
pub open spec fn snippet_of(text: Seq<char>) -> Seq<char> {
    let first = if lines_of(text).len() > 0 { lines_of(text)[0] } else { seq![] };
    if first.len() > 30 {
        first.take(30).push('…')
    } else {
        first
    }
}

/// Returns the first line of `text`, cut to 30 characters with a
/// trailing `…` when longer.
pub fn snippet(text: &str) -> (r: String)
    ensures
        r@ == snippet_of(text@),
{
    let ls = lines(text);
    let first: Vec<char> = if ls.len() > 0 { str_to_chars(ls[0].as_str()) } else { Vec::new() };
    proof {
        if ls@.len() > 0 {
            assert(ls@.map_values(|l: String| l@)[0] == ls@[0]@);
        }
    }
    if first.len() > 30 {
        let mut out: Vec<char> = Vec::new();
        let mut k: usize = 0;
        while k < 30
            invariant
                0 <= k <= 30,
                first@.len() > 30,
                out@ == first@.take(k as int),
            decreases 30 - k,
        {
            out.push(first[k]);
            assert(out@ =~= first@.take(k as int + 1));
            k += 1;
        }
        out.push('…');
        chars_to_string(out.as_slice())
    } else {
        chars_to_string(first.as_slice())
    }
}

/// `s` with every `\"` replaced by `"`, scanning left to right.
pub open spec fn unescape_dquote(s: Seq<char>) -> Seq<char>
    decreases s.len(),
{
    if s.len() < 2 {
        s
    } else if s[0] == '\\' && s[1] == '"' {
        seq!['"'] + unescape_dquote(s.skip(2))
    } else {
        seq![s[0]] + unescape_dquote(s.drop_first())
    }
}

/// `s` with every `'` replaced by `\'`.
pub open spec fn escape_squote(s: Seq<char>) -> Seq<char>
    decreases s.len(),
{
    if s.len() == 0 {
        s
    } else if s.last() == '\'' {
        escape_squote(s.drop_last()) + seq!['\\', '\'']
    } else {
        escape_squote(s.drop_last()).push(s.last())
    }
}

/// A BNF literal in tree-sitter's single-quote form: a double-quoted
/// literal loses its `\"` escapes and gains `\'` ones.
pub open spec fn normalized_literal(text: Seq<char>) -> Seq<char> {
    if text.len() > 0 && text[0] == '"' {
        seq!['\''] + escape_squote(unescape_dquote(text.subrange(1, text.len() - 1))) + seq!['\'']
    } else {
        text
    }
}

/// Normalises a BNF literal to tree-sitter single-quote form, converting a
/// double-quoted string; other text is returned unchanged.
pub fn normalize_literal(text: &str) -> (r: String)
    requires
        text@.len() > 0 && text@[0] == '"' ==> text@.len() >= 2 && (text@.last() as u32) < 0x80,
    ensures
        r@ == normalized_literal(text@),
{
    let cs = str_to_chars(text);
    if cs.len() == 0 || cs[0] != '"' {
        return chars_to_string(cs.as_slice());
    }
    let n = cs.len();
    let ghost inner = cs@.subrange(1, n - 1);
    // Undo `\"` escapes.
    let mut un: Vec<char> = Vec::new();
    let mut i: usize = 1;
    while i < n - 1
        invariant
            1 <= i <= n - 1,
            n == cs@.len(),
            n >= 2,
            un@ + unescape_dquote(cs@.subrange(i as int, n - 1)) == unescape_dquote(inner),
            inner == cs@.subrange(1, n - 1),
        decreases n - 1 - i,
    {
        let rest = Ghost(cs@.subrange(i as int, n - 1));
        if i + 1 < n - 1 && cs[i] == '\\' && cs[i + 1] == '"' {
            proof {
                assert(rest@.skip(2) =~= cs@.subrange(i + 2, n - 1));
                assert(un@.push('"') + unescape_dquote(rest@.skip(2)) =~= un@ + (seq!['"'] + unescape_dquote(rest@.skip(2))));
            }
            un.push('"');
            i += 2;
        } else {
            proof {
                assert(rest@.drop_first() =~= cs@.subrange(i + 1, n - 1));
                assert(rest@[0] == cs@[i as int]);
                assert(un@.push(cs@[i as int]) + unescape_dquote(rest@.drop_first()) =~= un@ + (seq![cs@[i as int]] + unescape_dquote(rest@.drop_first())));
            }
            un.push(cs[i]);
            i += 1;
        }
    }
    proof {
        assert(cs@.subrange(i as int, n - 1) =~= Seq::<char>::empty());
        assert(un@ =~= un@ + unescape_dquote(Seq::<char>::empty()));
    }
    // Escape single quotes.
    let mut out: Vec<char> = Vec::new();
    out.push('\'');
    let mut k: usize = 0;
    while k < un.len()
        invariant
            0 <= k <= un@.len(),
            out@ == seq!['\''] + escape_squote(un@.take(k as int)),
        decreases un@.len() - k,
    {
        proof {
            let t = un@.take(k as int + 1);
            assert(t.drop_last() =~= un@.take(k as int));
            assert(t.last() == un@[k as int]);
        }
        if un[k] == '\'' {
            out.push('\\');
            out.push('\'');
        } else {
            out.push(un[k]);
        }
        assert(out@ =~= seq!['\''] + escape_squote(un@.take(k as int + 1)));
        k += 1;
    }
    out.push('\'');
    assert(un@.take(un@.len() as int) =~= un@);
    chars_to_string(out.as_slice())
}

} // verus!
