//! Rendering of the ranked word table.
//!
//! Each ranked entry is shown as its variant list joined with `/`,
//! right-aligned to the widest entry, a column rule, and its count.
//! Widths are measured in grapheme clusters, as a terminal shows
//! them.  The first line is a horizontal rule with a tee where the
//! column rule runs.

use vstd::prelude::*;
use vstd::string::StringExecFns;
use crate::numbers::decimal_of;
use crate::numbers::to_decimal;
use crate::text::chars_to_string;
use crate::text::graphemes;
use crate::text::graphemes_of;
use crate::text::str_chars;
use crate::words::EntryModel;
use crate::words::WordEntry;

verus! {

/// The variants joined with `/`, in order.
pub open spec fn join_variants(vs: Seq<Seq<char>>) -> Seq<char>
    decreases vs.len(),
{
    if vs.len() == 0 {
        Seq::empty()
    } else if vs.len() == 1 {
        vs[0]
    } else {
        join_variants(vs.drop_last()) + seq!['/'] + vs.last()
    }
}

/// `k` copies of one character.
pub open spec fn repeat_char(c: char, k: int) -> Seq<char>
    decreases k,
{
    if k <= 0 {
        Seq::empty()
    } else {
        repeat_char(c, k - 1).push(c)
    }
}

/// What one entry shows in the table: its variants joined with `/`.
pub open spec fn entry_text(e: EntryModel) -> Seq<char> {
    join_variants(e.variants)
}

/// The width of one entry's text, in grapheme clusters.
pub open spec fn entry_width(e: EntryModel) -> int {
    graphemes_of(entry_text(e)).len() as int
}

/// The width of one entry's rendered count.
pub open spec fn count_width(e: EntryModel) -> int {
    decimal_of(e.count).len() as int
}

/// The widest entry text of the table.
pub open spec fn max_entry_width(m: Seq<EntryModel>) -> int
    decreases m.len(),
{
    if m.len() == 0 {
        0
    } else if entry_width(m.last()) > max_entry_width(m.drop_last()) {
        entry_width(m.last())
    } else {
        max_entry_width(m.drop_last())
    }
}

/// The widest rendered count of the table.
pub open spec fn max_count_width(m: Seq<EntryModel>) -> int
    decreases m.len(),
{
    if m.len() == 0 {
        0
    } else if count_width(m.last()) > max_count_width(m.drop_last()) {
        count_width(m.last())
    } else {
        max_count_width(m.drop_last())
    }
}

/// One table row: a blank, padding up to the entry column's width,
/// the entry text, the column rule, and the count.
pub open spec fn table_line(e: EntryModel, w: int) -> Seq<char> {
    seq![' '] + repeat_char(' ', w - entry_width(e)) + entry_text(e) + seq![' ', '\u{2502}', ' ']
        + decimal_of(e.count)
}

/// The rule above the table, with a tee where the column rule runs.
pub open spec fn separator_line(w1: int, w2: int) -> Seq<char> {
    repeat_char('\u{2500}', w1 + 2) + seq!['\u{252C}'] + repeat_char('\u{2500}', w2 + 3)
}

/// Append `k` copies of `c`.
fn push_repeat(v: &mut Vec<char>, c: char, k: usize)
    ensures
        final(v)@ == old(v)@ + repeat_char(c, k as int),
{
    let ghost v0 = v@;
    let mut t: usize = 0;
    while t < k
        invariant
            t <= k,
            v@ == v0 + repeat_char(c, t as int),
        decreases k - t,
    {
        v.push(c);
        proof {
            assert(repeat_char(c, t + 1) == repeat_char(c, t as int).push(c));
            assert(v@ =~= v0 + repeat_char(c, t + 1));
        }
        t = t + 1;
    }
}

/// Append the characters of a string.
fn push_str_chars(v: &mut Vec<char>, s: &str)
    ensures
        final(v)@ == old(v)@ + s@,
{
    let cs = str_chars(s);
    let ghost v0 = v@;
    let mut t: usize = 0;
    while t < cs.len()
        invariant
            t <= cs.len(),
            cs@ == s@,
            v@ == v0 + cs@.take(t as int),
        decreases cs.len() - t,
    {
        v.push(cs[t]);
        proof {
            assert(v@ =~= v0 + cs@.take(t + 1));
        }
        t = t + 1;
    }
    proof {
        assert(cs@.take(cs@.len() as int) =~= cs@);
    }
}

/// The variant list of one entry joined with `/`.
fn join_entry_variants(variants: &Vec<String>) -> (r: String)
    ensures
        r@ == join_variants(variants.deep_view()),
{
    let ghost vs = variants.deep_view();
    let slash = String::from_str("/");
    proof {
        reveal_strlit("/");
        assert(slash@ =~= seq!['/']);
    }
    let mut r = String::new();
    let mut j: usize = 0;
    while j < variants.len()
        invariant
            vs == variants.deep_view(),
            j <= variants.len(),
            slash@ == seq!['/'],
            r@ == join_variants(vs.take(j as int)),
        decreases variants.len() - j,
    {
        if j > 0 {
            r.append(slash.as_str());
        }
        r.append(variants[j].as_str());
        proof {
            assert(variants[j as int]@ == vs[j as int]);
            assert(vs.take(j + 1).drop_last() =~= vs.take(j as int));
            assert(vs.take(j + 1).last() == vs[j as int]);
            if j == 0 {
                assert(join_variants(vs.take(1)) == vs.take(1)[0]);
            }
        }
        j = j + 1;
    }
    proof {
        assert(vs.take(variants.len() as int) =~= vs);
    }
    r
}

/// Render the ranked entries as the lines of a table: first the
/// horizontal rule, then one row per entry in order.
pub fn render_table(entries: &Vec<WordEntry>) -> (r: Vec<String>)
    ensures
        r@.len() == entries@.len() + 1,
        r.deep_view()[0] == separator_line(
            max_entry_width(entries.deep_view()),
            max_count_width(entries.deep_view()),
        ),
        forall|i: int|
            0 <= i < entries@.len() ==> r.deep_view()[i + 1] == table_line(
                entries.deep_view()[i],
                max_entry_width(entries.deep_view()),
            ),
{
    let ghost ev = entries.deep_view();
    let n = entries.len();
    let mut texts: Vec<String> = Vec::new();
    let mut counts: Vec<String> = Vec::new();
    let mut w1: usize = 0;
    let mut w2: usize = 0;
    let mut t: usize = 0;
    while t < n
        invariant
            n == entries.len(),
            ev == entries.deep_view(),
            t <= n,
            texts@.len() == t,
            counts@.len() == t,
            forall|j: int| 0 <= j < t ==> texts@[j]@ == entry_text(ev[j]),
            forall|j: int| 0 <= j < t ==> counts@[j]@ == decimal_of(ev[j].count),
            w1 as int == max_entry_width(ev.take(t as int)),
            w2 as int == max_count_width(ev.take(t as int)),
        decreases n - t,
    {
        proof {
            assert(entries[t as int]@ == ev[t as int]);
        }
        let text = join_entry_variants(&entries[t].variants);
        let glen = graphemes(text.as_str()).len();
        let count_str = to_decimal(entries[t].count);
        let clen = str_chars(count_str.as_str()).len();
        if glen > w1 {
            w1 = glen;
        }
        if clen > w2 {
            w2 = clen;
        }
        texts.push(text);
        counts.push(count_str);
        proof {
            assert(ev.take(t + 1).drop_last() =~= ev.take(t as int));
            assert(ev.take(t + 1).last() == ev[t as int]);
        }
        t = t + 1;
    }
    proof {
        assert(ev.take(n as int) =~= ev);
    }
    let mut lines: Vec<String> = Vec::new();
    let mut sep: Vec<char> = Vec::new();
    push_repeat(&mut sep, '\u{2500}', w1);
    sep.push('\u{2500}');
    sep.push('\u{2500}');
    sep.push('\u{252C}');
    push_repeat(&mut sep, '\u{2500}', w2);
    sep.push('\u{2500}');
    sep.push('\u{2500}');
    sep.push('\u{2500}');
    proof {
        assert(repeat_char('\u{2500}', w1 + 2) == repeat_char('\u{2500}', w1 + 1).push('\u{2500}'));
        assert(repeat_char('\u{2500}', w1 + 1) == repeat_char('\u{2500}', w1 as int).push('\u{2500}'));
        assert(repeat_char('\u{2500}', w2 + 3) == repeat_char('\u{2500}', w2 + 2).push('\u{2500}'));
        assert(repeat_char('\u{2500}', w2 + 2) == repeat_char('\u{2500}', w2 + 1).push('\u{2500}'));
        assert(repeat_char('\u{2500}', w2 + 1) == repeat_char('\u{2500}', w2 as int).push('\u{2500}'));
        assert(sep@ =~= separator_line(w1 as int, w2 as int));
    }
    lines.push(chars_to_string(&sep));
    let mut t: usize = 0;
    while t < n
        invariant
            n == entries.len(),
            ev == entries.deep_view(),
            n == texts@.len(),
            n == counts@.len(),
            forall|j: int| 0 <= j < n ==> texts@[j]@ == entry_text(ev[j]),
            forall|j: int| 0 <= j < n ==> counts@[j]@ == decimal_of(ev[j].count),
            w1 as int == max_entry_width(ev),
            w2 as int == max_count_width(ev),
            t <= n,
            lines@.len() == t + 1,
            lines.deep_view()[0] == separator_line(w1 as int, w2 as int),
            forall|i: int|
                0 <= i < t ==> lines.deep_view()[i + 1] == table_line(ev[i], w1 as int),
        decreases n - t,
    {
        let glen = graphemes(texts[t].as_str()).len();
        proof {
            assert(texts@[t as int]@ == entry_text(ev[t as int]));
            assert(glen as int == entry_width(ev[t as int]));
            lemma_max_entry_width_bounds(ev, t as int);
        }
        let mut line: Vec<char> = Vec::new();
        line.push(' ');
        push_repeat(&mut line, ' ', w1 - glen);
        push_str_chars(&mut line, texts[t].as_str());
        line.push(' ');
        line.push('\u{2502}');
        line.push(' ');
        push_str_chars(&mut line, counts[t].as_str());
        proof {
            assert(line@ =~= table_line(ev[t as int], w1 as int));
        }
        lines.push(chars_to_string(&line));
        t = t + 1;
    }
    lines
}

/// No entry is wider than the table's entry column.
proof fn lemma_max_entry_width_bounds(m: Seq<EntryModel>, i: int)
    requires
        0 <= i < m.len(),
    ensures
        entry_width(m[i]) <= max_entry_width(m),
        max_entry_width(m) >= 0,
    decreases m.len(),
{
    if i == m.len() - 1 {
        lemma_max_entry_width_nonneg(m.drop_last());
    } else {
        lemma_max_entry_width_bounds(m.drop_last(), i);
        assert(m.drop_last()[i] == m[i]);
    }
}

/// Widths are never negative.
proof fn lemma_max_entry_width_nonneg(m: Seq<EntryModel>)
    ensures
        max_entry_width(m) >= 0,
    decreases m.len(),
{
    if m.len() > 0 {
        lemma_max_entry_width_nonneg(m.drop_last());
    }
}

} // verus!
