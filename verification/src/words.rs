//! Word frequency analyzer.
//!
//! A word is a maximal run of one Latin letter (ASCII or Latin-1
//! Supplement range) followed by one or more Latin letters,
//! apostrophes or hyphens, scanned greedily left to right; every
//! other character only separates words.  Each word is folded to its
//! Unicode lowercase as a canonical key; the analyzer counts every
//! occurrence of a key and keeps the distinct surface forms of the
//! key in first-seen order.

use vstd::prelude::*;
use crate::text::chars_to_string;
use crate::text::lower_of;
use crate::text::lowercase;
use crate::text::str_chars;
use crate::text::vec_contains_string;

verus! {

/// A Latin letter: ASCII letters and the letter ranges of the Latin-1
/// Supplement block.
pub open spec fn is_latin_letter(c: char) -> bool {
    let u = c as u32;
    (0x41 <= u && u <= 0x5A) || (0x61 <= u && u <= 0x7A) || (0xC0 <= u && u <= 0xD6) || (0xD8 <= u
        && u <= 0xF6) || (0xF8 <= u && u <= 0xFF)
}

/// A character that may stand inside a word after its first letter.
pub open spec fn is_word_char(c: char) -> bool {
    is_latin_letter(c) || c == '\'' || c == '-'
}

/// First index at or after `i` that does not hold a word character;
/// the greedy right end of a word run.
pub open spec fn token_end(s: Seq<char>, i: int) -> int
    decreases s.len() - i,
{
    if i < s.len() && is_word_char(s[i]) {
        token_end(s, i + 1)
    } else {
        i
    }
}

/// `token_end` stays within the sequence, skips word characters only,
/// and stops at the first non-word character.
proof fn lemma_token_end(s: Seq<char>, i: int)
    requires
        0 <= i <= s.len(),
    ensures
        i <= token_end(s, i) <= s.len(),
        forall|j: int| i <= j < token_end(s, i) ==> is_word_char(s[j]),
        token_end(s, i) == s.len() || !is_word_char(s[token_end(s, i)]),
    decreases s.len() - i,
{
    if i < s.len() && is_word_char(s[i]) {
        lemma_token_end(s, i + 1);
    }
}

/// The words recognized at or after position `i`: at a Latin letter
/// followed by a word character a word runs greedily to `token_end`;
/// everywhere else the scan moves on by one character.
pub open spec fn tokens_from(s: Seq<char>, i: int) -> Seq<Seq<char>>
    decreases s.len() - i,
        via tokens_from_dec
{
    if 0 <= i && i + 2 <= s.len() && is_latin_letter(s[i]) && is_word_char(s[i + 1]) {
        let j = token_end(s, i + 2);
        seq![s.subrange(i, j)] + tokens_from(s, j)
    } else if i + 1 <= s.len() {
        tokens_from(s, i + 1)
    } else {
        Seq::empty()
    }
}

#[via_fn]
proof fn tokens_from_dec(s: Seq<char>, i: int) {
    if 0 <= i && i + 2 <= s.len() && is_latin_letter(s[i]) && is_word_char(s[i + 1]) {
        lemma_token_end(s, i + 2);
    }
}

/// The words of a text, leftmost first.
pub open spec fn tokens(s: Seq<char>) -> Seq<Seq<char>> {
    tokens_from(s, 0)
}

/// A well-formed word: at least two characters, the first a Latin
/// letter, all of them word characters.
pub open spec fn token_wf(t: Seq<char>) -> bool {
    t.len() >= 2 && is_latin_letter(t[0]) && forall|k: int|
        0 <= k < t.len() ==> is_word_char(#[trigger] t[k])
}

/// Every word recognized at or after `i` is well formed.
proof fn lemma_tokens_from_wf(s: Seq<char>, i: int)
    requires
        0 <= i,
    ensures
        forall|ti: int|
            0 <= ti < tokens_from(s, i).len() ==> token_wf(#[trigger] tokens_from(s, i)[ti]),
    decreases s.len() - i,
{
    if i >= s.len() {
    } else if i + 2 <= s.len() && is_latin_letter(s[i]) && is_word_char(s[i + 1]) {
        let j = token_end(s, i + 2);
        lemma_token_end(s, i + 2);
        lemma_tokens_from_wf(s, j);
        let t0 = s.subrange(i, j);
        assert(token_wf(t0)) by {
            assert(forall|k: int| 0 <= k < j - i ==> t0[k] == s[i + k]);
        }
        assert forall|ti: int|
            0 <= ti < tokens_from(s, i).len() implies token_wf(
            #[trigger] tokens_from(s, i)[ti],
        ) by {
            if ti == 0 {
                assert(tokens_from(s, i)[0] == t0);
            } else {
                assert(tokens_from(s, i)[ti] == tokens_from(s, j)[ti - 1]);
                assert(token_wf(tokens_from(s, j)[ti - 1]));
            }
        }
    } else {
        lemma_tokens_from_wf(s, i + 1);
        assert(tokens_from(s, i) == tokens_from(s, i + 1));
        assert forall|ti: int|
            0 <= ti < tokens_from(s, i).len() implies token_wf(
            #[trigger] tokens_from(s, i)[ti],
        ) by {
            assert(tokens_from(s, i)[ti] == tokens_from(s, i + 1)[ti]);
            assert(token_wf(tokens_from(s, i + 1)[ti]));
        }
    }
}

/// Law: a recognized word holds at least two characters, begins with
/// a Latin letter, and holds Latin letters, apostrophes and hyphens
/// only; a digit, punctuation or whitespace character never stands
/// inside a recognized word.
pub proof fn lemma_tokens_wf(s: Seq<char>)
    ensures
        forall|ti: int| 0 <= ti < tokens(s).len() ==> token_wf(#[trigger] tokens(s)[ti]),
{
    lemma_tokens_from_wf(s, 0);
}

/// Whether `c` is a Latin letter.
pub fn latin_letter(c: char) -> (b: bool)
    ensures
        b == is_latin_letter(c),
{
    let u = c as u32;
    (0x41 <= u && u <= 0x5A) || (0x61 <= u && u <= 0x7A) || (0xC0 <= u && u <= 0xD6) || (0xD8 <= u
        && u <= 0xF6) || (0xF8 <= u && u <= 0xFF)
}

/// Whether `c` may stand inside a word after its first letter.
pub fn word_char(c: char) -> (b: bool)
    ensures
        b == is_word_char(c),
{
    latin_letter(c) || c == '\'' || c == '-'
}

/// The characters of `cs` from `a` up to `b`, as a string.
fn chars_range_to_string(cs: &Vec<char>, a: usize, b: usize) -> (r: String)
    requires
        a <= b <= cs.len(),
    ensures
        r@ == cs@.subrange(a as int, b as int),
{
    let mut v: Vec<char> = Vec::new();
    let mut k: usize = a;
    while k < b
        invariant
            a <= k <= b <= cs.len(),
            v@ =~= cs@.subrange(a as int, k as int),
        decreases b - k,
    {
        v.push(cs[k]);
        assert(v@ =~= cs@.subrange(a as int, k + 1));
        k = k + 1;
    }
    chars_to_string(&v)
}

/// The words of `cs`, leftmost first, each as a string of its exact
/// surface characters.
pub fn scan_tokens(cs: &Vec<char>) -> (r: Vec<String>)
    ensures
        r.deep_view() == tokens(cs@),
{
    let ghost sv = cs@;
    let mut r: Vec<String> = Vec::new();
    let n = cs.len();
    let mut i: usize = 0;
    while i < n
        invariant
            n == cs.len(),
            sv == cs@,
            i <= n,
            tokens(sv) == r.deep_view() + tokens_from(sv, i as int),
        decreases n - i,
    {
        if i + 1 < n && latin_letter(cs[i]) && word_char(cs[i + 1]) {
            let mut j: usize = i + 2;
            while j < n && word_char(cs[j])
                invariant
                    n == cs.len(),
                    sv == cs@,
                    i + 2 <= j <= n,
                    token_end(sv, i + 2) == token_end(sv, j as int),
                decreases n - j,
            {
                j = j + 1;
            }
            proof {
                lemma_token_end(sv, i + 2);
                assert(token_end(sv, j as int) == j as int);
            }
            let tok = chars_range_to_string(cs, i, j);
            let ghost r0 = r.deep_view();
            r.push(tok);
            proof {
                assert(r.deep_view() =~= r0.push(sv.subrange(i as int, j as int)));
                assert(tokens_from(sv, i as int) == seq![sv.subrange(i as int, j as int)]
                    + tokens_from(sv, j as int));
                assert(r.deep_view() + tokens_from(sv, j as int) =~= r0 + tokens_from(
                    sv,
                    i as int,
                ));
            }
            i = j;
        } else {
            proof {
                assert(tokens_from(sv, i as int) == tokens_from(sv, i + 1));
            }
            i = i + 1;
        }
    }
    proof {
        assert(tokens_from(sv, n as int) =~= Seq::<Seq<char>>::empty());
        assert(r.deep_view() + tokens_from(sv, n as int) =~= r.deep_view());
    }
    r
}

/// The abstract content of one word entry: the folded key, how often
/// it occurred, and its distinct surface forms in first-seen order.
pub ghost struct EntryModel {
    pub key: Seq<char>,
    pub count: int,
    pub variants: Seq<Seq<char>>,
}

/// Index of the entry holding `key`, or -1 if no entry does.
pub open spec fn find_key(m: Seq<EntryModel>, key: Seq<char>) -> int
    decreases m.len(),
{
    if m.len() == 0 {
        -1
    } else if m.first().key == key {
        0
    } else {
        let r = find_key(m.drop_first(), key);
        if r < 0 {
            -1
        } else {
            r + 1
        }
    }
}

/// What `find_key` returns: a valid index of the key, preceded by
/// other keys only, or -1 when the key is absent.
proof fn lemma_find_key(m: Seq<EntryModel>, key: Seq<char>)
    ensures
        find_key(m, key) >= 0 ==> find_key(m, key) < m.len() && m[find_key(m, key)].key == key
            && (forall|j: int| 0 <= j < find_key(m, key) ==> m[j].key != key),
        find_key(m, key) < 0 ==> forall|j: int| 0 <= j < m.len() ==> m[j].key != key,
    decreases m.len(),
{
    if m.len() == 0 {
    } else if m.first().key == key {
    } else {
        lemma_find_key(m.drop_first(), key);
        assert(forall|j: int| 1 <= j < m.len() ==> m[j] == m.drop_first()[j - 1]);
    }
}

/// An entry of the key preceded by entries of other keys is the one
/// `find_key` returns.
proof fn lemma_find_key_is(m: Seq<EntryModel>, key: Seq<char>, i: int)
    requires
        0 <= i < m.len(),
        m[i].key == key,
        forall|j: int| 0 <= j < i ==> m[j].key != key,
    ensures
        find_key(m, key) == i,
    decreases i,
{
    if i == 0 {
    } else {
        assert(forall|j: int| 0 <= j < m.drop_first().len() ==> m.drop_first()[j] == m[j + 1]);
        lemma_find_key_is(m.drop_first(), key, i - 1);
    }
}

/// Record one occurrence of the word `tok`: under its folded key the
/// count rises by one, and the exact surface form is appended to the
/// key's variants unless it is already among them; a key seen for the
/// first time starts a new entry at the end.
pub open spec fn record_token(m: Seq<EntryModel>, tok: Seq<char>) -> Seq<EntryModel> {
    let key = lower_of(tok);
    let i = find_key(m, key);
    if i < 0 {
        m.push(EntryModel { key, count: 1, variants: seq![tok] })
    } else {
        let e = m[i];
        let vs = if e.variants.contains(tok) {
            e.variants
        } else {
            e.variants.push(tok)
        };
        m.update(i, EntryModel { key, count: e.count + 1, variants: vs })
    }
}

/// The entries produced by recording every word of `toks` in order,
/// starting from no entries.
pub open spec fn stats_of(toks: Seq<Seq<char>>) -> Seq<EntryModel>
    decreases toks.len(),
{
    if toks.len() == 0 {
        Seq::empty()
    } else {
        record_token(stats_of(toks.drop_last()), toks.last())
    }
}

/// A sequence without a repeated element.
pub open spec fn distinct_seqs(vs: Seq<Seq<char>>) -> bool {
    forall|a: int, b: int| 0 <= a < b < vs.len() ==> vs[a] != vs[b]
}

/// Well-formed analysis entries: no key occurs twice, and no entry
/// records the same surface form twice.
pub open spec fn stats_wf(m: Seq<EntryModel>) -> bool {
    &&& forall|i: int, j: int| 0 <= i < j < m.len() ==> m[i].key != m[j].key
    &&& forall|i: int| 0 <= i < m.len() ==> distinct_seqs((#[trigger] m[i]).variants)
}

/// Law: whatever the words, the analysis holds each key once, and
/// each key's variant list holds each surface form once.
pub proof fn lemma_stats_of_wf(toks: Seq<Seq<char>>)
    ensures
        stats_wf(stats_of(toks)),
    decreases toks.len(),
{
    if toks.len() == 0 {
    } else {
        lemma_stats_of_wf(toks.drop_last());
        let m = stats_of(toks.drop_last());
        let tok = toks.last();
        let key = lower_of(tok);
        lemma_find_key(m, key);
        let i = find_key(m, key);
        let r = stats_of(toks);
        if i < 0 {
            assert(r == m.push(EntryModel { key, count: 1, variants: seq![tok] }));
            assert(forall|j: int| 0 <= j < m.len() ==> r[j] == m[j]);
            assert(distinct_seqs(seq![tok]));
        } else {
            let e = m[i];
            let vs = if e.variants.contains(tok) {
                e.variants
            } else {
                e.variants.push(tok)
            };
            assert(r == m.update(i, EntryModel { key, count: e.count + 1, variants: vs }));
            assert(distinct_seqs(vs)) by {
                if !e.variants.contains(tok) {
                    assert(forall|a: int|
                        0 <= a < e.variants.len() ==> e.variants[a] != tok);
                    assert(forall|a: int| 0 <= a < vs.len() - 1 ==> vs[a] == e.variants[a]);
                    assert(vs.last() == tok);
                }
            }
            assert(r[i].key == e.key);
            assert(forall|j: int| 0 <= j < m.len() && j != i ==> r[j] == m[j]);
        }
    }
}

/// One counted word: its folded key, its occurrence count, and its
/// distinct surface forms in first-seen order.
pub struct WordEntry {
    pub key: String,
    pub count: usize,
    pub variants: Vec<String>,
}

impl View for WordEntry {
    type V = EntryModel;

    open spec fn view(&self) -> EntryModel {
        EntryModel {
            key: self.key@,
            count: self.count as int,
            variants: self.variants.deep_view(),
        }
    }
}

impl DeepView for WordEntry {
    type V = EntryModel;

    open spec fn deep_view(&self) -> EntryModel {
        self.view()
    }
}

/// The outcome of one analysis: the counted words in the order their
/// keys were first seen.
pub struct TextStatistics {
    pub entries: Vec<WordEntry>,
}

impl View for TextStatistics {
    type V = Seq<EntryModel>;

    open spec fn view(&self) -> Seq<EntryModel> {
        Seq::new(self.entries.len() as nat, |i: int| self.entries[i]@)
    }
}

/// Count the words of `text`: one entry per folded key, in first-seen
/// order, with the occurrence count and the distinct surface forms of
/// the key.
pub fn word_count(text: String) -> (r: TextStatistics)
    ensures
        r@ == stats_of(tokens(text@)),
{
    let cs = str_chars(text.as_str());
    let toks = scan_tokens(&cs);
    let ghost tokseq = toks.deep_view();
    let mut entries: Vec<WordEntry> = Vec::new();
    let n = toks.len();
    let mut t: usize = 0;
    while t < n
        invariant
            n == toks.len(),
            tokseq == toks.deep_view(),
            tokseq == tokens(text@),
            t <= n,
            Seq::new(entries.len() as nat, |i: int| entries[i]@) == stats_of(
                tokseq.take(t as int),
            ),
            forall|k: int| 0 <= k < entries.len() ==> (#[trigger] entries[k]).count <= t,
        decreases n - t,
    {
        let ghost m0 = Seq::new(entries.len() as nat, |i: int| entries[i]@);
        let tok = &toks[t];
        proof {
            assert(tok@ == tokseq[t as int]);
        }
        let key = lowercase(tok.as_str());
        let idx = find_entry(&entries, &key);
        match idx {
            Some(i) => {
                proof {
                    lemma_find_key_is(m0, key@, i as int);
                }
                let e = entries.remove(i);
                let mut vs = e.variants;
                let ghost evs = vs.deep_view();
                if !vec_contains_string(&vs, tok) {
                    vs.push(tok.clone());
                    proof {
                        assert(vs.deep_view() =~= evs.push(tokseq[t as int]));
                    }
                }
                let ne = WordEntry { key: e.key, count: e.count + 1, variants: vs };
                entries.insert(i, ne);
                proof {
                    let m1 = Seq::new(entries.len() as nat, |k: int| entries[k]@);
                    assert(m1 =~= record_token(m0, tokseq[t as int]));
                }
            },
            None => {
                proof {
                    lemma_find_key(m0, key@);
                }
                let mut vs: Vec<String> = Vec::new();
                vs.push(tok.clone());
                entries.push(WordEntry { key, count: 1, variants: vs });
                proof {
                    assert(vs.deep_view() =~= seq![tokseq[t as int]]);
                    let m1 = Seq::new(entries.len() as nat, |k: int| entries[k]@);
                    assert(m1 =~= record_token(m0, tokseq[t as int]));
                }
            },
        }
        proof {
            assert(tokseq.take(t + 1).drop_last() =~= tokseq.take(t as int));
            assert(tokseq.take(t + 1).last() == tokseq[t as int]);
        }
        t = t + 1;
    }
    proof {
        assert(tokseq.take(n as int) =~= tokseq);
    }
    TextStatistics { entries }
}

/// Index of the entry whose key holds the characters of `key`, or
/// `None` if no entry's key does.
fn find_entry(entries: &Vec<WordEntry>, key: &String) -> (r: Option<usize>)
    ensures
        ({
            let m = Seq::new(entries.len() as nat, |i: int| entries[i]@);
            match r {
                Some(i) => i < entries.len() && m[i as int].key == key@ && (forall|j: int|
                    0 <= j < i ==> m[j].key != key@),
                None => forall|j: int| 0 <= j < entries.len() ==> m[j].key != key@,
            }
        }),
{
    let ghost m = Seq::new(entries.len() as nat, |i: int| entries[i]@);
    let mut i: usize = 0;
    while i < entries.len()
        invariant
            m == Seq::new(entries.len() as nat, |k: int| entries[k]@),
            i <= entries.len(),
            forall|j: int| 0 <= j < i ==> m[j].key != key@,
        decreases entries.len() - i,
    {
        if entries[i].key.eq(key) {
            assert(m[i as int].key == key@);
            return Some(i);
        }
        assert(m[i as int].key != key@);
        i = i + 1;
    }
    None
}

/// Concatenate the paragraphs of a page in order and count the words
/// of the whole.
pub fn word_analysis(paragraphs: &Vec<String>) -> (r: TextStatistics)
    ensures
        r@ == stats_of(tokens(paragraphs.deep_view().flatten())),
{
    broadcast use Seq::lemma_flatten_push;

    let ghost ps = paragraphs.deep_view();
    let mut body = String::new();
    let mut i: usize = 0;
    while i < paragraphs.len()
        invariant
            ps == paragraphs.deep_view(),
            i <= paragraphs.len(),
            body@ == ps.take(i as int).flatten(),
        decreases paragraphs.len() - i,
    {
        proof {
            assert(paragraphs[i as int]@ == ps[i as int]);
            assert(ps.take(i + 1).drop_last() =~= ps.take(i as int));
            assert(ps.take(i + 1) == ps.take(i as int).push(ps[i as int]));
        }
        body.append(paragraphs[i].as_str());
        proof {
            ps.take(i as int).lemma_flatten_push(ps[i as int]);
        }
        assert(body@ == ps.take(i + 1).flatten());
        i = i + 1;
    }
    proof {
        assert(ps.take(paragraphs.len() as int) =~= ps);
    }
    word_count(body)
}

} // verus!
