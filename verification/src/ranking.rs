//! Ranking of counted words.
//!
//! The entries of an analysis are sorted by occurrence count,
//! descending, with a stable sort: entries of equal count keep the
//! order in which their keys were first seen.  The ranked list is
//! then cut down to the requested number of entries.

use vstd::prelude::*;
use vstd::seq_lib::lemma_multiset_commutative;
use crate::words::EntryModel;
use crate::words::TextStatistics;
use crate::words::WordEntry;

verus! {

/// Counts never rise along the sequence.
pub open spec fn sorted_desc(s: Seq<EntryModel>) -> bool {
    forall|i: int, j: int| 0 <= i <= j < s.len() ==> s[i].count >= s[j].count
}

/// Insert `e` behind every entry whose count is at least `e.count`;
/// the insertion step of a stable descending insertion sort.
pub open spec fn insert_desc(s: Seq<EntryModel>, e: EntryModel) -> Seq<EntryModel>
    decreases s.len(),
{
    if s.len() == 0 {
        seq![e]
    } else if s.first().count >= e.count {
        seq![s.first()] + insert_desc(s.drop_first(), e)
    } else {
        seq![e] + s
    }
}

/// Where `insert_desc` puts the new entry: right behind the entries
/// whose count is at least as large.
pub open spec fn insert_pos(s: Seq<EntryModel>, e: EntryModel) -> int
    decreases s.len(),
{
    if s.len() == 0 {
        0
    } else if s.first().count >= e.count {
        1 + insert_pos(s.drop_first(), e)
    } else {
        0
    }
}

/// The stable descending sort of a sequence of entries, by count.
pub open spec fn sort_desc(s: Seq<EntryModel>) -> Seq<EntryModel>
    decreases s.len(),
{
    if s.len() == 0 {
        Seq::empty()
    } else {
        insert_desc(sort_desc(s.drop_last()), s.last())
    }
}

/// The entries whose count is `c`.
pub open spec fn count_is(c: int) -> spec_fn(EntryModel) -> bool {
    |x: EntryModel| x.count == c
}

/// `insert_desc` puts `e` at `insert_pos`, which lies behind the
/// entries with a count at least `e.count` and before the first entry
/// with a smaller count.
proof fn lemma_insert_desc_is(s: Seq<EntryModel>, e: EntryModel)
    ensures
        0 <= insert_pos(s, e) <= s.len(),
        forall|j: int| 0 <= j < insert_pos(s, e) ==> s[j].count >= e.count,
        insert_pos(s, e) < s.len() ==> s[insert_pos(s, e)].count < e.count,
        insert_desc(s, e) == s.insert(insert_pos(s, e), e),
    decreases s.len(),
{
    if s.len() == 0 {
        assert(insert_desc(s, e) =~= s.insert(0, e));
    } else if s.first().count >= e.count {
        lemma_insert_desc_is(s.drop_first(), e);
        let p = insert_pos(s.drop_first(), e);
        assert(forall|j: int|
            0 <= j < s.drop_first().len() ==> s.drop_first()[j] == s[j + 1]);
        assert forall|j: int| 0 <= j < p + 1 implies s[j].count >= e.count by {
            if j > 0 {
                assert(s.drop_first()[j - 1].count >= e.count);
            }
        }
        assert(insert_desc(s, e) =~= s.insert(p + 1, e));
    } else {
        assert(insert_desc(s, e) =~= s.insert(0, e));
    }
}

/// Inserting into a sorted sequence at the stable position keeps it
/// sorted.
proof fn lemma_insert_desc_sorted(s: Seq<EntryModel>, e: EntryModel)
    requires
        sorted_desc(s),
    ensures
        sorted_desc(insert_desc(s, e)),
{
    lemma_insert_desc_is(s, e);
    let p = insert_pos(s, e);
    s.insert_ensures(p, e);
    let r = insert_desc(s, e);
    assert forall|i: int, j: int| 0 <= i <= j < r.len() implies r[i].count >= r[j].count by {
        if i < p && j < p {
        } else if i == p || j == p {
            if i < p {
                assert(r[i] == s[i]);
            }
            if j > p {
                assert(r[j] == s[j - 1]);
                assert(s[p].count >= s[j - 1].count);
            }
        } else if i > p && j > p {
            assert(r[i] == s[i - 1] && r[j] == s[j - 1]);
        } else {
            assert(i < p && j > p);
            assert(r[i] == s[i] && r[j] == s[j - 1]);
            assert(s[i].count >= e.count);
            assert(s[p].count < e.count);
            assert(s[p].count >= s[j - 1].count);
        }
    }
}

/// Inserting anywhere adds exactly one occurrence of the entry to the
/// sequence's multiset of entries.
proof fn lemma_insert_multiset(s: Seq<EntryModel>, k: int, e: EntryModel)
    requires
        0 <= k <= s.len(),
    ensures
        s.insert(k, e).to_multiset() == s.push(e).to_multiset(),
{
    let a = s.subrange(0, k);
    let b = s.subrange(k, s.len() as int);
    assert(s.insert(k, e) == a.push(e) + b);
    assert(a.push(e) =~= a + seq![e]);
    assert(s.insert(k, e) =~= (a + seq![e]) + b);
    lemma_multiset_commutative(a + seq![e], b);
    lemma_multiset_commutative(a, seq![e]);
    assert(s =~= a + b);
    lemma_multiset_commutative(a, b);
    assert(s.push(e) =~= (a + b) + seq![e]);
    lemma_multiset_commutative(a + b, seq![e]);
    assert(s.insert(k, e).to_multiset() =~= s.push(e).to_multiset());
}

/// Law: ranking only reorders; the sorted sequence holds exactly the
/// entries of the input, down to multiplicity.
pub proof fn lemma_sort_desc_permutes(s: Seq<EntryModel>)
    ensures
        sort_desc(s).to_multiset() == s.to_multiset(),
    decreases s.len(),
{
    broadcast use vstd::seq_lib::group_to_multiset_ensures;

    if s.len() == 0 {
    } else {
        let s0 = s.drop_last();
        let sd = sort_desc(s0);
        lemma_sort_desc_permutes(s0);
        lemma_insert_desc_is(sd, s.last());
        lemma_insert_multiset(sd, insert_pos(sd, s.last()), s.last());
        assert(s0.push(s.last()) =~= s);
        assert(sd.push(s.last()).to_multiset() =~= s0.push(s.last()).to_multiset());
    }
}

/// Law: ranking sorts the entries by count, descending.
pub proof fn lemma_sort_desc_sorted(s: Seq<EntryModel>)
    ensures
        sorted_desc(sort_desc(s)),
    decreases s.len(),
{
    if s.len() == 0 {
    } else {
        lemma_sort_desc_sorted(s.drop_last());
        lemma_insert_desc_sorted(sort_desc(s.drop_last()), s.last());
    }
}

/// A sequence with no entry of count `c` filters down to nothing.
proof fn lemma_filter_count_none(s: Seq<EntryModel>, c: int)
    requires
        forall|j: int| 0 <= j < s.len() ==> s[j].count != c,
    ensures
        s.filter(count_is(c)) == Seq::<EntryModel>::empty(),
    decreases s.len(),
{
    reveal(Seq::filter);
    if s.len() == 0 {
    } else {
        lemma_filter_count_none(s.drop_last(), c);
    }
}

/// The stable insertion of `e` leaves each count class in the same
/// order as appending `e` at the end would.
proof fn lemma_insert_desc_filter(s: Seq<EntryModel>, e: EntryModel, c: int)
    requires
        sorted_desc(s),
    ensures
        insert_desc(s, e).filter(count_is(c)) == s.push(e).filter(count_is(c)),
{
    broadcast use Seq::filter_distributes_over_add;

    reveal(Seq::filter);
    lemma_insert_desc_is(s, e);
    let p = insert_pos(s, e);
    let a = s.subrange(0, p);
    let b = s.subrange(p, s.len() as int);
    let pc = count_is(c);
    assert(s.insert(p, e) =~= (a + seq![e]) + b);
    assert(s.push(e) =~= (a + b) + seq![e]);
    assert(insert_desc(s, e).filter(pc) == (a.filter(pc) + seq![e].filter(pc)) + b.filter(pc));
    assert(s.push(e).filter(pc) == (a.filter(pc) + b.filter(pc)) + seq![e].filter(pc));
    if c == e.count {
        assert(forall|j: int| 0 <= j < b.len() ==> b[j].count != c) by {
            assert(forall|j: int| 0 <= j < b.len() ==> b[j] == s[p + j]);
        }
        lemma_filter_count_none(b, c);
        assert((a.filter(pc) + seq![e].filter(pc)) + b.filter(pc) =~= (a.filter(pc) + b.filter(
            pc,
        )) + seq![e].filter(pc));
    } else {
        assert(seq![e].filter(pc) =~= Seq::<EntryModel>::empty()) by {
            reveal_with_fuel(Seq::<_>::filter, 3);
            assert(seq![e].drop_last() =~= Seq::<EntryModel>::empty());
        }
        assert((a.filter(pc) + seq![e].filter(pc)) + b.filter(pc) =~= (a.filter(pc) + b.filter(
            pc,
        )) + seq![e].filter(pc));
    }
}

/// Stability for one count class.
proof fn lemma_sort_desc_stable_at(s: Seq<EntryModel>, c: int)
    ensures
        sort_desc(s).filter(count_is(c)) == s.filter(count_is(c)),
    decreases s.len(),
{
    broadcast use Seq::filter_distributes_over_add;

    reveal(Seq::filter);
    if s.len() == 0 {
    } else {
        let s0 = s.drop_last();
        let sd = sort_desc(s0);
        let pc = count_is(c);
        lemma_sort_desc_stable_at(s0, c);
        lemma_sort_desc_sorted(s0);
        lemma_insert_desc_filter(sd, s.last(), c);
        assert(sd.push(s.last()) =~= sd + seq![s.last()]);
        assert(sd.push(s.last()).filter(pc) == sd.filter(pc) + seq![s.last()].filter(pc));
        assert(s =~= s0 + seq![s.last()]);
        assert(s.filter(pc) == s0.filter(pc) + seq![s.last()].filter(pc));
    }
}

/// Law: the sort is stable.  Entries of equal count stand in the
/// sorted sequence in the same relative order as in the input.
pub proof fn lemma_sort_desc_stable(s: Seq<EntryModel>)
    ensures
        forall|c: int| #[trigger] sort_desc(s).filter(count_is(c)) == s.filter(count_is(c)),
{
    assert forall|c: int| #[trigger]
        sort_desc(s).filter(count_is(c)) == s.filter(count_is(c)) by {
        lemma_sort_desc_stable_at(s, c);
    }
}

/// A field-by-field copy of one entry.
fn clone_entry(e: &WordEntry) -> (r: WordEntry)
    ensures
        r@ == e@,
{
    let mut variants: Vec<String> = Vec::new();
    let mut i: usize = 0;
    while i < e.variants.len()
        invariant
            i <= e.variants.len(),
            variants@.len() == i,
            forall|j: int| 0 <= j < i ==> variants@[j] == e.variants@[j],
        decreases e.variants.len() - i,
    {
        variants.push(e.variants[i].clone());
        i = i + 1;
    }
    assert(variants@ =~= e.variants@);
    assert(variants.deep_view() =~= e.variants.deep_view());
    WordEntry { key: e.key.clone(), count: e.count, variants }
}

/// The `n` highest-counted entries of an analysis, stably sorted by
/// count, descending; all of them if the analysis holds fewer than
/// `n`.
pub fn top_n_entries(stats: &TextStatistics, n: usize) -> (r: Vec<WordEntry>)
    ensures
        r.deep_view() == sort_desc(stats@).take(
            if n as int <= stats@.len() {
                n as int
            } else {
                stats@.len() as int
            },
        ),
{
    let ghost m = stats@;
    let mut sorted: Vec<WordEntry> = Vec::new();
    let len = stats.entries.len();
    let mut t: usize = 0;
    while t < len
        invariant
            len == stats.entries.len(),
            m == stats@,
            t <= len,
            sorted.len() == t,
            sorted.deep_view() == sort_desc(m.take(t as int)),
        decreases len - t,
    {
        let e = clone_entry(&stats.entries[t]);
        proof {
            assert(e@ == m[t as int]);
        }
        let ghost s0 = sorted.deep_view();
        let mut k: usize = 0;
        while k < sorted.len() && sorted[k].count >= e.count
            invariant
                s0 == sorted.deep_view(),
                k <= sorted.len(),
                forall|j: int| 0 <= j < k ==> s0[j].count >= e@.count,
            decreases sorted.len() - k,
        {
            assert(s0[k as int] == sorted@[k as int]@);
            k = k + 1;
        }
        proof {
            if k < sorted.len() {
                assert(s0[k as int] == sorted@[k as int]@);
                assert(s0[k as int].count < e@.count);
            }
        }
        sorted.insert(k, e);
        proof {
            lemma_insert_desc_is(s0, e@);
            let p = insert_pos(s0, e@);
            if p < k as int {
                assert(s0[p].count >= e@.count);
                assert(false);
            }
            if (k as int) < p {
                assert(s0[k as int].count >= e@.count);
                assert(false);
            }
            assert(sorted.deep_view() =~= s0.insert(k as int, e@));
            assert(sorted.deep_view() == insert_desc(s0, e@));
            assert(m.take(t + 1).drop_last() =~= m.take(t as int));
            assert(m.take(t + 1).last() == m[t as int]);
            assert(sorted.deep_view() == sort_desc(m.take(t + 1)));
        }
        t = t + 1;
    }
    proof {
        assert(m.take(len as int) =~= m);
    }
    let ghost full = sorted.deep_view();
    sorted.truncate(n);
    proof {
        if n <= full.len() {
            assert(sorted.deep_view() =~= full.take(n as int));
        } else {
            assert(sorted.deep_view() =~= full.take(full.len() as int));
        }
    }
    sorted
}

} // verus!
