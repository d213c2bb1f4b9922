//! Frequency maps: association lists of words and counts, with their
//! map model, word-frequency counting, phrase counting, and the merge
//! operations whose order-independence the reporting relies on.

use vstd::prelude::*;
use crate::chapters::{count_phrase, phrase_count};
use crate::strutil::str_equal;

verus! {

/// A document's file-level frequency map: one count per word.
pub struct DocFreq {
    pub name: String,
    pub counts: Vec<(String, usize)>,
}

/// A document's chapter-level frequency maps, in chapter order.
pub struct DocChapterFreqs {
    pub name: String,
    pub chapters: Vec<Vec<(String, usize)>>,
}

/// No two entries share a key.
pub open spec fn distinct_keys(entries: Seq<(Seq<char>, usize)>) -> bool {
    forall|i: int, j: int| 0 <= i < j < entries.len() ==> entries[i].0 != entries[j].0
}

/// The map an entry list stands for; a later entry wins over an earlier
/// one with the same key.
pub open spec fn as_map(entries: Seq<(Seq<char>, usize)>) -> Map<Seq<char>, int>
    decreases entries.len(),
{
    if entries.len() == 0 {
        Map::empty()
    } else {
        as_map(entries.drop_last()).insert(entries.last().0, entries.last().1 as int)
    }
}

/// The sum of all counts in an entry list.
pub open spec fn total_count(entries: Seq<(Seq<char>, usize)>) -> int
    decreases entries.len(),
{
    if entries.len() == 0 {
        0int
    } else {
        total_count(entries.drop_last()) + entries.last().1 as int
    }
}

/// The word counts of a token stream: each token bumps its own count.
pub open spec fn count_map(tokens: Seq<Seq<char>>) -> Map<Seq<char>, int>
    decreases tokens.len(),
{
    if tokens.len() == 0 {
        Map::empty()
    } else {
        let m = count_map(tokens.drop_last());
        let w = tokens.last();
        m.insert(w, (if m.contains_key(w) { m[w] } else { 0 }) + 1)
    }
}

/// A key is in the map exactly when some entry holds it.
pub proof fn lemma_as_map_contains(entries: Seq<(Seq<char>, usize)>, w: Seq<char>)
    ensures
        as_map(entries).contains_key(w) <==> exists|i: int|
            0 <= i < entries.len() && entries[i].0 == w,
    decreases entries.len(),
{
    if entries.len() > 0 {
        lemma_as_map_contains(entries.drop_last(), w);
        if entries.last().0 == w {
            assert(entries[entries.len() - 1].0 == w);
        } else if as_map(entries).contains_key(w) {
            let i = choose|i: int| 0 <= i < entries.drop_last().len() && entries.drop_last()[i].0
                == w;
            assert(entries[i].0 == w);
        } else {
            if exists|i: int| 0 <= i < entries.len() && entries[i].0 == w {
                let i = choose|i: int| 0 <= i < entries.len() && entries[i].0 == w;
                assert(entries.drop_last()[i].0 == w);
            }
        }
    }
}

/// With distinct keys, the entry at `i` gives the map's value at its key.
pub proof fn lemma_as_map_index(entries: Seq<(Seq<char>, usize)>, i: int)
    requires
        distinct_keys(entries),
        0 <= i < entries.len(),
    ensures
        as_map(entries).contains_key(entries[i].0),
        as_map(entries)[entries[i].0] == entries[i].1 as int,
    decreases entries.len(),
{
    if i == entries.len() - 1 {
    } else {
        assert(distinct_keys(entries.drop_last()));
        assert(entries.drop_last()[i] == entries[i]);
        lemma_as_map_index(entries.drop_last(), i);
        assert(entries[i].0 != entries.last().0);
    }
}

/// Every count is at most the total.
pub proof fn lemma_value_le_total(entries: Seq<(Seq<char>, usize)>, i: int)
    requires
        0 <= i < entries.len(),
    ensures
        entries[i].1 as int <= total_count(entries),
    decreases entries.len(),
{
    lemma_total_count_nonneg(entries.drop_last());
    if i < entries.len() - 1 {
        assert(entries.drop_last()[i] == entries[i]);
        lemma_value_le_total(entries.drop_last(), i);
    }
}

/// The total is never negative.
pub proof fn lemma_total_count_nonneg(entries: Seq<(Seq<char>, usize)>)
    ensures
        total_count(entries) >= 0,
    decreases entries.len(),
{
    if entries.len() > 0 {
        lemma_total_count_nonneg(entries.drop_last());
    }
}

/// Updating the entry at `i` updates the map at its key.
pub(crate) proof fn lemma_as_map_update(entries: Seq<(Seq<char>, usize)>, i: int, v: usize)
    requires
        distinct_keys(entries),
        0 <= i < entries.len(),
    ensures
        as_map(entries.update(i, (entries[i].0, v))) =~= as_map(entries).insert(
            entries[i].0,
            v as int,
        ),
        distinct_keys(entries.update(i, (entries[i].0, v))),
        total_count(entries.update(i, (entries[i].0, v))) == total_count(entries)
            - entries[i].1 as int + v as int,
    decreases entries.len(),
{
    let updated = entries.update(i, (entries[i].0, v));
    if i == entries.len() - 1 {
        assert(updated.drop_last() =~= entries.drop_last());
    } else {
        assert(distinct_keys(entries.drop_last()));
        assert(entries.drop_last()[i] == entries[i]);
        lemma_as_map_update(entries.drop_last(), i, v);
        assert(updated.drop_last() =~= entries.drop_last().update(i, (entries[i].0, v)));
        assert(updated.last() == entries.last());
        assert(entries[i].0 != entries.last().0);
        assert(as_map(updated) =~= as_map(entries).insert(entries[i].0, v as int));
    }
}

/// The index of the entry whose key is `w`, if there is one.
pub(crate) fn find_key(es: &Vec<(String, usize)>, w: &str) -> (r: Option<usize>)
    ensures
        match r {
            Some(i) => i < es@.len() && es.deep_view()[i as int].0 == w@,
            None => forall|i: int| 0 <= i < es@.len() ==> es.deep_view()[i].0 != w@,
        },
{
    let mut i: usize = 0;
    while i < es.len()
        invariant
            i <= es@.len(),
            forall|k: int| 0 <= k < i ==> es.deep_view()[k].0 != w@,
        decreases es@.len() - i,
    {
        if str_equal(es[i].0.as_str(), w) {
            return Some(i);
        }
        i = i + 1;
    }
    None
}

/// Looks a word up in an entry list.
pub fn lookup_count(es: &Vec<(String, usize)>, w: &str) -> (r: Option<usize>)
    requires
        distinct_keys(es.deep_view()),
    ensures
        match r {
            Some(v) => as_map(es.deep_view()).contains_key(w@) && as_map(es.deep_view())[w@]
                == v as int,
            None => !as_map(es.deep_view()).contains_key(w@),
        },
{
    let r = find_key(es, w);
    match r {
        Some(i) => {
            proof {
                lemma_as_map_index(es.deep_view(), i as int);
            }
            Some(es[i].1)
        },
        None => {
            proof {
                lemma_as_map_contains(es.deep_view(), w@);
            }
            None
        },
    }
}

/// The word counts of `words`: one entry per distinct word, counts
/// summing to the number of words.
pub fn word_frequency(words: &Vec<String>) -> (r: Vec<(String, usize)>)
    ensures
        distinct_keys(r.deep_view()),
        as_map(r.deep_view()) == count_map(words.deep_view()),
        total_count(r.deep_view()) == words.deep_view().len(),
{
    let ghost toks = words.deep_view();
    let mut es: Vec<(String, usize)> = Vec::new();
    let mut t: usize = 0;
    proof {
        assert(es.deep_view() =~= Seq::<(Seq<char>, usize)>::empty());
        assert(as_map(es.deep_view()) =~= count_map(toks.take(0)));
    }
    while t < words.len()
        invariant
            t <= toks.len(),
            words.deep_view() == toks,
            words@.len() == toks.len(),
            distinct_keys(es.deep_view()),
            as_map(es.deep_view()) == count_map(toks.take(t as int)),
            total_count(es.deep_view()) == t as int,
        decreases toks.len() - t,
    {
        let w = &words[t];
        proof {
            assert(toks.take(t + 1).drop_last() =~= toks.take(t as int));
            assert(toks.take(t + 1).last() == toks[t as int]);
            assert(w@ == toks[t as int]);
        }
        let found = find_key(&es, w.as_str());
        match found {
            Some(i) => {
                proof {
                    lemma_as_map_index(es.deep_view(), i as int);
                    lemma_value_le_total(es.deep_view(), i as int);
                }
                let c = es[i].1;
                let ghost old_es = es.deep_view();
                let (k, _) = es.remove(i);
                es.insert(i, (k, c + 1));
                proof {
                    assert(es.deep_view() =~= old_es.update(i as int, (old_es[i as int].0, (c
                        + 1) as usize)));
                    lemma_as_map_update(old_es, i as int, (c + 1) as usize);
                    lemma_as_map_contains(old_es, w@);
                    assert(as_map(es.deep_view()) =~= count_map(toks.take(t + 1)));
                }
            },
            None => {
                proof {
                    lemma_as_map_contains(es.deep_view(), w@);
                }
                let ghost old_es = es.deep_view();
                let key = w.clone();
                es.push((key, 1));
                proof {
                    assert(es.deep_view() =~= old_es.push((w@, 1usize)));
                    assert(es.deep_view().drop_last() =~= old_es);
                    assert(forall|k: int|
                        0 <= k < old_es.len() ==> es.deep_view()[k] == old_es[k]);
                    assert(distinct_keys(es.deep_view()));
                    assert(as_map(es.deep_view()) =~= count_map(toks.take(t + 1)));
                }
            },
        }
        t = t + 1;
    }
    proof {
        assert(toks.take(toks.len() as int) =~= toks);
    }
    es
}

/// One entry per phrase, in phrase-list order: the phrase and how often
/// it occurs in `text` as a raw, non-overlapping substring.  A phrase
/// that never occurs gets an explicit zero entry.
pub fn phrase_frequency(text: &str, phrases: &Vec<String>) -> (r: Vec<(String, usize)>)
    requires
        text@.len() < usize::MAX,
    ensures
        r@.len() == phrases@.len(),
        forall|j: int|
            0 <= j < r@.len() ==> r.deep_view()[j].0 == phrases.deep_view()[j]
                && r.deep_view()[j].1 as int == phrase_count(text@, phrases.deep_view()[j]),
{
    let mut out: Vec<(String, usize)> = Vec::new();
    let mut j: usize = 0;
    while j < phrases.len()
        invariant
            j <= phrases@.len(),
            text@.len() < usize::MAX,
            out@.len() == j,
            forall|k: int|
                0 <= k < j ==> out.deep_view()[k].0 == phrases.deep_view()[k]
                    && out.deep_view()[k].1 as int == phrase_count(text@, phrases.deep_view()[k]),
        decreases phrases@.len() - j,
    {
        let p = &phrases[j];
        let c = count_phrase(text, p.as_str());
        let key = p.clone();
        out.push((key, c));
        j = j + 1;
    }
    out
}

/// The value of `m` at `k`, or zero when `k` is absent.
pub open spec fn value_or_zero(m: Map<Seq<char>, int>, k: Seq<char>) -> int {
    if m.contains_key(k) {
        m[k]
    } else {
        0
    }
}

/// The keywise sum of two maps, over the union of their keys.
pub open spec fn sum_maps(m1: Map<Seq<char>, int>, m2: Map<Seq<char>, int>) -> Map<
    Seq<char>,
    int,
> {
    Map::new(
        |k: Seq<char>| m1.contains_key(k) || m2.contains_key(k),
        |k: Seq<char>| value_or_zero(m1, k) + value_or_zero(m2, k),
    )
}

/// Summing frequency maps is commutative.
pub proof fn lemma_sum_maps_commutative(m1: Map<Seq<char>, int>, m2: Map<Seq<char>, int>)
    ensures
        sum_maps(m1, m2) =~= sum_maps(m2, m1),
{
}

/// Summing frequency maps is associative.
pub proof fn lemma_sum_maps_associative(
    m1: Map<Seq<char>, int>,
    m2: Map<Seq<char>, int>,
    m3: Map<Seq<char>, int>,
)
    ensures
        sum_maps(sum_maps(m1, m2), m3) =~= sum_maps(m1, sum_maps(m2, m3)),
{
}

/// The total of an entry list, peeled from the front.
proof fn lemma_total_first_peel(es: Seq<(Seq<char>, usize)>)
    requires
        es.len() > 0,
    ensures
        total_count(es) == es[0].1 as int + total_count(es.drop_first()),
    decreases es.len(),
{
    if es.len() == 1 {
        assert(es.drop_first() =~= Seq::<(Seq<char>, usize)>::empty());
        assert(es.drop_last() =~= Seq::<(Seq<char>, usize)>::empty());
        assert(total_count(Seq::<(Seq<char>, usize)>::empty()) == 0);
        assert(es.last() == es[0]);
        assert(total_count(es) == total_count(es.drop_last()) + es.last().1 as int);
    } else {
        lemma_total_first_peel(es.drop_last());
        assert(es.drop_first().drop_last() =~= es.drop_last().drop_first());
        assert(es.drop_last()[0] == es[0]);
        assert(es.drop_first().last() == es.last());
        assert(total_count(es) == total_count(es.drop_last()) + es.last().1 as int);
        assert(total_count(es.drop_first()) == total_count(es.drop_first().drop_last())
            + es.drop_first().last().1 as int);
        assert(total_count(es.drop_last()) == es[0].1 as int + total_count(
            es.drop_last().drop_first(),
        ));
    }
}

/// The keywise sum of `a` and `b`: every key of either side appears,
/// with the two counts added.
pub fn merge_counts(a: Vec<(String, usize)>, b: &Vec<(String, usize)>) -> (r: Vec<(String, usize)>)
    requires
        distinct_keys(a.deep_view()),
        distinct_keys(b.deep_view()),
        total_count(a.deep_view()) + total_count(b.deep_view()) <= usize::MAX,
    ensures
        distinct_keys(r.deep_view()),
        as_map(r.deep_view()) == sum_maps(as_map(a.deep_view()), as_map(b.deep_view())),
        total_count(r.deep_view()) == total_count(a.deep_view()) + total_count(b.deep_view()),
{
    let ghost am = as_map(a.deep_view());
    let ghost bs = b.deep_view();
    let ghost grand = total_count(a.deep_view()) + total_count(bs);
    let mut es = a;
    let mut j: usize = 0;
    proof {
        assert(bs.take(0) =~= Seq::<(Seq<char>, usize)>::empty());
        assert(bs.skip(0) =~= bs);
        assert(as_map(es.deep_view()) =~= sum_maps(am, as_map(bs.take(0))));
    }
    while j < b.len()
        invariant
            j <= bs.len(),
            b.deep_view() == bs,
            b@.len() == bs.len(),
            distinct_keys(bs),
            distinct_keys(es.deep_view()),
            as_map(es.deep_view()) == sum_maps(am, as_map(bs.take(j as int))),
            total_count(es.deep_view()) + total_count(bs.skip(j as int)) == grand,
            grand <= usize::MAX,
        decreases bs.len() - j,
    {
        let ghost pre = es.deep_view();
        let ghost mj = as_map(bs.take(j as int));
        let v = b[j].1;
        let w = &b[j].0;
        proof {
            assert(bs.take(j + 1).drop_last() =~= bs.take(j as int));
            assert(bs.take(j + 1).last() == bs[j as int]);
            assert(as_map(bs.take(j + 1)) == mj.insert(bs[j as int].0, v as int));
            lemma_as_map_contains(bs.take(j as int), bs[j as int].0);
            assert(forall|i: int|
                0 <= i < j ==> bs.take(j as int)[i] == bs[i] && bs[i].0 != bs[j as int].0);
            assert(!mj.contains_key(bs[j as int].0));
            assert(bs.skip(j as int)[0] == bs[j as int]);
            lemma_total_first_peel(bs.skip(j as int));
            assert(bs.skip(j as int).drop_first() =~= bs.skip(j + 1));
            lemma_total_count_nonneg(bs.skip(j + 1));
        }
        let found = find_key(&es, w.as_str());
        match found {
            Some(i) => {
                proof {
                    lemma_as_map_index(pre, i as int);
                    lemma_value_le_total(pre, i as int);
                }
                let c = es[i].1;
                let (k, _) = es.remove(i);
                es.insert(i, (k, c + v));
                proof {
                    assert(es.deep_view() =~= pre.update(i as int, (pre[i as int].0, (c
                        + v) as usize)));
                    lemma_as_map_update(pre, i as int, (c + v) as usize);
                    assert(value_or_zero(mj, w@) == 0);
                    assert(c as int == value_or_zero(am, w@));
                    assert(as_map(es.deep_view()) =~= sum_maps(am, as_map(bs.take(j + 1))));
                }
            },
            None => {
                proof {
                    lemma_as_map_contains(pre, w@);
                    assert(!as_map(pre).contains_key(w@));
                    assert(!am.contains_key(w@));
                }
                let key = w.clone();
                es.push((key, v));
                proof {
                    assert(es.deep_view() =~= pre.push((w@, v)));
                    assert(es.deep_view().drop_last() =~= pre);
                    assert(forall|k: int| 0 <= k < pre.len() ==> es.deep_view()[k] == pre[k]);
                    assert(distinct_keys(es.deep_view()));
                    assert(value_or_zero(am, w@) == 0);
                    assert(as_map(es.deep_view()) =~= sum_maps(am, as_map(bs.take(j + 1))));
                }
            },
        }
        j = j + 1;
    }
    proof {
        assert(bs.take(bs.len() as int) =~= bs);
        assert(bs.skip(bs.len() as int) =~= Seq::<(Seq<char>, usize)>::empty());
    }
    es
}

/// `a` with every entry of `b` written over it: a key of `b` takes the
/// count `b` gives it, every other key of `a` keeps its count.
pub fn overwrite_counts(a: Vec<(String, usize)>, b: &Vec<(String, usize)>) -> (r: Vec<
    (String, usize),
>)
    requires
        distinct_keys(a.deep_view()),
    ensures
        distinct_keys(r.deep_view()),
        as_map(r.deep_view()) == as_map(a.deep_view()).union_prefer_right(as_map(b.deep_view())),
{
    let ghost am = as_map(a.deep_view());
    let ghost bs = b.deep_view();
    let mut es = a;
    let mut j: usize = 0;
    proof {
        assert(bs.take(0) =~= Seq::<(Seq<char>, usize)>::empty());
        assert(as_map(es.deep_view()) =~= am.union_prefer_right(as_map(bs.take(0))));
    }
    while j < b.len()
        invariant
            j <= bs.len(),
            b.deep_view() == bs,
            b@.len() == bs.len(),
            distinct_keys(es.deep_view()),
            as_map(es.deep_view()) == am.union_prefer_right(as_map(bs.take(j as int))),
        decreases bs.len() - j,
    {
        let ghost pre = es.deep_view();
        let v = b[j].1;
        let w = &b[j].0;
        proof {
            assert(bs.take(j + 1).drop_last() =~= bs.take(j as int));
            assert(bs.take(j + 1).last() == bs[j as int]);
            assert(as_map(bs.take(j + 1)) == as_map(bs.take(j as int)).insert(
                bs[j as int].0,
                v as int,
            ));
        }
        let found = find_key(&es, w.as_str());
        match found {
            Some(i) => {
                proof {
                    lemma_as_map_index(pre, i as int);
                }
                let (k, _) = es.remove(i);
                es.insert(i, (k, v));
                proof {
                    assert(es.deep_view() =~= pre.update(i as int, (pre[i as int].0, v)));
                    lemma_as_map_update(pre, i as int, v);
                    assert(as_map(es.deep_view()) =~= am.union_prefer_right(
                        as_map(bs.take(j + 1)),
                    ));
                }
            },
            None => {
                proof {
                    lemma_as_map_contains(pre, w@);
                }
                let key = w.clone();
                es.push((key, v));
                proof {
                    assert(es.deep_view() =~= pre.push((w@, v)));
                    assert(es.deep_view().drop_last() =~= pre);
                    assert(forall|k: int| 0 <= k < pre.len() ==> es.deep_view()[k] == pre[k]);
                    assert(distinct_keys(es.deep_view()));
                    assert(as_map(es.deep_view()) =~= am.union_prefer_right(
                        as_map(bs.take(j + 1)),
                    ));
                }
            },
        }
        j = j + 1;
    }
    proof {
        assert(bs.take(bs.len() as int) =~= bs);
    }
    es
}

/// One chapter's merged frequency map: the word counts of its token
/// stream, with the phrase counts written over them (a phrase entry
/// replaces a word entry of the same spelling).
pub fn chapter_frequencies(tokens: &Vec<String>, raw_text: &str, phrases: &Vec<String>) -> (r: Vec<
    (String, usize),
>)
    requires
        raw_text@.len() < usize::MAX,
    ensures
        distinct_keys(r.deep_view()),
        as_map(r.deep_view()) == count_map(tokens.deep_view()).union_prefer_right(
            as_map(
                Seq::new(
                    phrases@.len(),
                    |j: int|
                        (
                            phrases.deep_view()[j],
                            phrase_count(raw_text@, phrases.deep_view()[j]) as usize,
                        ),
                ),
            ),
        ),
{
    let wf = word_frequency(tokens);
    let pf = phrase_frequency(raw_text, phrases);
    proof {
        assert(pf.deep_view() =~= Seq::new(
            phrases@.len(),
            |j: int|
                (phrases.deep_view()[j], phrase_count(raw_text@, phrases.deep_view()[j]) as usize),
        ));
    }
    overwrite_counts(wf, &pf)
}

/// The sum of all counts, exactly, in 128 bits.
fn total_u128(es: &Vec<(String, usize)>) -> (r: u128)
    ensures
        r as int == total_count(es.deep_view()),
{
    let ghost src = es.deep_view();
    let mut sum: u128 = 0;
    let mut i: usize = 0;
    proof {
        assert(src.take(0) =~= Seq::<(Seq<char>, usize)>::empty());
    }
    while i < es.len()
        invariant
            i <= src.len(),
            es.deep_view() == src,
            es@.len() == src.len(),
            sum as int == total_count(src.take(i as int)),
            sum as int <= (i as int) * (usize::MAX as int),
        decreases src.len() - i,
    {
        proof {
            assert(src.take(i + 1).drop_last() =~= src.take(i as int));
            assert(src.take(i + 1).last() == src[i as int]);
            assert((i as int) * (usize::MAX as int) + (usize::MAX as int) == ((i + 1) as int) * (
            usize::MAX as int)) by (nonlinear_arith);
            assert(((i + 1) as int) * (usize::MAX as int) <= (usize::MAX as int) * (
            usize::MAX as int)) by (nonlinear_arith)
                requires
                    0 <= i,
                    i + 1 <= usize::MAX,
            ;
            assert((usize::MAX as int) * (usize::MAX as int) < u128::MAX as int);
        }
        sum = sum + (es[i].1 as u128);
        i = i + 1;
    }
    proof {
        assert(src.take(src.len() as int) =~= src);
    }
    sum
}

/// The summed total of a list of chapter maps.
pub open spec fn grand_total(chs: Seq<Seq<(Seq<char>, usize)>>) -> int
    decreases chs.len(),
{
    if chs.len() == 0 {
        0int
    } else {
        grand_total(chs.drop_last()) + total_count(chs.last())
    }
}

proof fn lemma_grand_total_prefix(chs: Seq<Seq<(Seq<char>, usize)>>, n: int)
    requires
        0 <= n <= chs.len(),
    ensures
        grand_total(chs.take(n)) <= grand_total(chs),
        grand_total(chs.take(n)) >= 0,
    decreases chs.len() - n,
{
    lemma_grand_total_nonneg(chs.take(n));
    if n == chs.len() {
        assert(chs.take(n) =~= chs);
    } else {
        lemma_grand_total_prefix(chs, n + 1);
        assert(chs.take(n + 1).drop_last() =~= chs.take(n));
        assert(chs.take(n + 1).last() == chs[n]);
        lemma_total_count_nonneg(chs[n]);
    }
}

proof fn lemma_grand_total_nonneg(chs: Seq<Seq<(Seq<char>, usize)>>)
    ensures
        grand_total(chs) >= 0,
    decreases chs.len(),
{
    if chs.len() > 0 {
        lemma_grand_total_nonneg(chs.drop_last());
        lemma_total_count_nonneg(chs.last());
    }
}

/// The maps a list of chapter entry lists stands for.
pub open spec fn maps_of(chs: Seq<Seq<(Seq<char>, usize)>>) -> Seq<Map<Seq<char>, int>> {
    chs.map_values(|c: Seq<(Seq<char>, usize)>| as_map(c))
}

/// A document's file-level frequency map: the keywise sum of all its
/// chapter maps.  Returns `None` exactly when the summed counts would
/// not fit in `usize`.
pub fn file_frequency(chapters: &Vec<Vec<(String, usize)>>) -> (r: Option<Vec<(String, usize)>>)
    requires
        forall|j: int| 0 <= j < chapters@.len() ==> distinct_keys(#[trigger] chapters.deep_view()[j]),
    ensures
        r is Some <==> grand_total(chapters.deep_view()) <= usize::MAX,
        r is Some ==> {
            let es = r->0.deep_view();
            &&& distinct_keys(es)
            &&& as_map(es) == sum_all(maps_of(chapters.deep_view()))
            &&& total_count(es) == grand_total(chapters.deep_view())
        },
{
    let ghost chs = chapters.deep_view();
    let ghost ms = maps_of(chs);
    let mut acc: Vec<(String, usize)> = Vec::new();
    let mut j: usize = 0;
    proof {
        assert(acc.deep_view() =~= Seq::<(Seq<char>, usize)>::empty());
        assert(ms.take(0) =~= Seq::<Map<Seq<char>, int>>::empty());
        assert(as_map(acc.deep_view()) =~= sum_all(ms.take(0)));
    }
    while j < chapters.len()
        invariant
            j <= chs.len(),
            chapters.deep_view() == chs,
            chapters@.len() == chs.len(),
            ms == maps_of(chs),
            forall|b: int| 0 <= b < chs.len() ==> distinct_keys(#[trigger] chs[b]),
            distinct_keys(acc.deep_view()),
            as_map(acc.deep_view()) == sum_all(ms.take(j as int)),
            total_count(acc.deep_view()) == grand_total(chs.take(j as int)),
            total_count(acc.deep_view()) <= usize::MAX,
        decreases chs.len() - j,
    {
        proof {
            assert(chs.take(j + 1).drop_last() =~= chs.take(j as int));
            assert(chs.take(j + 1).last() == chs[j as int]);
            assert(ms.take(j + 1).drop_last() =~= ms.take(j as int));
            assert(ms.take(j + 1).last() == ms[j as int]);
            assert(chapters.deep_view()[j as int] == chapters@[j as int].deep_view());
            lemma_total_count_nonneg(acc.deep_view());
            lemma_total_count_nonneg(chs[j as int]);
        }
        let at = total_u128(&acc);
        let bt = total_u128(&chapters[j]);
        if bt > (usize::MAX as u128) - at {
            proof {
                lemma_grand_total_prefix(chs, j + 1);
                assert(grand_total(chs.take(j + 1)) == grand_total(chs.take(j as int))
                    + total_count(chs[j as int]));
                assert(grand_total(chs) > usize::MAX);
            }
            return None;
        }
        acc = merge_counts(acc, &chapters[j]);
        proof {
            assert(as_map(acc.deep_view()) =~= sum_all(ms.take(j + 1)));
        }
        j = j + 1;
    }
    proof {
        assert(chs.take(chs.len() as int) =~= chs);
        assert(ms.take(ms.len() as int) =~= ms);
    }
    Some(acc)
}

/// The keywise sum of a whole list of maps.
pub open spec fn sum_all(ms: Seq<Map<Seq<char>, int>>) -> Map<Seq<char>, int>
    decreases ms.len(),
{
    if ms.len() == 0 {
        Map::empty()
    } else {
        sum_maps(sum_all(ms.drop_last()), ms.last())
    }
}

/// Removing the map at `j` and adding it back on top changes nothing.
proof fn lemma_sum_all_remove(ms: Seq<Map<Seq<char>, int>>, j: int)
    requires
        0 <= j < ms.len(),
    ensures
        sum_all(ms) =~= sum_maps(sum_all(ms.remove(j)), ms[j]),
    decreases ms.len(),
{
    if j == ms.len() - 1 {
        assert(ms.remove(j) =~= ms.drop_last());
    } else {
        lemma_sum_all_remove(ms.drop_last(), j);
        assert(ms.remove(j).drop_last() =~= ms.drop_last().remove(j));
        assert(ms.remove(j).last() == ms.last());
        assert(ms.drop_last()[j] == ms[j]);
        let s = sum_all(ms.drop_last().remove(j));
        assert(sum_all(ms) =~= sum_maps(sum_maps(s, ms[j]), ms.last()));
        assert(sum_maps(sum_maps(s, ms[j]), ms.last()) =~= sum_maps(
            sum_maps(s, ms.last()),
            ms[j],
        ));
    }
}

/// Summing per-document frequency maps gives the same aggregate in any
/// order: two lists holding the same maps, however arranged, sum to the
/// same map.
pub proof fn lemma_sum_all_permutation(ms1: Seq<Map<Seq<char>, int>>, ms2: Seq<Map<Seq<char>, int>>)
    requires
        ms1.to_multiset() == ms2.to_multiset(),
    ensures
        sum_all(ms1) == sum_all(ms2),
    decreases ms1.len(),
{
    broadcast use vstd::seq_lib::group_to_multiset_ensures;

    ms1.to_multiset_ensures();
    ms2.to_multiset_ensures();
    if ms1.len() == 0 {
        assert(ms2.to_multiset().len() == 0);
        assert(ms2.len() == 0);
    } else {
        let x = ms1.last();
        assert(ms1.to_multiset().contains(x)) by {
            assert(ms1[ms1.len() - 1] == x);
            assert(ms1.contains(x));
        }
        assert(ms2.to_multiset().contains(x));
        assert(ms2.contains(x));
        let j = choose|j: int| 0 <= j < ms2.len() && ms2[j] == x;
        assert(ms1.drop_last() =~= ms1.remove(ms1.len() - 1));
        assert(ms1.remove(ms1.len() - 1).to_multiset() =~= ms1.to_multiset().remove(x));
        assert(ms2.remove(j).to_multiset() =~= ms2.to_multiset().remove(x));
        lemma_sum_all_permutation(ms1.drop_last(), ms2.remove(j));
        lemma_sum_all_remove(ms2, j);
    }
}

} // verus!
