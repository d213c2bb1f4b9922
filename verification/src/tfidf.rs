//! TF-IDF bookkeeping over chapter-level frequency maps: the chapter
//! count, each word's document frequency (chapters where it occurs with
//! a positive count), each term's integer components, and the
//! deduplicated list of words whose document frequency degenerates to
//! zero and is clamped to one.  The floating-point evaluation
//! `tf * log10(n / max(df, 1))` is left to the caller; everything that
//! feeds it is pinned down here.

use vstd::prelude::*;
use crate::freq::{
    as_map, distinct_keys, total_count, value_or_zero, DocChapterFreqs, find_key,
    lemma_as_map_contains, lemma_as_map_index, lemma_as_map_update, lemma_total_count_nonneg,
};

verus! {

/// The integer inputs of one TF-IDF score: the word's count in the
/// chapter, the chapter's total count, and the word's document
/// frequency before clamping.
pub struct TfIdfTerm {
    pub freq: usize,
    pub chapter_total: usize,
    pub df: usize,
}

/// One document's per-chapter TF-IDF terms.
pub struct DocTerms {
    pub name: String,
    pub chapters: Vec<Vec<(String, TfIdfTerm)>>,
}

/// The outcome of the TF-IDF pass.
pub struct TfIdfResult {
    pub n_chapters: usize,
    pub docs: Vec<DocTerms>,
    pub warnings: Vec<String>,
}

/// The total number of chapters over all documents.
pub open spec fn chapter_count(data: Seq<DocChapterFreqs>) -> int
    decreases data.len(),
{
    if data.len() == 0 {
        0int
    } else {
        chapter_count(data.drop_last()) + data.last().chapters@.len()
    }
}

/// Whether `w` occurs with a positive count in the chapter map `es`.
pub open spec fn pos_in(es: Seq<(Seq<char>, usize)>, w: Seq<char>) -> bool {
    as_map(es).contains_key(w) && as_map(es)[w] > 0
}

/// How many chapters of `chs` hold `w` with a positive count.
pub open spec fn df_in_chapters(chs: Seq<Seq<(Seq<char>, usize)>>, w: Seq<char>) -> int
    decreases chs.len(),
{
    if chs.len() == 0 {
        0int
    } else {
        df_in_chapters(chs.drop_last(), w) + (if pos_in(chs.last(), w) {
            1int
        } else {
            0int
        })
    }
}

/// The document frequency of `w`: over all documents, the number of
/// chapters in which `w` has a strictly positive count.
pub open spec fn df_of(data: Seq<DocChapterFreqs>, w: Seq<char>) -> int
    decreases data.len(),
{
    if data.len() == 0 {
        0int
    } else {
        df_of(data.drop_last(), w) + df_in_chapters(data.last().chapters.deep_view(), w)
    }
}

/// Whether `w` is a key of some chapter map of `data`.
pub open spec fn appears(data: Seq<DocChapterFreqs>, w: Seq<char>) -> bool {
    exists|i: int, j: int, k: int|
        0 <= i < data.len() && 0 <= j < data[i].chapters.deep_view().len() && 0 <= k
            < data[i].chapters.deep_view()[j].len() && (#[trigger] data[i].chapters.deep_view()[j][k]).0
            == w
}

/// Whether the whole input is one document with one chapter, in which
/// case TF-IDF is skipped.
pub open spec fn trivial_corpus(data: Seq<DocChapterFreqs>) -> bool {
    data.len() == 1 && data[0].chapters@.len() == 1
}

/// Well-formed input: every chapter map has distinct keys and totals
/// that fit, and the chapter count fits.
pub open spec fn tf_idf_input_ok(data: Seq<DocChapterFreqs>) -> bool {
    &&& chapter_count(data) <= usize::MAX
    &&& forall|i: int, j: int|
        0 <= i < data.len() && 0 <= j < data[i].chapters.deep_view().len() ==> distinct_keys(
            #[trigger] data[i].chapters.deep_view()[j],
        ) && total_count(data[i].chapters.deep_view()[j]) <= usize::MAX
}

proof fn lemma_chapter_count_nonneg(data: Seq<DocChapterFreqs>)
    ensures
        chapter_count(data) >= 0,
    decreases data.len(),
{
    if data.len() > 0 {
        lemma_chapter_count_nonneg(data.drop_last());
    }
}

/// The sum of the counts in one chapter map.
pub fn sum_counts(es: &Vec<(String, usize)>) -> (r: usize)
    requires
        total_count(es.deep_view()) <= usize::MAX,
    ensures
        r as int == total_count(es.deep_view()),
{
    let ghost src = es.deep_view();
    let mut sum: usize = 0;
    let mut i: usize = 0;
    proof {
        assert(src.take(0) =~= Seq::<(Seq<char>, usize)>::empty());
    }
    while i < es.len()
        invariant
            i <= src.len(),
            es.deep_view() == src,
            es@.len() == src.len(),
            total_count(src) <= usize::MAX,
            sum as int == total_count(src.take(i as int)),
        decreases src.len() - i,
    {
        proof {
            assert(src.take(i + 1).drop_last() =~= src.take(i as int));
            assert(src.take(i + 1).last() == src[i as int]);
            lemma_total_prefix_bound(src, i + 1);
        }
        sum = sum + es[i].1;
        i = i + 1;
    }
    proof {
        assert(src.take(src.len() as int) =~= src);
    }
    sum
}

/// The total of a prefix never exceeds the total of the whole list.
proof fn lemma_total_prefix_bound(es: Seq<(Seq<char>, usize)>, n: int)
    requires
        0 <= n <= es.len(),
    ensures
        total_count(es.take(n)) <= total_count(es),
    decreases es.len() - n,
{
    if n == es.len() {
        assert(es.take(n) =~= es);
    } else {
        lemma_total_prefix_bound(es, n + 1);
        assert(es.take(n + 1).drop_last() =~= es.take(n));
        lemma_total_count_nonneg(es.take(n));
        assert(total_count(es.take(n + 1)) == total_count(es.take(n)) + es[n].1 as int);
    }
}

/// Fold one chapter into the document-frequency index: every word with
/// a positive count in the chapter gains one.
fn accumulate_df(index: Vec<(String, usize)>, chapter: &Vec<(String, usize)>, bound: usize) -> (r:
    Vec<(String, usize)>)
    requires
        distinct_keys(index.deep_view()),
        distinct_keys(chapter.deep_view()),
        bound < usize::MAX,
        forall|w: Seq<char>| value_or_zero(as_map(index.deep_view()), w) <= bound,
    ensures
        distinct_keys(r.deep_view()),
        forall|w: Seq<char>|
            value_or_zero(as_map(r.deep_view()), w) == value_or_zero(
                as_map(index.deep_view()),
                w,
            ) + (if pos_in(chapter.deep_view(), w) {
                1int
            } else {
                0int
            }),
        forall|w: Seq<char>| value_or_zero(as_map(r.deep_view()), w) <= bound + 1,
{
    let ghost base = as_map(index.deep_view());
    let ghost ch = chapter.deep_view();
    let mut es = index;
    let mut k: usize = 0;
    proof {
        assert(ch.take(0) =~= Seq::<(Seq<char>, usize)>::empty());
        assert forall|w: Seq<char>| !pos_in(ch.take(0), w) by {
            lemma_as_map_contains(ch.take(0), w);
        }
    }
    while k < chapter.len()
        invariant
            k <= ch.len(),
            chapter.deep_view() == ch,
            chapter@.len() == ch.len(),
            distinct_keys(ch),
            bound < usize::MAX,
            distinct_keys(es.deep_view()),
            forall|w: Seq<char>|
                value_or_zero(as_map(es.deep_view()), w) == value_or_zero(base, w) + (if pos_in(
                    ch.take(k as int),
                    w,
                ) {
                    1int
                } else {
                    0int
                }),
            forall|w: Seq<char>| value_or_zero(base, w) <= bound,
        decreases ch.len() - k,
    {
        let ghost pre = es.deep_view();
        let v = chapter[k].1;
        let w = &chapter[k].0;
        proof {
            assert(ch.take(k + 1).drop_last() =~= ch.take(k as int));
            assert(ch.take(k + 1).last() == ch[k as int]);
            lemma_as_map_contains(ch.take(k as int), w@);
            assert(forall|a: int| 0 <= a < k ==> ch.take(k as int)[a] == ch[a]);
            assert(!as_map(ch.take(k as int)).contains_key(w@));
            assert forall|x: Seq<char>| x != w@ implies (pos_in(ch.take(k + 1), x) == pos_in(
                ch.take(k as int),
                x,
            )) by {
                assert(as_map(ch.take(k + 1)) == as_map(ch.take(k as int)).insert(
                    w@,
                    ch[k as int].1 as int,
                ));
            }
            assert(as_map(ch.take(k + 1))[w@] == v as int);
            assert(pos_in(ch.take(k + 1), w@) == (v > 0));
        }
        if v > 0 {
            let found = find_key(&es, w.as_str());
            match found {
                Some(i) => {
                    proof {
                        lemma_as_map_index(pre, i as int);
                        assert(value_or_zero(as_map(pre), w@) == pre[i as int].1 as int);
                        assert(pre[i as int].1 as int <= bound);
                    }
                    let c = es[i].1;
                    let (key, _) = es.remove(i);
                    es.insert(i, (key, c + 1));
                    proof {
                        assert(es.deep_view() =~= pre.update(i as int, (pre[i as int].0, (c
                            + 1) as usize)));
                        lemma_as_map_update(pre, i as int, (c + 1) as usize);
                        assert(as_map(es.deep_view()) == as_map(pre).insert(w@, (c + 1) as int));
                    }
                },
                None => {
                    proof {
                        lemma_as_map_contains(pre, w@);
                    }
                    let key = w.clone();
                    es.push((key, 1));
                    proof {
                        assert(es.deep_view() =~= pre.push((w@, 1usize)));
                        assert(es.deep_view().drop_last() =~= pre);
                        assert(forall|a: int| 0 <= a < pre.len() ==> es.deep_view()[a] == pre[a]);
                        assert(distinct_keys(es.deep_view()));
                        assert(as_map(es.deep_view()) == as_map(pre).insert(w@, 1int));
                    }
                },
            }
            proof {
                assert forall|x: Seq<char>|
                    value_or_zero(as_map(es.deep_view()), x) == value_or_zero(base, x) + (
                    if pos_in(ch.take(k + 1), x) {
                        1int
                    } else {
                        0int
                    }) by {
                    if x == w@ {
                        assert(value_or_zero(as_map(es.deep_view()), x) == value_or_zero(
                            as_map(pre),
                            x,
                        ) + 1);
                    } else {
                        assert(value_or_zero(as_map(es.deep_view()), x) == value_or_zero(
                            as_map(pre),
                            x,
                        ));
                    }
                }
            }
        } else {
            proof {
                assert forall|x: Seq<char>|
                    value_or_zero(as_map(es.deep_view()), x) == value_or_zero(base, x) + (
                    if pos_in(ch.take(k + 1), x) {
                        1int
                    } else {
                        0int
                    }) by {
                    if x == w@ {
                        assert(!pos_in(ch.take(k + 1), x));
                        assert(!pos_in(ch.take(k as int), x));
                    }
                }
            }
        }
        k = k + 1;
    }
    proof {
        assert(ch.take(ch.len() as int) =~= ch);
    }
    es
}

/// The document-frequency index of the whole corpus: for every word,
/// the number of chapters holding it with a positive count.
fn build_df_index(data: &Vec<DocChapterFreqs>, n: usize) -> (r: Vec<(String, usize)>)
    requires
        tf_idf_input_ok(data@),
        n as int == chapter_count(data@),
    ensures
        distinct_keys(r.deep_view()),
        forall|w: Seq<char>| value_or_zero(as_map(r.deep_view()), w) == df_of(data@, w),
{
    let ghost ds = data@;
    let mut index: Vec<(String, usize)> = Vec::new();
    let mut i: usize = 0;
    proof {
        assert forall|w: Seq<char>| value_or_zero(as_map(index.deep_view()), w) == df_of(
            ds.take(0),
            w,
        ) && value_or_zero(as_map(index.deep_view()), w) <= chapter_count(ds.take(0)) by {
            lemma_as_map_contains(index.deep_view(), w);
        }
    }
    while i < data.len()
        invariant
            i <= ds.len(),
            data@ == ds,
            tf_idf_input_ok(ds),
            n as int == chapter_count(ds),
            distinct_keys(index.deep_view()),
            forall|w: Seq<char>|
                value_or_zero(as_map(index.deep_view()), w) == df_of(ds.take(i as int), w),
            forall|w: Seq<char>|
                value_or_zero(as_map(index.deep_view()), w) <= chapter_count(ds.take(i as int)),
            chapter_count(ds.take(i as int)) <= chapter_count(ds),
        decreases ds.len() - i,
    {
        let d = &data[i];
        let ghost chs = d.chapters.deep_view();
        let mut j: usize = 0;
        proof {
            assert(ds.take(i + 1).drop_last() =~= ds.take(i as int));
            assert(ds.take(i + 1).last() == ds[i as int]);
            assert(chs.take(0) =~= Seq::<Seq<(Seq<char>, usize)>>::empty());
            lemma_chapter_count_take_step(ds, i as int);
        }
        while j < d.chapters.len()
            invariant
                j <= chs.len(),
                d.chapters.deep_view() == chs,
                d.chapters@.len() == chs.len(),
                d == ds[i as int],
                0 <= i < ds.len(),
                data@ == ds,
                tf_idf_input_ok(ds),
                n as int == chapter_count(ds),
                distinct_keys(index.deep_view()),
                forall|w: Seq<char>|
                    value_or_zero(as_map(index.deep_view()), w) == df_of(ds.take(i as int), w)
                        + df_in_chapters(chs.take(j as int), w),
                forall|w: Seq<char>|
                    value_or_zero(as_map(index.deep_view()), w) <= chapter_count(ds.take(i as int))
                        + j,
                chapter_count(ds.take(i as int)) + chs.len() <= chapter_count(ds),
            decreases chs.len() - j,
        {
            proof {
                assert(chs.take(j + 1).drop_last() =~= chs.take(j as int));
                assert(chs.take(j + 1).last() == chs[j as int]);
                assert(chs[j as int] == d.chapters.deep_view()[j as int]);
                assert(distinct_keys(chs[j as int]));
                lemma_chapter_count_nonneg(ds.take(i as int));
                assert(chapter_count(ds.take(i as int)) + j < chapter_count(ds));
            }
            let chapter = &d.chapters[j];
            proof {
                assert(chapter.deep_view() == chs[j as int]);
            }
            index = accumulate_df(index, chapter, n - 1);
            j = j + 1;
        }
        proof {
            assert(chs.take(chs.len() as int) =~= chs);
        }
        i = i + 1;
    }
    proof {
        assert(ds.take(ds.len() as int) =~= ds);
    }
    index
}

/// Whether `w` is a key of some chapter map in `chs`.
pub open spec fn appears_in_chapters(chs: Seq<Seq<(Seq<char>, usize)>>, w: Seq<char>) -> bool {
    exists|j: int, k: int|
        0 <= j < chs.len() && 0 <= k < chs[j].len() && (#[trigger] chs[j][k]).0 == w
}

/// Whether `w` is a key of some entry among the first `k` of `es`.
spec fn appears_in_prefix(es: Seq<(Seq<char>, usize)>, k: int, w: Seq<char>) -> bool {
    exists|a: int| 0 <= a < k && a < es.len() && (#[trigger] es[a]).0 == w
}

/// Whether `list` holds the word `w`.
fn contains_word(list: &Vec<String>, w: &str) -> (r: bool)
    ensures
        r == list.deep_view().contains(w@),
{
    let mut i: usize = 0;
    while i < list.len()
        invariant
            i <= list@.len(),
            forall|k: int| 0 <= k < i ==> list.deep_view()[k] != w@,
        decreases list@.len() - i,
    {
        if crate::strutil::str_equal(list[i].as_str(), w) {
            proof {
                assert(list.deep_view()[i as int] == w@);
            }
            return true;
        }
        i = i + 1;
    }
    proof {
        if list.deep_view().contains(w@) {
            let k = choose|k: int|
                0 <= k < list.deep_view().len() && #[trigger] list.deep_view()[k] == w@;
            assert(false);
        }
    }
    false
}

/// The TF-IDF bookkeeping pass.  For a corpus of one document with one
/// chapter the analysis is skipped and the result is empty.  Otherwise
/// every chapter entry is mirrored with its integer score components,
/// and every word that appears in some chapter map but has document
/// frequency zero (so its IDF denominator is clamped to one) is listed
/// exactly once among the warnings.
pub fn calculate_tf_idf(data: &Vec<DocChapterFreqs>) -> (r: TfIdfResult)
    requires
        tf_idf_input_ok(data@),
    ensures
        r.n_chapters as int == chapter_count(data@),
        trivial_corpus(data@) ==> r.docs@.len() == 0 && r.warnings@.len() == 0,
        !trivial_corpus(data@) ==> {
            &&& r.docs@.len() == data@.len()
            &&& forall|i: int| #![trigger r.docs@[i]]
                0 <= i < data@.len() ==> {
                    &&& r.docs@[i].name@ == data@[i].name@
                    &&& r.docs@[i].chapters@.len() == data@[i].chapters@.len()
                    &&& forall|j: int| #![trigger r.docs@[i].chapters@[j]]
                        0 <= j < data@[i].chapters@.len() ==> {
                            &&& r.docs@[i].chapters@[j]@.len()
                                == data@[i].chapters.deep_view()[j].len()
                            &&& forall|k: int| #![trigger r.docs@[i].chapters@[j]@[k]]
                                0 <= k < data@[i].chapters.deep_view()[j].len() ==> {
                                    let entry = r.docs@[i].chapters@[j]@[k];
                                    let src = data@[i].chapters.deep_view()[j][k];
                                    &&& entry.0@ == src.0
                                    &&& entry.1.freq == src.1
                                    &&& entry.1.chapter_total as int == total_count(
                                        data@[i].chapters.deep_view()[j],
                                    )
                                    &&& entry.1.df as int == df_of(data@, src.0)
                                }
                        }
                }
            &&& forall|w: Seq<char>|
                #[trigger] r.warnings.deep_view().contains(w) <==> appears(data@, w) && df_of(
                    data@,
                    w,
                ) == 0
            &&& r.warnings.deep_view().no_duplicates()
        },
{
    let ghost ds = data@;
    let mut n: usize = 0;
    let mut i: usize = 0;
    proof {
        lemma_chapter_count_nonneg(ds);
    }
    while i < data.len()
        invariant
            i <= ds.len(),
            data@ == ds,
            chapter_count(ds) <= usize::MAX,
            n as int == chapter_count(ds.take(i as int)),
        decreases ds.len() - i,
    {
        proof {
            lemma_chapter_count_take_step(ds, i as int);
            lemma_chapter_count_nonneg(ds.take(i as int));
        }
        n = n + data[i].chapters.len();
        i = i + 1;
    }
    proof {
        assert(ds.take(ds.len() as int) =~= ds);
    }
    if data.len() == 1 && data[0].chapters.len() == 1 {
        return TfIdfResult { n_chapters: n, docs: Vec::new(), warnings: Vec::new() };
    }
    let index = build_df_index(data, n);
    let mut docs: Vec<DocTerms> = Vec::new();
    let mut warnings: Vec<String> = Vec::new();
    let mut i: usize = 0;
    proof {
        assert forall|x: Seq<char>| !appears(ds.take(0), x) by {}
        assert forall|x: Seq<char>| !warnings.deep_view().contains(x) by {}
    }
    while i < data.len()
        invariant
            i <= ds.len(),
            data@ == ds,
            tf_idf_input_ok(ds),
            distinct_keys(index.deep_view()),
            forall|w: Seq<char>|
                value_or_zero(as_map(index.deep_view()), w) == df_of(ds, w),
            docs@.len() == i,
            warnings.deep_view().no_duplicates(),
            forall|x: Seq<char>|
                #[trigger] warnings.deep_view().contains(x) <==> appears(ds.take(i as int), x)
                    && df_of(ds, x) == 0,
            forall|a: int| #![trigger docs@[a]]
                0 <= a < i ==> {
                    &&& docs@[a].name@ == ds[a].name@
                    &&& docs@[a].chapters@.len() == ds[a].chapters@.len()
                    &&& forall|j: int| #![trigger docs@[a].chapters@[j]]
                        0 <= j < ds[a].chapters@.len() ==> {
                            &&& docs@[a].chapters@[j]@.len() == ds[a].chapters.deep_view()[j].len()
                            &&& forall|k: int| #![trigger docs@[a].chapters@[j]@[k]]
                                0 <= k < ds[a].chapters.deep_view()[j].len() ==> {
                                    let entry = docs@[a].chapters@[j]@[k];
                                    let src = ds[a].chapters.deep_view()[j][k];
                                    &&& entry.0@ == src.0
                                    &&& entry.1.freq == src.1
                                    &&& entry.1.chapter_total as int == total_count(
                                        ds[a].chapters.deep_view()[j],
                                    )
                                    &&& entry.1.df as int == df_of(ds, src.0)
                                }
                        }
                },
        decreases ds.len() - i,
    {
        let d = &data[i];
        let ghost chs = d.chapters.deep_view();
        let mut chapters_out: Vec<Vec<(String, TfIdfTerm)>> = Vec::new();
        let mut j: usize = 0;
        proof {
            assert(d.chapters@.len() == chs.len());
            assert forall|x: Seq<char>| !appears_in_chapters(chs.take(0), x) by {}
        }
        while j < d.chapters.len()
            invariant
                j <= chs.len(),
                d.chapters.deep_view() == chs,
                d.chapters@.len() == chs.len(),
                d == ds[i as int],
                0 <= i < ds.len(),
                data@ == ds,
                tf_idf_input_ok(ds),
                distinct_keys(index.deep_view()),
                forall|w: Seq<char>|
                    value_or_zero(as_map(index.deep_view()), w) == df_of(ds, w),
                warnings.deep_view().no_duplicates(),
                forall|x: Seq<char>|
                    #[trigger] warnings.deep_view().contains(x) <==> (appears(ds.take(i as int), x)
                        || appears_in_chapters(chs.take(j as int), x)) && df_of(ds, x) == 0,
                chapters_out@.len() == j,
                forall|jj: int| #![trigger chapters_out@[jj]]
                    0 <= jj < j ==> {
                        &&& chapters_out@[jj]@.len() == chs[jj].len()
                        &&& forall|k: int| #![trigger chapters_out@[jj]@[k]]
                            0 <= k < chs[jj].len() ==> {
                                let entry = chapters_out@[jj]@[k];
                                let src = chs[jj][k];
                                &&& entry.0@ == src.0
                                &&& entry.1.freq == src.1
                                &&& entry.1.chapter_total as int == total_count(chs[jj])
                                &&& entry.1.df as int == df_of(ds, src.0)
                            }
                    },
            decreases chs.len() - j,
        {
            let chapter = &d.chapters[j];
            let ghost ch = chapter.deep_view();
            proof {
                assert(ch == chs[j as int]);
                assert(distinct_keys(ch));
                assert(total_count(ch) <= usize::MAX);
            }
            let ct = sum_counts(chapter);
            let mut terms: Vec<(String, TfIdfTerm)> = Vec::new();
            let mut k: usize = 0;
            while k < chapter.len()
                invariant
                    k <= ch.len(),
                    chapter.deep_view() == ch,
                    chapter@.len() == ch.len(),
                    ch == chs[j as int],
                    0 <= j < chs.len(),
                    d.chapters.deep_view() == chs,
                    d == ds[i as int],
                    0 <= i < ds.len(),
                    data@ == ds,
                    ct as int == total_count(ch),
                    distinct_keys(index.deep_view()),
                    forall|w: Seq<char>|
                        value_or_zero(as_map(index.deep_view()), w) == df_of(ds, w),
                    warnings.deep_view().no_duplicates(),
                    forall|x: Seq<char>|
                        #[trigger] warnings.deep_view().contains(x) <==> (appears(
                            ds.take(i as int),
                            x,
                        ) || appears_in_chapters(chs.take(j as int), x) || appears_in_prefix(
                            ch,
                            k as int,
                            x,
                        )) && df_of(ds, x) == 0,
                    terms@.len() == k,
                    forall|kk: int| #![trigger terms@[kk]]
                        0 <= kk < k ==> {
                            let entry = terms@[kk];
                            let src = ch[kk];
                            &&& entry.0@ == src.0
                            &&& entry.1.freq == src.1
                            &&& entry.1.chapter_total as int == total_count(ch)
                            &&& entry.1.df as int == df_of(ds, src.0)
                        },
                decreases ch.len() - k,
            {
                let w = &chapter[k].0;
                let f = chapter[k].1;
                let found = crate::freq::lookup_count(&index, w.as_str());
                let df_val: usize = match found {
                    Some(v) => v,
                    None => 0,
                };
                proof {
                    assert(df_val as int == value_or_zero(as_map(index.deep_view()), w@));
                    assert(df_val as int == df_of(ds, w@));
                }
                if df_val == 0 {
                    let already = contains_word(&warnings, w.as_str());
                    if !already {
                        let ghost pre_w = warnings.deep_view();
                        warnings.push(w.clone());
                        proof {
                            assert(warnings.deep_view() =~= pre_w.push(w@));
                            assert forall|x: Seq<char>| #[trigger]
                                warnings.deep_view().contains(x) <==> pre_w.contains(x) || x
                                == w@ by {
                                if warnings.deep_view().contains(x) {
                                    let a = choose|a: int|
                                        0 <= a < warnings.deep_view().len()
                                            && #[trigger] warnings.deep_view()[a] == x;
                                    if a < pre_w.len() {
                                        assert(pre_w[a] == x);
                                    }
                                } else {
                                    if pre_w.contains(x) {
                                        let a = choose|a: int|
                                            0 <= a < pre_w.len() && #[trigger] pre_w[a] == x;
                                        assert(warnings.deep_view()[a] == x);
                                    }
                                    if x == w@ {
                                        assert(warnings.deep_view()[pre_w.len() as int] == x);
                                    }
                                }
                            }
                            assert(warnings.deep_view().no_duplicates());
                        }
                    }
                }
                let ghost pre_terms_len = terms@.len();
                terms.push((w.clone(), TfIdfTerm { freq: f, chapter_total: ct, df: df_val }));
                proof {
                    assert(forall|kk: int| 0 <= kk < pre_terms_len ==> terms@[kk] == terms@.take(
                        pre_terms_len as int,
                    )[kk]);
                    assert forall|x: Seq<char>|
                        #[trigger] warnings.deep_view().contains(x) <==> (appears(
                            ds.take(i as int),
                            x,
                        ) || appears_in_chapters(chs.take(j as int), x) || appears_in_prefix(
                            ch,
                            k + 1,
                            x,
                        )) && df_of(ds, x) == 0 by {
                        if appears_in_prefix(ch, k + 1, x) && !appears_in_prefix(ch, k as int, x) {
                            assert(ch[k as int].0 == x);
                        }
                        if appears_in_prefix(ch, k as int, x) {
                            assert(appears_in_prefix(ch, k + 1, x));
                        }
                        if x == w@ {
                            assert(ch[k as int].0 == x);
                            assert(appears_in_prefix(ch, k + 1, x));
                        }
                    }
                }
                k = k + 1;
            }
            let ghost pre_ch_len = chapters_out@.len();
            chapters_out.push(terms);
            proof {
                assert(forall|jj: int| 0 <= jj < pre_ch_len ==> chapters_out@[jj]
                    == chapters_out@.take(pre_ch_len as int)[jj]);
                assert forall|x: Seq<char>|
                    (appears(ds.take(i as int), x) || appears_in_chapters(chs.take(j + 1), x))
                        <==> (appears(ds.take(i as int), x) || appears_in_chapters(
                        chs.take(j as int),
                        x,
                    ) || appears_in_prefix(ch, ch.len() as int, x)) by {
                    if appears_in_chapters(chs.take(j + 1), x) {
                        let (jj, kk) = choose|jj: int, kk: int|
                            0 <= jj < chs.take(j + 1).len() && 0 <= kk < chs.take(j + 1)[jj].len()
                                && (#[trigger] chs.take(j + 1)[jj][kk]).0 == x;
                        if jj < j {
                            assert(chs.take(j as int)[jj][kk].0 == x);
                            assert(appears_in_chapters(chs.take(j as int), x));
                        } else {
                            assert(chs.take(j + 1)[jj] == ch);
                            assert(appears_in_prefix(ch, ch.len() as int, x));
                        }
                    }
                    if appears_in_chapters(chs.take(j as int), x) {
                        let (jj, kk) = choose|jj: int, kk: int|
                            0 <= jj < chs.take(j as int).len() && 0 <= kk < chs.take(
                                j as int,
                            )[jj].len() && (#[trigger] chs.take(j as int)[jj][kk]).0 == x;
                        assert(chs.take(j + 1)[jj][kk].0 == x);
                        assert(appears_in_chapters(chs.take(j + 1), x));
                    }
                    if appears_in_prefix(ch, ch.len() as int, x) {
                        let a = choose|a: int|
                            0 <= a < ch.len() && (#[trigger] ch[a]).0 == x;
                        assert(chs.take(j + 1)[j as int][a].0 == x);
                        assert(appears_in_chapters(chs.take(j + 1), x));
                    }
                }
            }
            j = j + 1;
        }
        let ghost pre_docs_len = docs@.len();
        docs.push(DocTerms { name: d.name.clone(), chapters: chapters_out });
        proof {
            assert(forall|a: int| 0 <= a < pre_docs_len ==> docs@[a] == docs@.take(
                pre_docs_len as int,
            )[a]);
            assert(chs.take(chs.len() as int) =~= chs);
            assert forall|x: Seq<char>|
                appears(ds.take(i + 1), x) <==> (appears(ds.take(i as int), x)
                    || appears_in_chapters(chs, x)) by {
                if appears(ds.take(i + 1), x) {
                    let (a, jj, kk) = choose|a: int, jj: int, kk: int|
                        0 <= a < ds.take(i + 1).len() && 0 <= jj < ds.take(
                            i + 1,
                        )[a].chapters.deep_view().len() && 0 <= kk < ds.take(
                            i + 1,
                        )[a].chapters.deep_view()[jj].len() && (#[trigger] ds.take(
                            i + 1,
                        )[a].chapters.deep_view()[jj][kk]).0 == x;
                    if a < i {
                        assert(ds.take(i as int)[a] == ds[a]);
                        assert(ds.take(i as int)[a].chapters.deep_view()[jj][kk].0 == x);
                        assert(appears(ds.take(i as int), x));
                    } else {
                        assert(ds.take(i + 1)[a] == ds[i as int]);
                        assert(chs[jj][kk].0 == x);
                        assert(appears_in_chapters(chs, x));
                    }
                }
                if appears(ds.take(i as int), x) {
                    let (a, jj, kk) = choose|a: int, jj: int, kk: int|
                        0 <= a < ds.take(i as int).len() && 0 <= jj < ds.take(
                            i as int,
                        )[a].chapters.deep_view().len() && 0 <= kk < ds.take(
                            i as int,
                        )[a].chapters.deep_view()[jj].len() && (#[trigger] ds.take(
                            i as int,
                        )[a].chapters.deep_view()[jj][kk]).0 == x;
                    assert(ds.take(i + 1)[a] == ds[a]);
                    assert(ds.take(i + 1)[a].chapters.deep_view()[jj][kk].0 == x);
                    assert(appears(ds.take(i + 1), x));
                }
                if appears_in_chapters(chs, x) {
                    let (jj, kk) = choose|jj: int, kk: int|
                        0 <= jj < chs.len() && 0 <= kk < chs[jj].len() && (#[trigger] chs[jj][kk]).0
                            == x;
                    assert(ds.take(i + 1)[i as int] == ds[i as int]);
                    assert(ds.take(i + 1)[i as int].chapters.deep_view()[jj][kk].0 == x);
                    assert(appears(ds.take(i + 1), x));
                }
            }
        }
        i = i + 1;
    }
    proof {
        assert(ds.take(ds.len() as int) =~= ds);
    }
    TfIdfResult { n_chapters: n, docs, warnings }
}

proof fn lemma_chapter_count_take_step(ds: Seq<DocChapterFreqs>, i: int)
    requires
        0 <= i < ds.len(),
    ensures
        chapter_count(ds.take(i + 1)) == chapter_count(ds.take(i)) + ds[i].chapters@.len(),
        chapter_count(ds.take(i + 1)) <= chapter_count(ds),
    decreases ds.len() - i,
{
    assert(ds.take(i + 1).drop_last() =~= ds.take(i));
    assert(ds.take(i + 1).last() == ds[i]);
    if i + 1 == ds.len() {
        assert(ds.take(i + 1) =~= ds);
    } else {
        lemma_chapter_count_take_step(ds, i + 1);
    }
}

} // verus!
