//! Stopword filtering: a copy of a frequency map that keeps exactly the
//! entries whose key is not a stopword.  Inputs are never mutated, since
//! the callers need the unfiltered view as well.

use vstd::prelude::*;
use vstd::hash_set::StringHashSet;
use crate::freq::{distinct_keys, DocChapterFreqs, DocFreq};

verus! {

/// The entries of `es` whose key is not in `stop`, in order.
pub open spec fn filtered_entries(es: Seq<(Seq<char>, usize)>, stop: Set<Seq<char>>) -> Seq<
    (Seq<char>, usize),
> {
    es.filter(|e: (Seq<char>, usize)| !stop.contains(e.0))
}

/// A copy of `es` with every stopword entry dropped.
pub fn filter_stopwords(es: &Vec<(String, usize)>, stopwords: &StringHashSet) -> (r: Vec<
    (String, usize),
>)
    ensures
        r.deep_view() == filtered_entries(es.deep_view(), stopwords@),
        distinct_keys(es.deep_view()) ==> distinct_keys(r.deep_view()),
{
    let ghost src = es.deep_view();
    let ghost pred = |e: (Seq<char>, usize)| !stopwords@.contains(e.0);
    let mut out: Vec<(String, usize)> = Vec::new();
    let mut i: usize = 0;
    proof {
        assert(src.take(0) =~= Seq::<(Seq<char>, usize)>::empty());
        reveal_with_fuel(Seq::filter, 2);
        assert(out.deep_view() =~= src.take(0).filter(pred));
    }
    while i < es.len()
        invariant
            i <= src.len(),
            es.deep_view() == src,
            es@.len() == src.len(),
            out.deep_view() == src.take(i as int).filter(pred),
            pred == (|e: (Seq<char>, usize)| !stopwords@.contains(e.0)),
            distinct_keys(src) ==> distinct_keys(out.deep_view()) && forall|a: int|
                0 <= a < out.deep_view().len() ==> src.take(i as int).contains(
                    #[trigger] out.deep_view()[a],
                ),
        decreases src.len() - i,
    {
        let ghost pre = out.deep_view();
        proof {
            assert(src.take(i + 1) =~= src.take(i as int) + seq![src[i as int]]);
            Seq::filter_distributes_over_add(src.take(i as int), seq![src[i as int]], pred);
            reveal_with_fuel(Seq::filter, 2);
            assert(seq![src[i as int]].drop_last() =~= Seq::<(Seq<char>, usize)>::empty());
            if pred(src[i as int]) {
                assert(seq![src[i as int]].filter(pred) =~= seq![src[i as int]]);
            } else {
                assert(seq![src[i as int]].filter(pred) =~= Seq::<(Seq<char>, usize)>::empty());
            }
        }
        let e = &es[i];
        if !stopwords.contains(e.0.as_str()) {
            let entry = (e.0.clone(), e.1);
            out.push(entry);
            proof {
                assert(out.deep_view() =~= pre.push(src[i as int]));
                assert(out.deep_view() =~= src.take(i + 1).filter(pred));
                if distinct_keys(src) {
                    assert forall|a: int|
                        0 <= a < out.deep_view().len() implies src.take(i + 1).contains(
                        #[trigger] out.deep_view()[a],
                    ) by {
                        if a < pre.len() {
                            let b = choose|b: int|
                                0 <= b < i && #[trigger] src.take(i as int)[b] == pre[a];
                            assert(src.take(i + 1)[b] == pre[a]);
                        } else {
                            assert(src.take(i + 1)[i as int] == src[i as int]);
                        }
                    }
                    assert forall|a: int, b: int|
                        0 <= a < b < out.deep_view().len() implies out.deep_view()[a].0
                        != out.deep_view()[b].0 by {
                        if b == pre.len() {
                            let c = choose|c: int|
                                0 <= c < i && #[trigger] src.take(i as int)[c] == pre[a];
                            assert(src[c] == pre[a]);
                            assert(src[c].0 != src[i as int].0);
                        }
                    }
                }
            }
        } else {
            proof {
                assert(pre + Seq::<(Seq<char>, usize)>::empty() =~= pre);
                assert(out.deep_view() =~= src.take(i + 1).filter(pred));
                if distinct_keys(src) {
                    assert forall|a: int|
                        0 <= a < out.deep_view().len() implies src.take(i + 1).contains(
                        #[trigger] out.deep_view()[a],
                    ) by {
                        let b = choose|b: int|
                            0 <= b < i && #[trigger] src.take(i as int)[b] == pre[a];
                        assert(src.take(i + 1)[b] == pre[a]);
                    }
                }
            }
        }
        i = i + 1;
    }
    proof {
        assert(src.take(src.len() as int) =~= src);
    }
    out
}

/// File-level stopword removal: every document keeps its name, its
/// frequency map keeps exactly the non-stopword entries.
pub fn remove_stopwords_no_chapters(data: &Vec<DocFreq>, stopwords: &StringHashSet) -> (r: Vec<
    DocFreq,
>)
    ensures
        r@.len() == data@.len(),
        forall|i: int|
            0 <= i < data@.len() ==> r@[i].name@ == data@[i].name@
                && r@[i].counts.deep_view() == filtered_entries(
                data@[i].counts.deep_view(),
                stopwords@,
            ) && (distinct_keys(data@[i].counts.deep_view()) ==> distinct_keys(
                r@[i].counts.deep_view(),
            )),
{
    let mut out: Vec<DocFreq> = Vec::new();
    let mut i: usize = 0;
    while i < data.len()
        invariant
            i <= data@.len(),
            out@.len() == i,
            forall|k: int|
                0 <= k < i ==> out@[k].name@ == data@[k].name@ && out@[k].counts.deep_view()
                    == filtered_entries(data@[k].counts.deep_view(), stopwords@) && (distinct_keys(
                    data@[k].counts.deep_view(),
                ) ==> distinct_keys(out@[k].counts.deep_view())),
        decreases data@.len() - i,
    {
        let d = &data[i];
        let counts = filter_stopwords(&d.counts, stopwords);
        out.push(DocFreq { name: d.name.clone(), counts });
        i = i + 1;
    }
    out
}

/// Chapter-level stopword removal: names and chapter order are kept,
/// each chapter map keeps exactly its non-stopword entries.
pub fn remove_stopwords_with_chapters(data: &Vec<DocChapterFreqs>, stopwords: &StringHashSet) -> (r:
    Vec<DocChapterFreqs>)
    ensures
        r@.len() == data@.len(),
        forall|i: int|
            0 <= i < data@.len() ==> r@[i].name@ == data@[i].name@ && r@[i].chapters@.len()
                == data@[i].chapters@.len() && forall|j: int|
                0 <= j < data@[i].chapters@.len() ==> r@[i].chapters.deep_view()[j]
                    == filtered_entries(data@[i].chapters.deep_view()[j], stopwords@) && (
                distinct_keys(data@[i].chapters.deep_view()[j]) ==> distinct_keys(
                    r@[i].chapters.deep_view()[j],
                )),
{
    let mut out: Vec<DocChapterFreqs> = Vec::new();
    let mut i: usize = 0;
    while i < data.len()
        invariant
            i <= data@.len(),
            out@.len() == i,
            forall|k: int|
                0 <= k < i ==> out@[k].name@ == data@[k].name@ && out@[k].chapters@.len()
                    == data@[k].chapters@.len() && forall|j: int|
                    0 <= j < data@[k].chapters@.len() ==> out@[k].chapters.deep_view()[j]
                        == filtered_entries(data@[k].chapters.deep_view()[j], stopwords@) && (
                    distinct_keys(data@[k].chapters.deep_view()[j]) ==> distinct_keys(
                        out@[k].chapters.deep_view()[j],
                    )),
        decreases data@.len() - i,
    {
        let d = &data[i];
        let mut chapters: Vec<Vec<(String, usize)>> = Vec::new();
        let mut j: usize = 0;
        while j < d.chapters.len()
            invariant
                j <= d.chapters@.len(),
                chapters@.len() == j,
                forall|m: int|
                    0 <= m < j ==> chapters.deep_view()[m] == filtered_entries(
                        d.chapters.deep_view()[m],
                        stopwords@,
                    ) && (distinct_keys(d.chapters.deep_view()[m]) ==> distinct_keys(
                        chapters.deep_view()[m],
                    )),
            decreases d.chapters@.len() - j,
        {
            let ghost pre = chapters.deep_view();
            let filtered = filter_stopwords(&d.chapters[j], stopwords);
            proof {
                assert(d.chapters.deep_view()[j as int] == d.chapters@[j as int].deep_view());
            }
            chapters.push(filtered);
            proof {
                assert(chapters.deep_view() =~= pre.push(filtered.deep_view()));
                assert(forall|m: int| 0 <= m < j ==> chapters.deep_view()[m] == pre[m]);
            }
            j = j + 1;
        }
        out.push(DocChapterFreqs { name: d.name.clone(), chapters });
        i = i + 1;
    }
    out
}

} // verus!
