//! Corpus-wide capitalization normalization: a capitalized token whose
//! lowercase spelling occurs anywhere in the corpus is rewritten to that
//! lowercase spelling, occurrence by occurrence; every other token is
//! left alone.

use vstd::prelude::*;
use vstd::hash_set::StringHashSet;
use crate::casing::{capitalized, is_capitalized, lemma_lower_of_idempotent, lower_of, lowercase};

verus! {

/// One token normalized against a corpus.
pub open spec fn norm_word(w: Seq<char>, corpus: Set<Seq<char>>) -> Seq<char> {
    if capitalized(w) && corpus.contains(lower_of(w)) {
        lower_of(w)
    } else {
        w
    }
}

/// A token stream normalized occurrence by occurrence.
pub open spec fn norm_stream(ws: Seq<Seq<char>>, corpus: Set<Seq<char>>) -> Seq<Seq<char>> {
    ws.map_values(|w: Seq<char>| norm_word(w, corpus))
}

/// The corpus of a token stream: its distinct tokens.
pub open spec fn corpus_of(ws: Seq<Seq<char>>) -> Set<Seq<char>> {
    ws.to_set()
}

/// The distinct words of `words`, as a hash set for membership checks.
pub fn generate_word_corpus_set(words: &Vec<String>) -> (corpus: StringHashSet)
    ensures
        corpus@ == corpus_of(words.deep_view()),
{
    let ghost ws = words.deep_view();
    let mut corpus = StringHashSet::new();
    let mut t: usize = 0;
    proof {
        assert(corpus@ =~= ws.take(0).to_set());
    }
    while t < words.len()
        invariant
            t <= ws.len(),
            words.deep_view() == ws,
            words@.len() == ws.len(),
            corpus@ == ws.take(t as int).to_set(),
        decreases ws.len() - t,
    {
        let w = words[t].clone();
        corpus.insert(w);
        t = t + 1;
        proof {
            assert(corpus@ =~= ws.take(t as int).to_set()) by {
                assert forall|x: Seq<char>| corpus@.contains(x) implies ws.take(
                    t as int,
                ).to_set().contains(x) by {
                    if x == ws[t - 1] {
                        assert(ws.take(t as int)[t - 1] == x);
                        assert(ws.take(t as int).contains(x));
                    } else {
                        let i = choose|i: int| 0 <= i < t - 1 && #[trigger] ws.take(t - 1)[i] == x;
                        assert(ws.take(t as int)[i] == x);
                        assert(ws.take(t as int).contains(x));
                    }
                }
                assert forall|x: Seq<char>| ws.take(t as int).to_set().contains(x)
                    implies corpus@.contains(x) by {
                    let i = choose|i: int| 0 <= i < t && #[trigger] ws.take(t as int)[i] == x;
                    if i < t - 1 {
                        assert(ws.take(t - 1)[i] == x);
                        assert(ws.take(t - 1).contains(x));
                    }
                }
            }
        }
    }
    proof {
        assert(ws.take(ws.len() as int) =~= ws);
    }
    corpus
}

/// `words` normalized occurrence by occurrence against `corpus`.
pub fn normalize_with_corpus(words: &Vec<String>, corpus: &StringHashSet) -> (r: Vec<String>)
    ensures
        r.deep_view() == norm_stream(words.deep_view(), corpus@),
{
    let ghost ws = words.deep_view();
    let mut out: Vec<String> = Vec::new();
    let mut t: usize = 0;
    while t < words.len()
        invariant
            t <= ws.len(),
            words.deep_view() == ws,
            words@.len() == ws.len(),
            out@.len() == t,
            forall|k: int| 0 <= k < t ==> out.deep_view()[k] == norm_word(ws[k], corpus@),
        decreases ws.len() - t,
    {
        let ghost pre = out.deep_view();
        let w = &words[t];
        if is_capitalized(w.as_str()) {
            let low = lowercase(w.as_str());
            if corpus.contains(low.as_str()) {
                out.push(low);
            } else {
                out.push(w.clone());
            }
        } else {
            out.push(w.clone());
        }
        proof {
            assert(out.deep_view() =~= pre.push(norm_word(ws[t as int], corpus@)));
            assert(forall|k: int| 0 <= k < t ==> out.deep_view()[k] == pre[k]);
        }
        t = t + 1;
    }
    proof {
        assert(out.deep_view() =~= norm_stream(ws, corpus@));
    }
    out
}

/// `input` normalized against the corpus of its own distinct words.
pub fn normalize_capitalization(input: &Vec<String>) -> (r: Vec<String>)
    ensures
        r.deep_view() == norm_stream(input.deep_view(), corpus_of(input.deep_view())),
{
    let corpus = generate_word_corpus_set(input);
    normalize_with_corpus(input, &corpus)
}

/// Normalizing a token stream twice against its own corpus gives the
/// same stream as normalizing it once: the first pass leaves no token
/// that a second pass would rewrite.
pub proof fn lemma_normalize_idempotent(ws: Seq<Seq<char>>)
    ensures
        norm_stream(
            norm_stream(ws, corpus_of(ws)),
            corpus_of(norm_stream(ws, corpus_of(ws))),
        ) == norm_stream(ws, corpus_of(ws)),
{
    let c1 = corpus_of(ws);
    let ys = norm_stream(ws, c1);
    let c2 = corpus_of(ys);
    assert forall|x: Seq<char>| c2.contains(x) implies c1.contains(x) by {
        let j = choose|j: int| 0 <= j < ys.len() && #[trigger] ys[j] == x;
        assert(ys[j] == norm_word(ws[j], c1));
        if capitalized(ws[j]) && c1.contains(lower_of(ws[j])) {
        } else {
            assert(x == ws[j]);
            assert(ws.contains(x));
        }
    }
    assert(norm_stream(ys, c2) =~= ys) by {
        assert forall|k: int| 0 <= k < ys.len() implies norm_stream(ys, c2)[k] == ys[k] by {
            let w = ws[k];
            assert(ys[k] == norm_word(w, c1));
            if capitalized(w) && c1.contains(lower_of(w)) {
                lemma_lower_of_idempotent(w);
                assert(lower_of(ys[k]) == ys[k]);
            } else {
                assert(ys[k] == w);
                if capitalized(w) {
                    assert(!c1.contains(lower_of(w)));
                    assert(!c2.contains(lower_of(w)));
                }
            }
        }
    }
}

} // verus!
