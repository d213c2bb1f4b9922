//! Document digestion: split each document into chapters, tokenize each
//! chapter, build the corpus of distinct raw tokens over the whole
//! input, and rewrite every token stream through the capitalization
//! normalizer.  Phrase counting later works on the raw chapter text,
//! which is returned untouched.

use vstd::prelude::*;
use vstd::hash_set::StringHashSet;
use crate::chapters::{split_into_chapters, split_on};
use crate::normalize::{corpus_of, norm_stream, normalize_with_corpus, generate_word_corpus_set};
use crate::text::{tokenize, tokens_of};

verus! {

/// One input document: a unique name and its raw text.
#[derive(Clone)]
pub struct Document {
    pub name: String,
    pub text: String,
}

/// A document's raw chapter texts, in order.
pub struct DocChapters {
    pub name: String,
    pub chapters: Vec<String>,
}

/// A document's per-chapter token streams, in order.
pub struct DocTokens {
    pub name: String,
    pub chapters: Vec<Vec<String>>,
}

/// Everything digestion produces: raw chapters, normalized token
/// streams, and the corpus of distinct raw tokens.
pub struct DigestResult {
    pub raw: Vec<DocChapters>,
    pub tokens: Vec<DocTokens>,
    pub corpus: StringHashSet,
}

/// The per-chapter token streams of one document text.
pub open spec fn doc_token_streams(text: Seq<char>, sep: Seq<char>) -> Seq<Seq<Seq<char>>> {
    split_on(text, sep).map_values(|ch: Seq<char>| tokens_of(ch))
}

/// A list of token streams flattened into one stream.
pub open spec fn flatten_streams(chs: Seq<Seq<Seq<char>>>) -> Seq<Seq<char>>
    decreases chs.len(),
{
    if chs.len() == 0 {
        Seq::empty()
    } else {
        flatten_streams(chs.drop_last()) + chs.last()
    }
}

/// Every token of every chapter of every document, in reading order.
pub open spec fn corpus_stream(docs: Seq<Document>, sep: Seq<char>) -> Seq<Seq<char>>
    decreases docs.len(),
{
    if docs.len() == 0 {
        Seq::empty()
    } else {
        corpus_stream(docs.drop_last(), sep) + flatten_streams(
            doc_token_streams(docs.last().text@, sep),
        )
    }
}

/// One document's chapters tokenized: the streams, and the same tokens
/// as one flat list.
fn tokenize_chapters(chapters: &Vec<String>) -> (r: (Vec<Vec<String>>, Vec<String>))
    ensures
        r.0.deep_view() == chapters.deep_view().map_values(|ch: Seq<char>| tokens_of(ch)),
        r.1.deep_view() == flatten_streams(
            chapters.deep_view().map_values(|ch: Seq<char>| tokens_of(ch)),
        ),
{
    let ghost chs = chapters.deep_view();
    let ghost mapped = chs.map_values(|ch: Seq<char>| tokens_of(ch));
    let mut streams: Vec<Vec<String>> = Vec::new();
    let mut flat: Vec<String> = Vec::new();
    let mut j: usize = 0;
    proof {
        assert(streams.deep_view() =~= mapped.take(0));
        assert(flat.deep_view() =~= flatten_streams(mapped.take(0)));
    }
    while j < chapters.len()
        invariant
            j <= chs.len(),
            chapters.deep_view() == chs,
            chapters@.len() == chs.len(),
            mapped == chs.map_values(|ch: Seq<char>| tokens_of(ch)),
            streams.deep_view() == mapped.take(j as int),
            flat.deep_view() == flatten_streams(mapped.take(j as int)),
        decreases chs.len() - j,
    {
        let ghost pre_streams = streams.deep_view();
        let ghost pre_flat = flat.deep_view();
        let toks = tokenize(chapters[j].as_str());
        proof {
            assert(chapters.deep_view()[j as int] == chapters@[j as int]@);
            assert(toks.deep_view() == mapped[j as int]);
            assert(mapped.take(j + 1).drop_last() =~= mapped.take(j as int));
            assert(mapped.take(j + 1).last() == mapped[j as int]);
        }
        let mut copy: Vec<String> = Vec::new();
        let mut t: usize = 0;
        while t < toks.len()
            invariant
                t <= toks@.len(),
                copy.deep_view() == toks.deep_view().take(t as int),
                copy@.len() == t,
            decreases toks@.len() - t,
        {
            let ghost pre_copy = copy.deep_view();
            copy.push(toks[t].clone());
            proof {
                assert(copy.deep_view() =~= pre_copy.push(toks.deep_view()[t as int]));
                assert(copy.deep_view() =~= toks.deep_view().take(t + 1));
            }
            t = t + 1;
        }
        proof {
            assert(copy.deep_view() =~= toks.deep_view());
        }
        let mut copy = copy;
        flat.append(&mut copy);
        streams.push(toks);
        proof {
            assert(streams.deep_view() =~= pre_streams.push(mapped[j as int]));
            assert(streams.deep_view() =~= mapped.take(j + 1));
            assert(flat.deep_view() =~= pre_flat + mapped[j as int]);
            assert(flat.deep_view() =~= flatten_streams(mapped.take(j + 1)));
        }
        j = j + 1;
    }
    proof {
        assert(mapped.take(mapped.len() as int) =~= mapped);
    }
    (streams, flat)
}

/// Digest a whole corpus: split every document on `chapter_sep`,
/// tokenize every chapter, collect the distinct raw tokens, and rewrite
/// every stream through the corpus-wide capitalization normalizer.
pub fn digest_files(files: &Vec<Document>, chapter_sep: &str) -> (r: DigestResult)
    ensures
        r.raw@.len() == files@.len(),
        r.tokens@.len() == files@.len(),
        r.corpus@ == corpus_of(corpus_stream(files@, chapter_sep@)),
        forall|i: int| #![trigger r.raw@[i]]
            0 <= i < files@.len() ==> r.raw@[i].name@ == files@[i].name@
                && r.raw@[i].chapters.deep_view() == split_on(files@[i].text@, chapter_sep@),
        forall|i: int| #![trigger r.tokens@[i]]
            0 <= i < files@.len() ==> r.tokens@[i].name@ == files@[i].name@
                && r.tokens@[i].chapters.deep_view() == doc_token_streams(
                files@[i].text@,
                chapter_sep@,
            ).map_values(
                |ts: Seq<Seq<char>>|
                    norm_stream(ts, corpus_of(corpus_stream(files@, chapter_sep@))),
            ),
{
    let ghost fs = files@;
    let ghost sep = chapter_sep@;
    let mut raw: Vec<DocChapters> = Vec::new();
    let mut pretoks: Vec<DocTokens> = Vec::new();
    let mut all_words: Vec<String> = Vec::new();
    let mut i: usize = 0;
    proof {
        assert(all_words.deep_view() =~= corpus_stream(fs.take(0), sep));
    }
    while i < files.len()
        invariant
            i <= fs.len(),
            files@ == fs,
            chapter_sep@ == sep,
            raw@.len() == i,
            pretoks@.len() == i,
            all_words.deep_view() == corpus_stream(fs.take(i as int), sep),
            forall|k: int| #![trigger raw@[k]]
                0 <= k < i ==> raw@[k].name@ == fs[k].name@
                    && raw@[k].chapters.deep_view() == split_on(fs[k].text@, sep),
            forall|k: int| #![trigger pretoks@[k]]
                0 <= k < i ==> pretoks@[k].name@ == fs[k].name@
                    && pretoks@[k].chapters.deep_view() == doc_token_streams(fs[k].text@, sep),
        decreases fs.len() - i,
    {
        let ghost pre_words = all_words.deep_view();
        let f = &files[i];
        let chapters = split_into_chapters(f.text.as_str(), chapter_sep);
        let (streams, mut flat) = tokenize_chapters(&chapters);
        proof {
            assert(fs.take(i + 1).drop_last() =~= fs.take(i as int));
            assert(fs.take(i + 1).last() == fs[i as int]);
            assert(streams.deep_view() == doc_token_streams(fs[i as int].text@, sep));
            assert(flat.deep_view() == flatten_streams(doc_token_streams(fs[i as int].text@, sep)));
        }
        all_words.append(&mut flat);
        raw.push(DocChapters { name: f.name.clone(), chapters });
        pretoks.push(DocTokens { name: f.name.clone(), chapters: streams });
        proof {
            assert(all_words.deep_view() =~= pre_words + flatten_streams(
                doc_token_streams(fs[i as int].text@, sep),
            ));
            assert(all_words.deep_view() =~= corpus_stream(fs.take(i + 1), sep));
        }
        i = i + 1;
    }
    proof {
        assert(fs.take(fs.len() as int) =~= fs);
    }
    proof {
        assert(forall|k: int| #![trigger pretoks@[k]]
            0 <= k < pretoks@.len() ==> pretoks@[k].name@ == fs[k].name@
                && pretoks@[k].chapters.deep_view() == doc_token_streams(fs[k].text@, sep));
    }
    let corpus = generate_word_corpus_set(&all_words);
    let ghost cset = corpus_of(corpus_stream(fs, sep));
    let mut tokens: Vec<DocTokens> = Vec::new();
    let mut i: usize = 0;
    while i < pretoks.len()
        invariant
            i <= pretoks@.len(),
            pretoks@.len() == fs.len(),
            files@ == fs,
            chapter_sep@ == sep,
            corpus@ == cset,
            tokens@.len() == i,
            forall|k: int| #![trigger pretoks@[k]]
                0 <= k < pretoks@.len() ==> pretoks@[k].name@ == fs[k].name@
                    && pretoks@[k].chapters.deep_view() == doc_token_streams(fs[k].text@, sep),
            forall|k: int| #![trigger tokens@[k]]
                0 <= k < i ==> tokens@[k].name@ == fs[k].name@
                    && tokens@[k].chapters.deep_view() == doc_token_streams(
                    fs[k].text@,
                    sep,
                ).map_values(|ts: Seq<Seq<char>>| norm_stream(ts, cset)),
        decreases pretoks@.len() - i,
    {
        let d = &pretoks[i];
        let ghost dstreams = d.chapters.deep_view();
        proof {
            assert(dstreams == doc_token_streams(fs[i as int].text@, sep));
        }
        let mut normed: Vec<Vec<String>> = Vec::new();
        let mut j: usize = 0;
        while j < d.chapters.len()
            invariant
                j <= dstreams.len(),
                d.chapters.deep_view() == dstreams,
                d.chapters@.len() == dstreams.len(),
                corpus@ == cset,
                normed@.len() == j,
                forall|m: int|
                    0 <= m < j ==> #[trigger] normed.deep_view()[m] == norm_stream(
                        dstreams[m],
                        cset,
                    ),
            decreases dstreams.len() - j,
        {
            let ghost pre = normed.deep_view();
            let ns = normalize_with_corpus(&d.chapters[j], &corpus);
            proof {
                assert(d.chapters.deep_view()[j as int] == d.chapters@[j as int].deep_view());
            }
            normed.push(ns);
            proof {
                assert(normed.deep_view() =~= pre.push(norm_stream(dstreams[j as int], cset)));
                assert(forall|m: int| 0 <= m < j ==> normed.deep_view()[m] == pre[m]);
            }
            j = j + 1;
        }
        tokens.push(DocTokens { name: d.name.clone(), chapters: normed });
        proof {
            assert(tokens@[i as int].chapters.deep_view() =~= doc_token_streams(
                fs[i as int].text@,
                sep,
            ).map_values(|ts: Seq<Seq<char>>| norm_stream(ts, cset)));
        }
        i = i + 1;
    }
    DigestResult { raw, tokens, corpus }
}

} // verus!
