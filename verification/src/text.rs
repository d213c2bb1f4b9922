//! Punctuation normalization, whitespace collapsing and word splitting:
//! the tokenizer that every later stage of the pipeline builds on.
//!
//! A character that is not a letter, digit, whitespace, `-`, `*` or an
//! apostrophe becomes a space (the Unicode right single quote is first
//! rewritten to an ASCII apostrophe so contractions stay one word); runs
//! of whitespace then collapse to a single space, and the result is
//! trimmed.  Tokens are the maximal whitespace-free runs of that text.

use vstd::prelude::*;
use crate::strutil::{
    char_alphanumeric, char_unicode_whitespace, chars_of, is_alphanumeric_char,
    is_whitespace_char, string_from_chars,
};

verus! {

/// Whether `c` separates words: a space, or any Unicode whitespace.
pub open spec fn space_like(c: char) -> bool {
    c == ' ' || char_unicode_whitespace(c)
}

/// Whether `c` survives punctuation scrubbing unchanged.
pub open spec fn keep_char(c: char) -> bool {
    char_alphanumeric(c) || space_like(c) || c == '-' || c == '*' || c == '\''
}

/// One character after punctuation scrubbing: the right single quote
/// becomes an apostrophe, kept characters stay, the rest become spaces.
pub open spec fn scrub_char(c: char) -> char {
    if c == '\u{2019}' {
        '\''
    } else if keep_char(c) {
        c
    } else {
        ' '
    }
}

/// `s` scrubbed character by character.
pub open spec fn scrub(s: Seq<char>) -> Seq<char> {
    s.map_values(|c: char| scrub_char(c))
}

/// The maximal whitespace-free runs of `s`, in order.
pub open spec fn split_ws(s: Seq<char>) -> Seq<Seq<char>>
    decreases s.len(),
{
    if s.len() == 0 {
        Seq::empty()
    } else {
        let c = s.last();
        let rest = split_ws(s.drop_last());
        if space_like(c) {
            rest
        } else if s.len() >= 2 && !space_like(s[s.len() - 2]) {
            rest.update(rest.len() - 1, rest.last().push(c))
        } else {
            rest.push(seq![c])
        }
    }
}

/// The words of `ws` joined by single spaces.
pub open spec fn join_words(ws: Seq<Seq<char>>) -> Seq<char>
    decreases ws.len(),
{
    if ws.len() == 0 {
        Seq::empty()
    } else if ws.len() == 1 {
        ws[0]
    } else {
        join_words(ws.drop_last()) + seq![' '] + ws.last()
    }
}

/// The fully normalized text: scrubbed, collapsed and trimmed.
pub open spec fn normalized_text(s: Seq<char>) -> Seq<char> {
    join_words(split_ws(scrub(s)))
}

/// The token stream of a raw text.
pub open spec fn tokens_of(s: Seq<char>) -> Seq<Seq<char>> {
    split_ws(normalized_text(s))
}

/// A well-formed word list: every word is non-empty and free of
/// whitespace.
pub open spec fn words_wf(ws: Seq<Seq<char>>) -> bool {
    forall|i: int|
        0 <= i < ws.len() ==> (#[trigger] ws[i]).len() > 0 && forall|k: int|
            0 <= k < ws[i].len() ==> !space_like(#[trigger] ws[i][k])
}

/// Splitting always yields well-formed words, and a text that does not
/// end in whitespace yields at least one.
proof fn lemma_split_ws_wf(s: Seq<char>)
    ensures
        words_wf(split_ws(s)),
        s.len() > 0 && !space_like(s.last()) ==> split_ws(s).len() >= 1,
    decreases s.len(),
{
    if s.len() > 0 {
        lemma_split_ws_wf(s.drop_last());
        let c = s.last();
        let rest = split_ws(s.drop_last());
        if space_like(c) {
        } else if s.len() >= 2 && !space_like(s[s.len() - 2]) {
            assert(s.drop_last().last() == s[s.len() - 2]);
            assert(rest.len() >= 1);
            let updated = rest.update(rest.len() - 1, rest.last().push(c));
            assert forall|i: int|
                0 <= i < updated.len() implies (#[trigger] updated[i]).len() > 0 && forall|k: int|
                0 <= k < updated[i].len() ==> !space_like(#[trigger] updated[i][k]) by {
                if i < updated.len() - 1 {
                    assert(updated[i] == rest[i]);
                } else {
                    assert(updated[i] == rest.last().push(c));
                }
            }
        } else {
            assert forall|i: int|
                0 <= i < rest.push(seq![c]).len() implies (#[trigger] rest.push(
                seq![c],
            )[i]).len() > 0 && forall|k: int|
                0 <= k < rest.push(seq![c])[i].len() ==> !space_like(
                    #[trigger] rest.push(seq![c])[i][k],
                ) by {
                if i < rest.len() {
                    assert(rest.push(seq![c])[i] == rest[i]);
                } else {
                    assert(rest.push(seq![c])[i] =~= seq![c]);
                }
            }
        }
    }
}

/// A single well-formed word splits to itself.
proof fn lemma_split_single_word(w: Seq<char>)
    requires
        w.len() > 0,
        forall|k: int| 0 <= k < w.len() ==> !space_like(#[trigger] w[k]),
    ensures
        split_ws(w) == seq![w],
    decreases w.len(),
{
    assert(!space_like(w.last()));
    if w.len() == 1 {
        assert(w.drop_last() =~= Seq::<char>::empty());
        assert(split_ws(Seq::<char>::empty()) =~= Seq::<Seq<char>>::empty());
        assert(split_ws(w) =~= Seq::<Seq<char>>::empty().push(seq![w.last()]));
        assert(seq![w.last()] =~= w);
        assert(split_ws(w) =~= seq![w]);
    } else {
        assert(forall|k: int| 0 <= k < w.drop_last().len() ==> w.drop_last()[k] == w[k]);
        lemma_split_single_word(w.drop_last());
        assert(w[w.len() - 2] == w.drop_last().last());
        assert(!space_like(w[w.len() - 2]));
        let rest = split_ws(w.drop_last());
        assert(rest == seq![w.drop_last()]);
        assert(rest.last() == w.drop_last());
        assert(split_ws(w) == rest.update(0, w.drop_last().push(w.last())));
        assert(w.drop_last().push(w.last()) =~= w);
        assert(split_ws(w) =~= seq![w]);
    }
}

/// Appending a space changes nothing for splitting.
proof fn lemma_split_trailing_space(x: Seq<char>)
    ensures
        split_ws(x + seq![' ']) == split_ws(x),
{
    let s = x + seq![' '];
    assert(s.last() == ' ');
    assert(space_like(' '));
    assert(s.drop_last() =~= x);
}

/// Splitting `x`, a space, then a well-formed word appends that word to
/// the words of `x`.
proof fn lemma_split_append_word(x: Seq<char>, w: Seq<char>)
    requires
        w.len() > 0,
        forall|k: int| 0 <= k < w.len() ==> !space_like(#[trigger] w[k]),
    ensures
        split_ws(x + seq![' '] + w) == split_ws(x).push(w),
    decreases w.len(),
{
    let s = x + seq![' '] + w;
    assert(s.last() == w.last());
    assert(!space_like(s.last()));
    if w.len() == 1 {
        assert(s[s.len() - 2] == ' ');
        assert(space_like(s[s.len() - 2]));
        assert(s.drop_last() =~= x + seq![' ']);
        lemma_split_trailing_space(x);
        assert(split_ws(s) == split_ws(x + seq![' ']).push(seq![s.last()]));
        assert(seq![s.last()] =~= w);
        assert(split_ws(s) =~= split_ws(x).push(w));
    } else {
        assert(s[s.len() - 2] == w[w.len() - 2]);
        assert(!space_like(s[s.len() - 2]));
        assert(forall|k: int| 0 <= k < w.drop_last().len() ==> w.drop_last()[k] == w[k]);
        lemma_split_append_word(x, w.drop_last());
        assert(s.drop_last() =~= x + seq![' '] + w.drop_last());
        let rest = split_ws(s.drop_last());
        assert(rest == split_ws(x).push(w.drop_last()));
        assert(rest.len() == split_ws(x).len() + 1);
        assert(rest.last() == w.drop_last());
        assert(split_ws(s) == rest.update(rest.len() - 1, w.drop_last().push(w.last())));
        assert(w.drop_last().push(w.last()) =~= w);
        assert(split_ws(s) =~= split_ws(x).push(w));
    }
}

/// Joining well-formed words and splitting again gives the words back.
pub proof fn lemma_join_split_roundtrip(ws: Seq<Seq<char>>)
    requires
        words_wf(ws),
    ensures
        split_ws(join_words(ws)) == ws,
    decreases ws.len(),
{
    if ws.len() == 0 {
        assert(split_ws(join_words(ws)) =~= ws);
    } else if ws.len() == 1 {
        lemma_split_single_word(ws[0]);
        assert(split_ws(join_words(ws)) =~= ws);
    } else {
        assert(forall|i: int| 0 <= i < ws.drop_last().len() ==> ws.drop_last()[i] == ws[i]);
        lemma_join_split_roundtrip(ws.drop_last());
        lemma_split_append_word(join_words(ws.drop_last()), ws.last());
        assert(split_ws(join_words(ws)) =~= ws.drop_last().push(ws.last()));
        assert(ws.drop_last().push(ws.last()) =~= ws);
    }
}

/// The token stream of a text is exactly the word runs of its scrubbed
/// form: collapsing the whitespace first changes nothing.
pub proof fn lemma_tokens_of_direct(s: Seq<char>)
    ensures
        tokens_of(s) == split_ws(scrub(s)),
{
    lemma_split_ws_wf(scrub(s));
    lemma_join_split_roundtrip(split_ws(scrub(s)));
}

/// Whether `c` separates words, decided executably.
pub fn is_space_like(c: char) -> (r: bool)
    ensures
        r == space_like(c),
{
    c == ' ' || is_whitespace_char(c)
}

/// One character scrubbed, decided executably.
fn scrub_one(c: char) -> (r: char)
    ensures
        r == scrub_char(c),
{
    if c == '\u{2019}' {
        '\''
    } else if is_alphanumeric_char(c) || c == ' ' || is_whitespace_char(c) || c == '-' || c == '*'
        || c == '\'' {
        c
    } else {
        ' '
    }
}

/// `cs` scrubbed character by character.
fn scrub_chars(cs: &Vec<char>) -> (r: Vec<char>)
    ensures
        r@ == scrub(cs@),
{
    let mut out: Vec<char> = Vec::new();
    let mut i: usize = 0;
    while i < cs.len()
        invariant
            i <= cs@.len(),
            out@ == scrub(cs@.take(i as int)),
        decreases cs@.len() - i,
    {
        let c = scrub_one(cs[i]);
        out.push(c);
        i = i + 1;
        proof {
            assert(out@ =~= scrub(cs@.take(i as int)));
        }
    }
    proof {
        assert(cs@.take(cs@.len() as int) =~= cs@);
    }
    out
}

/// The words of `cs`, split on whitespace.
fn split_words_vec(cs: &Vec<char>) -> (r: Vec<String>)
    ensures
        r.deep_view() == split_ws(cs@),
{
    let ghost full = cs@;
    let mut words: Vec<String> = Vec::new();
    let mut cur: Vec<char> = Vec::new();
    let mut i: usize = 0;
    while i < cs.len()
        invariant
            i <= full.len(),
            cs@ == full,
            cur@.len() == 0 ==> words.deep_view() == split_ws(full.take(i as int)) && (i == 0
                || space_like(full[i - 1])),
            cur@.len() > 0 ==> split_ws(full.take(i as int)) == words.deep_view().push(cur@) && i
                >= 1 && !space_like(full[i - 1]),
        decreases full.len() - i,
    {
        let c = cs[i];
        proof {
            assert(full.take(i + 1).drop_last() =~= full.take(i as int));
            assert(full.take(i + 1).last() == full[i as int]);
        }
        if is_space_like(c) {
            if cur.len() > 0 {
                let ghost old_words = words.deep_view();
                let w = string_from_chars(cur.as_slice());
                words.push(w);
                cur = Vec::new();
                proof {
                    assert(words.deep_view() =~= old_words.push(w@));
                }
            }
            proof {
                assert(split_ws(full.take(i + 1)) == split_ws(full.take(i as int)));
            }
        } else {
            if cur.len() == 0 {
                proof {
                    assert(split_ws(full.take(i + 1)) =~= words.deep_view().push(seq![c]));
                }
                cur.push(c);
                proof {
                    assert(cur@ =~= seq![c]);
                }
            } else {
                let ghost rest = split_ws(full.take(i as int));
                proof {
                    assert(rest.last() == cur@);
                    assert(rest.len() >= 1);
                    assert(full.take(i + 1)[i - 1] == full[i - 1]);
                    assert(split_ws(full.take(i + 1)) == rest.update(
                        rest.len() - 1,
                        rest.last().push(c),
                    ));
                    assert(rest.update(rest.len() - 1, cur@.push(c)) =~= words.deep_view().push(
                        cur@.push(c),
                    ));
                }
                cur.push(c);
            }
        }
        i = i + 1;
    }
    proof {
        assert(full.take(full.len() as int) =~= full);
    }
    if cur.len() > 0 {
        let ghost old_words = words.deep_view();
        let w = string_from_chars(cur.as_slice());
        words.push(w);
        proof {
            assert(words.deep_view() =~= old_words.push(w@));
        }
    }
    words
}

/// The words of `words` joined by single spaces, as characters.
fn join_words_exec(words: &Vec<String>) -> (r: Vec<char>)
    ensures
        r@ == join_words(words.deep_view()),
{
    let ghost ws = words.deep_view();
    let mut out: Vec<char> = Vec::new();
    let mut k: usize = 0;
    while k < words.len()
        invariant
            k <= ws.len(),
            words.deep_view() == ws,
            words@.len() == ws.len(),
            out@ == join_words(ws.take(k as int)),
        decreases ws.len() - k,
    {
        proof {
            assert(ws.take(k + 1).drop_last() =~= ws.take(k as int));
            assert(ws.take(k + 1).last() == ws[k as int]);
        }
        if k > 0 {
            out.push(' ');
        }
        let mut cs = chars_of(words[k].as_str());
        proof {
            assert(cs@ == ws[k as int]);
        }
        out.append(&mut cs);
        k = k + 1;
        proof {
            if k == 1 {
                assert(join_words(ws.take(1)) == ws[0]);
                assert(out@ =~= join_words(ws.take(k as int)));
            } else {
                assert(join_words(ws.take(k as int)) == join_words(ws.take(k - 1)) + seq![' ']
                    + ws[k - 1]);
                assert(out@ =~= join_words(ws.take(k as int)));
            }
        }
    }
    proof {
        assert(ws.take(ws.len() as int) =~= ws);
    }
    out
}

/// The normalized form of `text`: punctuation scrubbed, whitespace
/// collapsed to single spaces, leading and trailing whitespace removed.
pub fn trim_punctuations(text: &str) -> (r: String)
    ensures
        r@ == normalized_text(text@),
{
    let cs = chars_of(text);
    let scrubbed = scrub_chars(&cs);
    let words = split_words_vec(&scrubbed);
    let joined = join_words_exec(&words);
    string_from_chars(joined.as_slice())
}

/// The whitespace-delimited words of `text`, in order.
pub fn split_into_words(text: &str) -> (r: Vec<String>)
    ensures
        r.deep_view() == split_ws(text@),
{
    let cs = chars_of(text);
    split_words_vec(&cs)
}

/// The token stream of `text`: normalize the punctuation, then split.
pub fn tokenize(text: &str) -> (r: Vec<String>)
    ensures
        r.deep_view() == tokens_of(text@),
{
    let normalized = trim_punctuations(text);
    split_into_words(normalized.as_str())
}

} // verus!
