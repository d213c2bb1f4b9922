//! Exact substring search: splitting a document into chapters on a
//! separator, and counting non-overlapping occurrences of a phrase.

use vstd::prelude::*;
use crate::strutil::string_from_chars;

verus! {

/// Whether `pat` occurs in `s` starting at index `i`.
pub open spec fn match_at(s: Seq<char>, pat: Seq<char>, i: int) -> bool {
    0 <= i && i + pat.len() <= s.len() && s.subrange(i, i + pat.len()) == pat
}

/// The first index `>= i` at which the non-empty `pat` occurs in `s`,
/// or `-1`.
pub open spec fn first_match_from(s: Seq<char>, pat: Seq<char>, i: int) -> int
    decreases s.len() - i,
{
    if pat.len() == 0 || i < 0 || i + pat.len() > s.len() {
        -1
    } else if match_at(s, pat, i) {
        i
    } else {
        first_match_from(s, pat, i + 1)
    }
}

proof fn lemma_first_match_from_bounds(s: Seq<char>, pat: Seq<char>, i: int)
    requires
        pat.len() >= 1,
    ensures
        first_match_from(s, pat, i) == -1 || (i <= first_match_from(s, pat, i)
            && first_match_from(s, pat, i) + pat.len() <= s.len() && match_at(
            s,
            pat,
            first_match_from(s, pat, i),
        )),
    decreases s.len() - i,
{
    if i < 0 || i + pat.len() > s.len() {
    } else if match_at(s, pat, i) {
    } else {
        lemma_first_match_from_bounds(s, pat, i + 1);
    }
}

/// `s` split on every non-overlapping occurrence of `sep`, left to right.
/// With no occurrence (or an empty separator) the result is `s` alone;
/// empty pieces are kept.
pub open spec fn split_on(s: Seq<char>, sep: Seq<char>) -> Seq<Seq<char>>
    decreases s.len(),
    via split_on_decreases
{
    if sep.len() == 0 {
        seq![s]
    } else {
        let i = first_match_from(s, sep, 0);
        if i < 0 {
            seq![s]
        } else {
            seq![s.take(i)] + split_on(s.skip(i + sep.len()), sep)
        }
    }
}

#[via_fn]
proof fn split_on_decreases(s: Seq<char>, sep: Seq<char>) {
    if sep.len() > 0 {
        lemma_first_match_from_bounds(s, sep, 0);
    }
}

/// How many times `pat` occurs in `s`, counting non-overlapping
/// occurrences left to right.  An empty pattern matches at every
/// character boundary.
pub open spec fn phrase_count(s: Seq<char>, pat: Seq<char>) -> int {
    if pat.len() == 0 {
        s.len() as int + 1
    } else {
        split_on(s, pat).len() - 1
    }
}

/// Splitting never yields an empty list of pieces.
pub proof fn lemma_split_on_nonempty(s: Seq<char>, sep: Seq<char>)
    ensures
        split_on(s, sep).len() >= 1,
    decreases s.len(),
{
    if sep.len() == 0 {
    } else {
        let i = first_match_from(s, sep, 0);
        if i >= 0 {
            lemma_first_match_from_bounds(s, sep, 0);
            lemma_split_on_nonempty(s.skip(i + sep.len()), sep);
        }
    }
}

/// Whether `pat` occurs in `cs` at index `i`, decided executably.
fn match_here(cs: &Vec<char>, pat: &Vec<char>, i: usize) -> (r: bool)
    requires
        i + pat@.len() <= cs@.len(),
    ensures
        r == match_at(cs@, pat@, i as int),
{
    let n = cs.len();
    let mut j: usize = 0;
    while j < pat.len()
        invariant
            j <= pat@.len(),
            n == cs@.len(),
            i + pat@.len() <= cs@.len(),
            forall|k: int| 0 <= k < j ==> cs@[i + k] == pat@[k],
        decreases pat@.len() - j,
    {
        if cs[i + j] != pat[j] {
            proof {
                assert(cs@.subrange(i as int, i + pat@.len())[j as int] == cs@[i + j]);
            }
            return false;
        }
        j = j + 1;
    }
    proof {
        assert(cs@.subrange(i as int, i + pat@.len()) =~= pat@);
    }
    true
}

/// The characters `cs[a..b]`, as a string.
pub fn substring_vec(cs: &Vec<char>, a: usize, b: usize) -> (r: String)
    requires
        a <= b <= cs@.len(),
    ensures
        r@ == cs@.subrange(a as int, b as int),
{
    let mut out: Vec<char> = Vec::new();
    let mut i: usize = a;
    while i < b
        invariant
            a <= i <= b <= cs@.len(),
            out@ == cs@.subrange(a as int, i as int),
        decreases b - i,
    {
        out.push(cs[i]);
        i = i + 1;
        proof {
            assert(cs@.subrange(a as int, i as int) =~= cs@.subrange(a as int, i - 1).push(
                cs@[i - 1],
            ));
        }
    }
    string_from_chars(out.as_slice())
}

/// The pieces of `cs` split on `sep`, left to right.
fn split_chars_on(cs: &Vec<char>, sep: &Vec<char>) -> (r: Vec<String>)
    requires
        sep@.len() >= 1,
    ensures
        r.deep_view() == split_on(cs@, sep@),
{
    let ghost full = cs@;
    let m = sep.len();
    let n = cs.len();
    let mut done: Vec<String> = Vec::new();
    if m > n {
        proof {
            lemma_first_match_from_bounds(full, sep@, 0);
            if first_match_from(full, sep@, 0) >= 0 {
                assert(false);
            }
        }
        let whole = substring_vec(cs, 0, n);
        done.push(whole);
        proof {
            assert(full.subrange(0, n as int) =~= full);
            assert(done.deep_view() =~= split_on(full, sep@));
        }
        return done;
    }
    let mut start: usize = 0;
    let mut i: usize = 0;
    proof {
        assert(done.deep_view() =~= Seq::<Seq<char>>::empty());
        assert(full.skip(0) =~= full);
        assert(split_on(full, sep@) =~= Seq::<Seq<char>>::empty() + split_on(full, sep@));
    }
    while i <= n - m
        invariant
            sep@.len() == m,
            cs@ == full,
            full.len() == n,
            1 <= m <= n,
            start <= i <= n,
            split_on(full, sep@) == done.deep_view() + split_on(full.skip(start as int), sep@),
            first_match_from(full.skip(start as int), sep@, 0) == first_match_from(
                full.skip(start as int),
                sep@,
                i - start,
            ),
        decreases n - i,
    {
        let ghost rem = full.skip(start as int);
        let ghost rel = i - start;
        if match_here(cs, sep, i) {
            proof {
                assert(rem.subrange(rel, rel + m) =~= full.subrange(i as int, i + m));
                assert(match_at(rem, sep@, rel));
                assert(first_match_from(rem, sep@, 0) == rel);
                assert(split_on(rem, sep@) == seq![rem.take(rel)] + split_on(
                    rem.skip(rel + m),
                    sep@,
                ));
                assert(rem.take(rel) =~= full.subrange(start as int, i as int));
            }
            let chunk = substring_vec(cs, start, i);
            let ghost old_done = done.deep_view();
            done.push(chunk);
            proof {
                assert(done.deep_view() =~= old_done.push(chunk@));
                assert(rem.skip(rel + m) =~= full.skip(i + m));
                assert(split_on(full, sep@) =~= done.deep_view() + split_on(
                    full.skip(i + m),
                    sep@,
                ));
                assert(full.skip(i + m).skip(0) =~= full.skip(i + m));
            }
            start = i + m;
            i = i + m;
        } else {
            proof {
                assert(rem.subrange(rel, rel + m) =~= full.subrange(i as int, i + m));
                assert(!match_at(rem, sep@, rel));
                assert(rel + sep@.len() <= rem.len());
                assert(first_match_from(rem, sep@, rel) == first_match_from(rem, sep@, rel + 1));
            }
            i = i + 1;
        }
    }
    let ghost rem = full.skip(start as int);
    proof {
        assert((i - start) + sep@.len() > rem.len());
        assert(first_match_from(rem, sep@, i - start) == -1);
        assert(first_match_from(rem, sep@, 0) == -1);
        assert(split_on(rem, sep@) =~= seq![rem]);
    }
    let tail = substring_vec(cs, start, n);
    let ghost old_done = done.deep_view();
    done.push(tail);
    proof {
        assert(tail@ == rem);
        assert(done.deep_view() =~= old_done.push(rem));
        assert(split_on(full, sep@) =~= done.deep_view());
    }
    done
}

/// How many times `pat` occurs in `cs`, non-overlapping, left to right.
fn count_matches(cs: &Vec<char>, pat: &Vec<char>) -> (r: usize)
    requires
        pat@.len() >= 1,
    ensures
        r == phrase_count(cs@, pat@),
{
    let ghost full = cs@;
    let m = pat.len();
    let n = cs.len();
    if m > n {
        proof {
            lemma_first_match_from_bounds(full, pat@, 0);
            if first_match_from(full, pat@, 0) >= 0 {
                assert(false);
            }
        }
        return 0;
    }
    let mut count: usize = 0;
    let mut start: usize = 0;
    let mut i: usize = 0;
    proof {
        assert(full.skip(0) =~= full);
    }
    while i <= n - m
        invariant
            pat@.len() == m,
            cs@ == full,
            full.len() == n,
            1 <= m <= n,
            start <= i <= n,
            count <= start,
            split_on(full, pat@).len() == count + split_on(full.skip(start as int), pat@).len(),
            first_match_from(full.skip(start as int), pat@, 0) == first_match_from(
                full.skip(start as int),
                pat@,
                i - start,
            ),
        decreases n - i,
    {
        let ghost rem = full.skip(start as int);
        let ghost rel = i - start;
        if match_here(cs, pat, i) {
            proof {
                assert(rem.subrange(rel, rel + m) =~= full.subrange(i as int, i + m));
                assert(match_at(rem, pat@, rel));
                assert(first_match_from(rem, pat@, 0) == rel);
                assert(split_on(rem, pat@) == seq![rem.take(rel)] + split_on(
                    rem.skip(rel + m),
                    pat@,
                ));
                assert(rem.skip(rel + m) =~= full.skip(i + m));
                assert(full.skip(i + m).skip(0) =~= full.skip(i + m));
            }
            count = count + 1;
            start = i + m;
            i = i + m;
        } else {
            proof {
                assert(rem.subrange(rel, rel + m) =~= full.subrange(i as int, i + m));
                assert(!match_at(rem, pat@, rel));
                assert(rel + pat@.len() <= rem.len());
                assert(first_match_from(rem, pat@, rel) == first_match_from(rem, pat@, rel + 1));
            }
            i = i + 1;
        }
    }
    let ghost rem = full.skip(start as int);
    proof {
        assert((i - start) + pat@.len() > rem.len());
        assert(first_match_from(rem, pat@, i - start) == -1);
        assert(first_match_from(rem, pat@, 0) == -1);
        assert(split_on(rem, pat@) =~= seq![rem]);
    }
    count
}

/// The ordered chapters of `text`, split exactly on `separator`.  A text
/// without the separator is one single chapter; empty chapters are kept.
pub fn split_into_chapters(text: &str, separator: &str) -> (r: Vec<String>)
    ensures
        r.deep_view() == split_on(text@, separator@),
{
    let cs = crate::strutil::chars_of(text);
    let sep = crate::strutil::chars_of(separator);
    if sep.len() == 0 {
        let mut done: Vec<String> = Vec::new();
        let whole = substring_vec(&cs, 0, cs.len());
        done.push(whole);
        proof {
            assert(cs@.subrange(0, cs@.len() as int) =~= cs@);
            assert(done.deep_view() =~= split_on(text@, separator@));
        }
        done
    } else {
        split_chars_on(&cs, &sep)
    }
}

/// How many times `phrase` occurs in `text`: non-overlapping occurrences,
/// scanned left to right.  An empty phrase matches at every character
/// boundary.
pub fn count_phrase(text: &str, phrase: &str) -> (r: usize)
    requires
        text@.len() < usize::MAX,
    ensures
        r == phrase_count(text@, phrase@),
{
    let cs = crate::strutil::chars_of(text);
    let pat = crate::strutil::chars_of(phrase);
    if pat.len() == 0 {
        cs.len() + 1
    } else {
        count_matches(&cs, &pat)
    }
}

} // verus!
