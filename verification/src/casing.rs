//! ASCII-scoped casing: the library's upper/lower distinction is the
//! ASCII one ('A'..='Z' against 'a'..='z'); case folding beyond that is
//! out of scope.

use vstd::prelude::*;
use crate::strutil::{chars_of, string_from_chars};

verus! {

/// Whether `c` is an ASCII uppercase letter.
pub open spec fn upper_char(c: char) -> bool {
    65 <= (c as u32) && (c as u32) <= 90
}

/// The ASCII lowercase counterpart of `c`: uppercase letters move down
/// into 'a'..='z', every other character stays as it is.
pub open spec fn lower_char(c: char) -> char {
    if upper_char(c) {
        (((c as u32) + 32) as u8) as char
    } else {
        c
    }
}

/// `s` mapped through `lower_char`, character by character.
pub open spec fn lower_of(s: Seq<char>) -> Seq<char> {
    s.map_values(|c: char| lower_char(c))
}

/// A word is capitalized when its first character is an uppercase letter.
pub open spec fn capitalized(w: Seq<char>) -> bool {
    w.len() > 0 && upper_char(w[0])
}

/// Lowering a character twice is the same as lowering it once.
pub proof fn lemma_lower_char_idempotent(c: char)
    ensures
        lower_char(lower_char(c)) == lower_char(c),
{
}

/// Lowering a word twice is the same as lowering it once.
pub proof fn lemma_lower_of_idempotent(s: Seq<char>)
    ensures
        lower_of(lower_of(s)) == lower_of(s),
{
    assert(lower_of(lower_of(s)) =~= lower_of(s)) by {
        assert forall|i: int| 0 <= i < s.len() implies lower_of(lower_of(s))[i] == lower_of(s)[i]
        by {
            lemma_lower_char_idempotent(s[i]);
        }
    }
}

/// Whether the first character of `w` is an ASCII uppercase letter.
pub fn is_capitalized(w: &str) -> (r: bool)
    ensures
        r == capitalized(w@),
{
    let cs = chars_of(w);
    if cs.len() == 0 {
        false
    } else {
        let u = cs[0] as u32;
        65 <= u && u <= 90
    }
}

/// The ASCII-lowercase form of `w`.
pub fn lowercase(w: &str) -> (r: String)
    ensures
        r@ == lower_of(w@),
{
    let cs = chars_of(w);
    let mut out: Vec<char> = Vec::new();
    let mut i: usize = 0;
    while i < cs.len()
        invariant
            i <= cs@.len(),
            cs@ == w@,
            out@ =~= lower_of(w@.take(i as int)),
        decreases cs@.len() - i,
    {
        let c = cs[i];
        let u = c as u32;
        if 65 <= u && u <= 90 {
            out.push(((u + 32) as u8) as char);
        } else {
            out.push(c);
        }
        i = i + 1;
        proof {
            assert(w@.take(i as int) =~= w@.take(i - 1).push(w@[i - 1]));
        }
    }
    proof {
        assert(w@.take(w@.len() as int) =~= w@);
    }
    string_from_chars(out.as_slice())
}

} // verus!
