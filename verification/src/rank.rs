//! Canonical ranking of report keys: partition into target-phrase,
//! capitalized, lowercase and numeric categories, order by total value
//! descending with ties broken by ascending lexicographic key, and
//! concatenate the categories with numeric last.

use vstd::prelude::*;
use vstd::multiset::Multiset;
use vstd::relations::{sorted_by, total_ordering};
use vstd::seq_lib::lemma_sorted_unique;
use crate::casing::{capitalized, is_capitalized};
use crate::strutil::{chars_of, str_equal};

verus! {

/// Whether `w` is a non-empty run of ASCII digits.
pub open spec fn numeric_key(w: Seq<char>) -> bool {
    w.len() > 0 && forall|i: int| 0 <= i < w.len() ==> 48 <= (#[trigger] w[i]) as u32 <= 57
}

/// The rank of a key's category: target phrase first, then capitalized,
/// then lowercase and everything else, then numeric.
pub open spec fn category_of(w: Seq<char>, phrases: Seq<Seq<char>>) -> int {
    if phrases.contains(w) {
        0
    } else if capitalized(w) {
        1
    } else if numeric_key(w) {
        3
    } else {
        2
    }
}

/// Lexicographic order on character sequences, by code point.
pub open spec fn lex_le(a: Seq<char>, b: Seq<char>) -> bool
    decreases a.len(),
{
    if a.len() == 0 {
        true
    } else if b.len() == 0 {
        false
    } else if (a[0] as u32) < (b[0] as u32) {
        true
    } else if (a[0] as u32) > (b[0] as u32) {
        false
    } else {
        lex_le(a.drop_first(), b.drop_first())
    }
}

/// The canonical report order on `(key, total)` entries.
pub open spec fn rank_le(a: (Seq<char>, usize), b: (Seq<char>, usize), phrases: Seq<Seq<char>>) -> bool {
    let ca = category_of(a.0, phrases);
    let cb = category_of(b.0, phrases);
    if ca != cb {
        ca < cb
    } else if a.1 != b.1 {
        a.1 > b.1
    } else {
        lex_le(a.0, b.0)
    }
}

/// `rank_le` as a binary relation, for a fixed phrase list.
pub open spec fn rank_order(phrases: Seq<Seq<char>>) -> spec_fn(
    (Seq<char>, usize),
    (Seq<char>, usize),
) -> bool {
    |a: (Seq<char>, usize), b: (Seq<char>, usize)| rank_le(a, b, phrases)
}

/// `lex_le` as a binary relation.
pub open spec fn lex_order() -> spec_fn(Seq<char>, Seq<char>) -> bool {
    |a: Seq<char>, b: Seq<char>| lex_le(a, b)
}

/// The entries in canonical report order.
pub open spec fn rank_sort(es: Seq<(Seq<char>, usize)>, phrases: Seq<Seq<char>>) -> Seq<
    (Seq<char>, usize),
> {
    es.sort_by(rank_order(phrases))
}

proof fn lemma_lex_le_refl(a: Seq<char>)
    ensures
        lex_le(a, a),
    decreases a.len(),
{
    if a.len() > 0 {
        lemma_lex_le_refl(a.drop_first());
    }
}

proof fn lemma_lex_le_antisym(a: Seq<char>, b: Seq<char>)
    requires
        lex_le(a, b),
        lex_le(b, a),
    ensures
        a == b,
    decreases a.len(),
{
    if a.len() == 0 {
        assert(b.len() == 0);
        assert(a =~= b);
    } else {
        lemma_lex_le_antisym(a.drop_first(), b.drop_first());
        assert(a[0] as u32 == b[0] as u32);
        vstd::utf8::char_u32_cast(a[0], a[0] as u32);
        vstd::utf8::char_u32_cast(b[0], b[0] as u32);
        assert(a[0] == b[0]);
        assert(a =~= seq![a[0]] + a.drop_first());
        assert(b =~= seq![b[0]] + b.drop_first());
    }
}

proof fn lemma_lex_le_trans(a: Seq<char>, b: Seq<char>, c: Seq<char>)
    requires
        lex_le(a, b),
        lex_le(b, c),
    ensures
        lex_le(a, c),
    decreases a.len(),
{
    if a.len() > 0 && b.len() > 0 && c.len() > 0 {
        if a[0] as u32 == b[0] as u32 && b[0] as u32 == c[0] as u32 {
            lemma_lex_le_trans(a.drop_first(), b.drop_first(), c.drop_first());
        }
    }
}

proof fn lemma_lex_le_connected(a: Seq<char>, b: Seq<char>)
    ensures
        lex_le(a, b) || lex_le(b, a),
    decreases a.len(),
{
    if a.len() > 0 && b.len() > 0 && a[0] as u32 == b[0] as u32 {
        lemma_lex_le_connected(a.drop_first(), b.drop_first());
    }
}

/// Lexicographic order is a total ordering on character sequences.
pub proof fn lemma_lex_order_total()
    ensures
        total_ordering(lex_order()),
{
    let leq = lex_order();
    assert forall|a: Seq<char>| #[trigger] leq(a, a) by {
        lemma_lex_le_refl(a);
    }
    assert forall|a: Seq<char>, b: Seq<char>| #[trigger] leq(a, b) && #[trigger] leq(b, a)
        implies a == b by {
        lemma_lex_le_antisym(a, b);
    }
    assert forall|a: Seq<char>, b: Seq<char>, c: Seq<char>| #[trigger] leq(a, b) && #[trigger]
        leq(b, c) implies leq(a, c) by {
        lemma_lex_le_trans(a, b, c);
    }
    assert forall|a: Seq<char>, b: Seq<char>| #[trigger] leq(a, b) || #[trigger] leq(b, a) by {
        lemma_lex_le_connected(a, b);
    }
}

/// The canonical report order is a total ordering on entries.
pub proof fn lemma_rank_order_total(phrases: Seq<Seq<char>>)
    ensures
        total_ordering(rank_order(phrases)),
{
    let leq = rank_order(phrases);
    assert forall|a: (Seq<char>, usize)| #[trigger] leq(a, a) by {
        lemma_lex_le_refl(a.0);
    }
    assert forall|a: (Seq<char>, usize), b: (Seq<char>, usize)| #[trigger] leq(a, b) && #[trigger]
        leq(b, a) implies a == b by {
        lemma_lex_le_antisym(a.0, b.0);
        lemma_lex_le_antisym(b.0, a.0);
    }
    assert forall|a: (Seq<char>, usize), b: (Seq<char>, usize), c: (Seq<char>, usize)|
        #[trigger] leq(a, b) && #[trigger] leq(b, c) implies leq(a, c) by {
        if category_of(a.0, phrases) == category_of(b.0, phrases) && category_of(b.0, phrases)
            == category_of(c.0, phrases) && a.1 == b.1 && b.1 == c.1 {
            lemma_lex_le_trans(a.0, b.0, c.0);
        }
    }
    assert forall|a: (Seq<char>, usize), b: (Seq<char>, usize)| #[trigger] leq(a, b) || #[trigger]
        leq(b, a) by {
        lemma_lex_le_connected(a.0, b.0);
    }
}

/// Two entry lists holding the same entries and both in canonical order
/// are the same list: the report order is deterministic, whatever order
/// the entries were gathered in.
pub proof fn lemma_rank_order_unique(
    x: Seq<(Seq<char>, usize)>,
    y: Seq<(Seq<char>, usize)>,
    phrases: Seq<Seq<char>>,
)
    requires
        sorted_by(x, rank_order(phrases)),
        sorted_by(y, rank_order(phrases)),
        x.to_multiset() == y.to_multiset(),
    ensures
        x == y,
{
    lemma_rank_order_total(phrases);
    lemma_sorted_unique(x, y, rank_order(phrases));
}

/// Whether every character of `w` is an ASCII digit and `w` is non-empty.
pub fn is_numeric_key(w: &str) -> (r: bool)
    ensures
        r == numeric_key(w@),
{
    let cs = chars_of(w);
    if cs.len() == 0 {
        return false;
    }
    let mut i: usize = 0;
    while i < cs.len()
        invariant
            i <= cs@.len(),
            cs@ == w@,
            forall|k: int| 0 <= k < i ==> 48 <= (#[trigger] w@[k]) as u32 <= 57,
        decreases cs@.len() - i,
    {
        let u = cs[i] as u32;
        if u < 48 || u > 57 {
            return false;
        }
        i = i + 1;
    }
    true
}

/// Whether `w` is one of the target phrases.
pub fn is_target_phrase(w: &str, phrases: &Vec<String>) -> (r: bool)
    ensures
        r == phrases.deep_view().contains(w@),
{
    let mut i: usize = 0;
    while i < phrases.len()
        invariant
            i <= phrases@.len(),
            forall|k: int| 0 <= k < i ==> phrases.deep_view()[k] != w@,
        decreases phrases@.len() - i,
    {
        if str_equal(phrases[i].as_str(), w) {
            proof {
                assert(phrases.deep_view()[i as int] == w@);
            }
            return true;
        }
        i = i + 1;
    }
    proof {
        if phrases.deep_view().contains(w@) {
            let k = choose|k: int|
                0 <= k < phrases.deep_view().len() && #[trigger] phrases.deep_view()[k] == w@;
            assert(false);
        }
    }
    false
}

/// The category rank of `w`, decided executably.
pub fn category_rank(w: &str, phrases: &Vec<String>) -> (r: u8)
    ensures
        r as int == category_of(w@, phrases.deep_view()),
{
    if is_target_phrase(w, phrases) {
        0
    } else if is_capitalized(w) {
        1
    } else if is_numeric_key(w) {
        3
    } else {
        2
    }
}

/// Lexicographic comparison, decided executably.
pub fn lex_le_exec(a: &str, b: &str) -> (r: bool)
    ensures
        r == lex_le(a@, b@),
{
    let x = chars_of(a);
    let y = chars_of(b);
    let mut i: usize = 0;
    proof {
        assert(a@.skip(0) =~= a@);
        assert(b@.skip(0) =~= b@);
    }
    while i < x.len() && i < y.len()
        invariant
            i <= x@.len(),
            i <= y@.len(),
            x@ == a@,
            y@ == b@,
            lex_le(a@, b@) == lex_le(a@.skip(i as int), b@.skip(i as int)),
        decreases x@.len() - i,
    {
        let cx = x[i] as u32;
        let cy = y[i] as u32;
        proof {
            assert(a@.skip(i as int)[0] == a@[i as int]);
            assert(b@.skip(i as int)[0] == b@[i as int]);
            assert(a@.skip(i as int).drop_first() =~= a@.skip(i + 1));
            assert(b@.skip(i as int).drop_first() =~= b@.skip(i + 1));
        }
        if cx < cy {
            return true;
        }
        if cx > cy {
            return false;
        }
        proof {
            assert(a@[i as int] as u32 == b@[i as int] as u32);
            vstd::utf8::char_u32_cast(a@[i as int], a@[i as int] as u32);
            vstd::utf8::char_u32_cast(b@[i as int], b@[i as int] as u32);
            assert(a@[i as int] == b@[i as int]);
        }
        i = i + 1;
    }
    proof {
        if i == x.len() {
            assert(a@.skip(i as int).len() == 0);
        } else {
            assert(b@.skip(i as int).len() == 0);
            assert(a@.skip(i as int).len() > 0);
        }
    }
    i == x.len()
}

/// The canonical order test on two entries, decided executably.
fn rank_le_exec(a: &(String, usize), b: &(String, usize), phrases: &Vec<String>) -> (r: bool)
    ensures
        r == rank_le((a.0@, a.1), (b.0@, b.1), phrases.deep_view()),
{
    let ca = category_rank(a.0.as_str(), phrases);
    let cb = category_rank(b.0.as_str(), phrases);
    if ca != cb {
        ca < cb
    } else if a.1 != b.1 {
        a.1 > b.1
    } else {
        lex_le_exec(a.0.as_str(), b.0.as_str())
    }
}

/// `es` brought into canonical report order by insertion sort.
pub fn sort_entries(es: Vec<(String, usize)>, phrases: &Vec<String>) -> (r: Vec<(String, usize)>)
    ensures
        r.deep_view() == rank_sort(es.deep_view(), phrases.deep_view()),
        r.deep_view().to_multiset() == es.deep_view().to_multiset(),
        sorted_by(r.deep_view(), rank_order(phrases.deep_view())),
{
    broadcast use vstd::seq_lib::group_to_multiset_ensures;
    broadcast use vstd::multiset::group_multiset_axioms;

    let ghost src = es.deep_view();
    let ghost leq = rank_order(phrases.deep_view());
    let mut out: Vec<(String, usize)> = Vec::new();
    let mut t: usize = 0;
    proof {
        assert(out.deep_view() =~= Seq::<(Seq<char>, usize)>::empty());
        assert(out.deep_view().to_multiset() =~= src.take(0).to_multiset());
        lemma_rank_order_total(phrases.deep_view());
    }
    while t < es.len()
        invariant
            t <= src.len(),
            es.deep_view() == src,
            es@.len() == src.len(),
            leq == rank_order(phrases.deep_view()),
            total_ordering(leq),
            out.deep_view().to_multiset() == src.take(t as int).to_multiset(),
            sorted_by(out.deep_view(), leq),
        decreases src.len() - t,
    {
        let ghost pre = out.deep_view();
        let e = (es[t].0.clone(), es[t].1);
        proof {
            assert((e.0@, e.1) == src[t as int]);
        }
        let mut p: usize = 0;
        let mut scanning = true;
        while scanning && p < out.len()
            invariant
                p <= out@.len(),
                out.deep_view() == pre,
                leq == rank_order(phrases.deep_view()),
                total_ordering(leq),
                (e.0@, e.1) == src[t as int],
                forall|k: int| 0 <= k < p ==> #[trigger] leq(pre[k], src[t as int]),
                !scanning ==> p < pre.len() && !leq(pre[p as int], src[t as int]),
            decreases out@.len() - p, scanning as int,
        {
            proof {
                assert(out.deep_view()[p as int] == pre[p as int]);
            }
            let keep = rank_le_exec(&out[p], &e, phrases);
            if keep {
                p = p + 1;
            } else {
                scanning = false;
            }
        }
        proof {
            if p < pre.len() {
                assert(!leq(pre[p as int], src[t as int]));
                assert(leq(src[t as int], pre[p as int]));
            }
        }
        out.insert(p, e);
        proof {
            let inserted = out.deep_view();
            assert(inserted =~= pre.insert(p as int, src[t as int]));
            assert(inserted =~= pre.take(p as int) + seq![src[t as int]] + pre.skip(p as int));
            assert(sorted_by(inserted, leq)) by {
                assert forall|x: int, y: int| 0 <= x < y < inserted.len() implies #[trigger]
                    leq(inserted[x], inserted[y]) by {
                    if x < p && y == p {
                    } else if x == p && y > p {
                        assert(inserted[y] == pre[y - 1]);
                        if p < pre.len() {
                            assert(leq(pre[p as int], pre[y - 1]) || y - 1 == p);
                            assert(leq(src[t as int], pre[p as int]));
                        }
                    } else if x < p && y > p {
                        assert(inserted[x] == pre[x]);
                        assert(inserted[y] == pre[y - 1]);
                    } else if x > p && y > p {
                        assert(inserted[x] == pre[x - 1]);
                        assert(inserted[y] == pre[y - 1]);
                    }
                }
            }
            assert(src.take(t + 1).drop_last() =~= src.take(t as int));
            assert(src.take(t + 1) =~= src.take(t as int).push(src[t as int]));
            assert(pre.take(p as int) + seq![src[t as int]] + pre.skip(p as int) =~= (pre.take(
                p as int,
            ) + seq![src[t as int]]) + pre.skip(p as int));
            vstd::seq_lib::lemma_multiset_commutative(
                pre.take(p as int) + seq![src[t as int]],
                pre.skip(p as int),
            );
            vstd::seq_lib::lemma_multiset_commutative(pre.take(p as int), seq![src[t as int]]);
            vstd::seq_lib::lemma_multiset_commutative(pre.take(p as int), pre.skip(p as int));
            assert(pre.take(p as int) + pre.skip(p as int) =~= pre);
            let emp = Seq::<(Seq<char>, usize)>::empty();
            emp.to_multiset_ensures();
            src.take(t as int).to_multiset_ensures();
            assert(seq![src[t as int]] =~= emp.push(src[t as int]));
            assert(emp.to_multiset().len() == 0);
            assert(emp.to_multiset() =~= Multiset::<(Seq<char>, usize)>::empty());
            assert(emp.push(src[t as int]).to_multiset() =~= emp.to_multiset().insert(
                src[t as int],
            ));
            assert(seq![src[t as int]].to_multiset() =~= Multiset::<(Seq<char>, usize)>::empty()
                .insert(src[t as int]));
            assert(src.take(t as int).push(src[t as int]).to_multiset() =~= src.take(
                t as int,
            ).to_multiset().insert(src[t as int]));
            assert(inserted.to_multiset() =~= src.take(t + 1).to_multiset());
        }
        t = t + 1;
    }
    proof {
        assert(src.take(src.len() as int) =~= src);
        src.lemma_sort_by_ensures(leq);
        lemma_sorted_unique(out.deep_view(), src.sort_by(leq), leq);
    }
    out
}

/// The priority ordering for a plain frequency list: with no
/// target phrases configured, capitalized words come first, then
/// lowercase, then numeric; within a category higher totals come first
/// and ties fall back to ascending lexicographic order.
pub fn prioritize_capitalized_words(input: &Vec<(String, usize)>) -> (r: Vec<(String, usize)>)
    ensures
        r.deep_view() == rank_sort(input.deep_view(), Seq::empty()),
{
    let mut copy: Vec<(String, usize)> = Vec::new();
    let mut i: usize = 0;
    while i < input.len()
        invariant
            i <= input@.len(),
            copy.deep_view() == input.deep_view().take(i as int),
            copy@.len() == i,
        decreases input@.len() - i,
    {
        let ghost pre = copy.deep_view();
        copy.push((input[i].0.clone(), input[i].1));
        proof {
            assert(copy.deep_view() =~= pre.push(input.deep_view()[i as int]));
            assert(copy.deep_view() =~= input.deep_view().take(i + 1));
        }
        i = i + 1;
    }
    proof {
        assert(copy.deep_view() =~= input.deep_view());
    }
    let empty_phrases: Vec<String> = Vec::new();
    let r = sort_entries(copy, &empty_phrases);
    proof {
        assert(empty_phrases.deep_view() =~= Seq::<Seq<char>>::empty());
    }
    r
}

} // verus!
