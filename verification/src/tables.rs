//! Report tables: decimal formatting, CSV assembly, and the canonical
//! frequency tables, with every row in the rank aggregator's order.

use vstd::prelude::*;
use vstd::multiset::Multiset;
use vstd::relations::sorted_by;
use vstd::seq_lib::lemma_sorted_unique;
use vstd::string::StringExecFns;
use crate::freq::{as_map, distinct_keys, lookup_count, total_count, value_or_zero};
use crate::tfidf::sum_counts;
use crate::rank::{lex_order, rank_sort, sort_entries};
use crate::strutil::{push_char, str_equal};

verus! {

/// The character of one decimal digit.
pub open spec fn digit_char(d: int) -> char {
    ((48 + d) as u8) as char
}

/// The decimal numeral of `n`, most significant digit first.
pub open spec fn dec_str(n: int) -> Seq<char>
    decreases n,
{
    if n < 10 {
        seq![digit_char(n)]
    } else {
        dec_str(n / 10).push(digit_char(n % 10))
    }
}

/// The decimal numeral of `n`, as a string.
pub fn format_count(n: usize) -> (r: String)
    ensures
        r@ == dec_str(n as int),
{
    let ghost orig = n as int;
    let mut digits: Vec<char> = Vec::new();
    let mut m = n;
    proof {
        assert(digits@.reverse() =~= Seq::<char>::empty());
        assert(dec_str(orig) =~= dec_str(m as int) + digits@.reverse());
    }
    while m >= 10
        invariant
            dec_str(orig) == dec_str(m as int) + digits@.reverse(),
        decreases m,
    {
        let d = m % 10;
        let ghost pre = digits@;
        digits.push(((48 + d) as u8) as char);
        m = m / 10;
        proof {
            assert(digits@.reverse() =~= seq![digit_char(d as int)] + pre.reverse());
            assert(dec_str((m * 10 + d) as int) == dec_str(m as int).push(digit_char(d as int)));
            assert(dec_str(m as int).push(digit_char(d as int)) + pre.reverse() =~= dec_str(
                m as int,
            ) + (seq![digit_char(d as int)] + pre.reverse()));
        }
    }
    let mut out = String::new();
    push_char(&mut out, ((48 + (m % 10)) as u8) as char);
    proof {
        assert(out@ =~= seq![digit_char(m as int)]);
        assert(out@ =~= dec_str(m as int));
    }
    let mut i: usize = digits.len();
    while i > 0
        invariant
            i <= digits@.len(),
            out@ == dec_str(m as int) + digits@.reverse().take(digits@.len() - i),
        decreases i,
    {
        i = i - 1;
        push_char(&mut out, digits[i]);
        proof {
            assert(digits@.reverse()[digits@.len() - i - 1] == digits@[i as int]);
            assert(digits@.reverse().take(digits@.len() - i) =~= digits@.reverse().take(
                digits@.len() - i - 1,
            ).push(digits@[i as int]));
        }
    }
    proof {
        assert(digits@.reverse().take(digits@.len() as int) =~= digits@.reverse());
    }
    out
}

/// Cells joined by commas.
pub open spec fn join_cells(cells: Seq<Seq<char>>) -> Seq<char>
    decreases cells.len(),
{
    if cells.len() == 0 {
        Seq::empty()
    } else if cells.len() == 1 {
        cells[0]
    } else {
        join_cells(cells.drop_last()) + seq![','] + cells.last()
    }
}

/// One CSV row: the cells joined by commas, closed by a newline.
pub open spec fn row_str(cells: Seq<Seq<char>>) -> Seq<char> {
    join_cells(cells) + seq!['\n']
}

/// One CSV row assembled from its cells.
pub fn csv_row(cells: &Vec<String>) -> (r: String)
    ensures
        r@ == row_str(cells.deep_view()),
{
    let ghost cs = cells.deep_view();
    let mut out = String::new();
    let mut k: usize = 0;
    proof {
        assert(out@ =~= join_cells(cs.take(0)));
    }
    while k < cells.len()
        invariant
            k <= cs.len(),
            cells.deep_view() == cs,
            cells@.len() == cs.len(),
            out@ == join_cells(cs.take(k as int)),
        decreases cs.len() - k,
    {
        proof {
            assert(cs.take(k + 1).drop_last() =~= cs.take(k as int));
            assert(cs.take(k + 1).last() == cs[k as int]);
        }
        if k > 0 {
            push_char(&mut out, ',');
        }
        out.append(cells[k].as_str());
        k = k + 1;
        proof {
            if k == 1 {
                assert(join_cells(cs.take(1)) == cs[0]);
                assert(out@ =~= join_cells(cs.take(k as int)));
            } else {
                assert(out@ =~= join_cells(cs.take(k as int)));
            }
        }
    }
    proof {
        assert(cs.take(cs.len() as int) =~= cs);
    }
    push_char(&mut out, '\n');
    proof {
        assert(out@ =~= row_str(cs));
    }
    out
}

/// The rows of the plain word/frequency listing.
pub open spec fn freq_rows(es: Seq<(Seq<char>, usize)>) -> Seq<char>
    decreases es.len(),
{
    if es.len() == 0 {
        Seq::empty()
    } else {
        freq_rows(es.drop_last()) + es.last().0 + seq![','] + dec_str(es.last().1 as int)
            + seq!['\n']
    }
}

/// The two-column word/frequency table: a header line, then one row per
/// entry, in the entries' order.
pub fn vec_to_csv_string(input: &Vec<(String, usize)>) -> (r: String)
    ensures
        r@ == "word,frequency\n"@ + freq_rows(input.deep_view()),
{
    let ghost es = input.deep_view();
    let mut out = String::new();
    out.append("word,frequency\n");
    let mut i: usize = 0;
    proof {
        assert(out@ =~= "word,frequency\n"@ + freq_rows(es.take(0)));
    }
    while i < input.len()
        invariant
            i <= es.len(),
            input.deep_view() == es,
            input@.len() == es.len(),
            out@ == "word,frequency\n"@ + freq_rows(es.take(i as int)),
        decreases es.len() - i,
    {
        proof {
            assert(es.take(i + 1).drop_last() =~= es.take(i as int));
            assert(es.take(i + 1).last() == es[i as int]);
        }
        out.append(input[i].0.as_str());
        push_char(&mut out, ',');
        let num = format_count(input[i].1);
        out.append(num.as_str());
        push_char(&mut out, '\n');
        i = i + 1;
        proof {
            assert(out@ =~= "word,frequency\n"@ + freq_rows(es.take(i as int)));
        }
    }
    proof {
        assert(es.take(es.len() as int) =~= es);
    }
    out
}

/// The keys of `s` with later duplicates dropped: each key keeps its
/// first occurrence.
pub open spec fn dedup_first(s: Seq<Seq<char>>) -> Seq<Seq<char>>
    decreases s.len(),
{
    if s.len() == 0 {
        Seq::empty()
    } else {
        let rest = dedup_first(s.drop_last());
        if s.drop_last().contains(s.last()) {
            rest
        } else {
            rest.push(s.last())
        }
    }
}

/// The keys in ascending lexicographic order.
pub open spec fn lex_sort(s: Seq<Seq<char>>) -> Seq<Seq<char>> {
    s.sort_by(lex_order())
}

/// Everything `dedup_first` keeps came from the input, once.
proof fn lemma_dedup_first_props(s: Seq<Seq<char>>)
    ensures
        forall|x: Seq<char>| dedup_first(s).contains(x) <==> s.contains(x),
        dedup_first(s).no_duplicates(),
    decreases s.len(),
{
    if s.len() == 0 {
    } else {
        lemma_dedup_first_props(s.drop_last());
        let rest = dedup_first(s.drop_last());
        assert forall|x: Seq<char>| dedup_first(s).contains(x) <==> s.contains(x) by {
            if s.drop_last().contains(s.last()) {
                assert(dedup_first(s) == rest);
                if s.contains(x) {
                    let a = choose|a: int| 0 <= a < s.len() && #[trigger] s[a] == x;
                    if a < s.len() - 1 {
                        assert(s.drop_last()[a] == x);
                        assert(s.drop_last().contains(x));
                    } else {
                        assert(s.drop_last().contains(x));
                    }
                }
                if rest.contains(x) {
                    assert(s.drop_last().contains(x));
                    let a = choose|a: int|
                        0 <= a < s.drop_last().len() && #[trigger] s.drop_last()[a] == x;
                    assert(s[a] == x);
                }
            } else {
                if s.contains(x) {
                    let a = choose|a: int| 0 <= a < s.len() && #[trigger] s[a] == x;
                    if a < s.len() - 1 {
                        assert(s.drop_last()[a] == x);
                        assert(s.drop_last().contains(x));
                        assert(rest.contains(x));
                        let b = choose|b: int| 0 <= b < rest.len() && #[trigger] rest[b] == x;
                        assert(dedup_first(s)[b] == x);
                        assert(dedup_first(s).contains(x));
                    } else {
                        assert(x == s.last());
                        assert(dedup_first(s).last() == x);
                        assert(dedup_first(s).contains(x));
                    }
                }
                if dedup_first(s).contains(x) {
                    let a = choose|a: int|
                        0 <= a < dedup_first(s).len() && #[trigger] dedup_first(s)[a] == x;
                    if a < rest.len() {
                        assert(rest[a] == x);
                        assert(rest.contains(x));
                        assert(s.drop_last().contains(x));
                        let b = choose|b: int|
                            0 <= b < s.drop_last().len() && #[trigger] s.drop_last()[b] == x;
                        assert(s[b] == x);
                    } else {
                        assert(x == s.last());
                        assert(s[s.len() - 1] == x);
                    }
                }
            }
        }
        if !s.drop_last().contains(s.last()) {
            assert forall|a: int, b: int|
                0 <= a < b < dedup_first(s).len() implies dedup_first(s)[a] != dedup_first(
                s,
            )[b] by {
                if b == rest.len() {
                    assert(dedup_first(s)[a] == rest[a]);
                    assert(rest.contains(rest[a]));
                    assert(s.drop_last().contains(rest[a]));
                }
            }
        }
    }
}

/// The distinct words of `keys`, first occurrences first.
fn dedup_keys(keys: &Vec<String>) -> (r: Vec<String>)
    ensures
        r.deep_view() == dedup_first(keys.deep_view()),
        r.deep_view().no_duplicates(),
{
    let ghost src = keys.deep_view();
    let mut out: Vec<String> = Vec::new();
    let mut i: usize = 0;
    proof {
        assert(out.deep_view() =~= dedup_first(src.take(0)));
    }
    while i < keys.len()
        invariant
            i <= src.len(),
            keys.deep_view() == src,
            keys@.len() == src.len(),
            out.deep_view() == dedup_first(src.take(i as int)),
        decreases src.len() - i,
    {
        let ghost pre = out.deep_view();
        proof {
            assert(src.take(i + 1).drop_last() =~= src.take(i as int));
            assert(src.take(i + 1).last() == src[i as int]);
            lemma_dedup_first_props(src.take(i as int));
        }
        let mut seen = false;
        let mut a: usize = 0;
        while !seen && a < out.len()
            invariant
                a <= pre.len(),
                out.deep_view() == pre,
                out@.len() == pre.len(),
                0 <= i < src.len(),
                keys.deep_view() == src,
                seen ==> pre.contains(src[i as int]),
                !seen ==> forall|b: int| 0 <= b < a ==> pre[b] != src[i as int],
            decreases pre.len() - a, (if seen { 0int } else { 1int }),
        {
            if str_equal(out[a].as_str(), keys[i].as_str()) {
                seen = true;
                proof {
                    assert(pre[a as int] == src[i as int]);
                }
            } else {
                a = a + 1;
            }
        }
        if !seen {
            proof {
                if pre.contains(src[i as int]) {
                    let b = choose|b: int| 0 <= b < pre.len() && #[trigger] pre[b] == src[i as int];
                    assert(false);
                }
                if src.take(i as int).contains(src[i as int]) {
                    assert(pre.contains(src[i as int]));
                }
            }
            out.push(keys[i].clone());
            proof {
                assert(out.deep_view() =~= pre.push(src[i as int]));
            }
        } else {
            proof {
                assert(src.take(i as int).contains(src[i as int]));
                assert(out.deep_view() =~= dedup_first(src.take(i + 1)));
            }
        }
        i = i + 1;
    }
    proof {
        assert(src.take(src.len() as int) =~= src);
        lemma_dedup_first_props(src);
    }
    out
}

/// The keys of an entry list, in order.
pub open spec fn keys_of(es: Seq<(Seq<char>, usize)>) -> Seq<Seq<char>> {
    es.map_values(|e: (Seq<char>, usize)| e.0)
}

/// Every inner key of a word-keyed table, in reading order.
pub open spec fn inner_keys(data: Seq<(Seq<char>, Seq<(Seq<char>, usize)>)>) -> Seq<Seq<char>>
    decreases data.len(),
{
    if data.len() == 0 {
        Seq::empty()
    } else {
        inner_keys(data.drop_last()) + keys_of(data.last().1)
    }
}

/// The table's file columns: the distinct inner keys, sorted.
pub open spec fn file_columns(data: Seq<(Seq<char>, Seq<(Seq<char>, usize)>)>) -> Seq<Seq<char>> {
    lex_sort(dedup_first(inner_keys(data)))
}

/// The entry list stored under the outer key `w`, or the empty list.
pub open spec fn entries_for(data: Seq<(Seq<char>, Seq<(Seq<char>, usize)>)>, w: Seq<char>) -> Seq<
    (Seq<char>, usize),
>
    decreases data.len(),
{
    if data.len() == 0 {
        Seq::empty()
    } else if data[0].0 == w {
        data[0].1
    } else {
        entries_for(data.drop_first(), w)
    }
}

proof fn lemma_entries_for_index(data: Seq<(Seq<char>, Seq<(Seq<char>, usize)>)>, i: int, w: Seq<char>)
    requires
        0 <= i < data.len(),
        data[i].0 == w,
        forall|b: int| 0 <= b < i ==> data[b].0 != w,
    ensures
        entries_for(data, w) == data[i].1,
    decreases i,
{
    if i > 0 {
        assert(data.drop_first()[i - 1] == data[i]);
        assert(forall|b: int| 0 <= b < i - 1 ==> data.drop_first()[b] == data[b + 1]);
        lemma_entries_for_index(data.drop_first(), i - 1, w);
    }
}

proof fn lemma_entries_for_missing(data: Seq<(Seq<char>, Seq<(Seq<char>, usize)>)>, w: Seq<char>)
    requires
        forall|b: int| 0 <= b < data.len() ==> data[b].0 != w,
    ensures
        entries_for(data, w) == Seq::<(Seq<char>, usize)>::empty(),
    decreases data.len(),
{
    if data.len() > 0 {
        assert(forall|b: int| 0 <= b < data.len() - 1 ==> data.drop_first()[b] == data[b + 1]);
        lemma_entries_for_missing(data.drop_first(), w);
    }
}

/// One word/total pair per outer entry of the table.
pub open spec fn word_totals(data: Seq<(Seq<char>, Seq<(Seq<char>, usize)>)>) -> Seq<
    (Seq<char>, usize),
> {
    Seq::new(data.len(), |i: int| (data[i].0, total_count(data[i].1) as usize))
}

/// The header cells of a word-keyed table.
pub open spec fn header_cells(files: Seq<Seq<char>>) -> Seq<Seq<char>> {
    seq!["Words"@] + files + seq!["Total"@]
}

/// The cells of one data row: the key, one count per file column (zero
/// when absent), and the row total.
pub open spec fn row_cells(
    w: (Seq<char>, usize),
    files: Seq<Seq<char>>,
    data: Seq<(Seq<char>, Seq<(Seq<char>, usize)>)>,
) -> Seq<Seq<char>> {
    seq![w.0] + files.map_values(
        |f: Seq<char>| dec_str(value_or_zero(as_map(entries_for(data, w.0)), f)),
    ) + seq![dec_str(w.1 as int)]
}

/// The data rows of a word-keyed table, in the given order.
pub open spec fn table_rows(
    sorted: Seq<(Seq<char>, usize)>,
    files: Seq<Seq<char>>,
    data: Seq<(Seq<char>, Seq<(Seq<char>, usize)>)>,
) -> Seq<char>
    decreases sorted.len(),
{
    if sorted.len() == 0 {
        Seq::empty()
    } else {
        table_rows(sorted.drop_last(), files, data) + row_str(
            row_cells(sorted.last(), files, data),
        )
    }
}

/// The whole word-keyed table.
pub open spec fn combined_table(
    data: Seq<(Seq<char>, Seq<(Seq<char>, usize)>)>,
    phrases: Seq<Seq<char>>,
) -> Seq<char> {
    let files = file_columns(data);
    row_str(header_cells(files)) + table_rows(
        rank_sort(word_totals(data), phrases),
        files,
        data,
    )
}

/// Well-formed word-keyed table data: outer keys distinct, inner keys
/// distinct, and every row total fits.
pub open spec fn table_data_ok(data: Seq<(Seq<char>, Seq<(Seq<char>, usize)>)>) -> bool {
    &&& forall|i: int, j: int| 0 <= i < j < data.len() ==> data[i].0 != data[j].0
    &&& forall|i: int|
        0 <= i < data.len() ==> distinct_keys(#[trigger] data[i].1) && total_count(data[i].1)
            <= usize::MAX
}

proof fn lemma_map_values_multiset<A, B>(a: Seq<A>, b: Seq<A>, f: spec_fn(A) -> B)
    requires
        a.to_multiset() == b.to_multiset(),
    ensures
        a.map_values(f).to_multiset() == b.map_values(f).to_multiset(),
    decreases a.len(),
{
    broadcast use vstd::seq_lib::group_to_multiset_ensures;
    broadcast use vstd::multiset::group_multiset_axioms;

    a.to_multiset_ensures();
    b.to_multiset_ensures();
    if a.len() == 0 {
        assert(b.to_multiset().len() == 0);
        assert(b.len() == 0);
        assert(a.map_values(f) =~= b.map_values(f));
    } else {
        let x = a.last();
        assert(a[a.len() - 1] == x);
        assert(a.contains(x));
        assert(b.to_multiset().contains(x));
        assert(b.contains(x));
        let j = choose|j: int| 0 <= j < b.len() && b[j] == x;
        assert(a.drop_last() =~= a.remove(a.len() - 1));
        assert(a.remove(a.len() - 1).to_multiset() =~= a.to_multiset().remove(x));
        assert(b.remove(j).to_multiset() =~= b.to_multiset().remove(x));
        lemma_map_values_multiset(a.drop_last(), b.remove(j), f);
        a.map_values(f).to_multiset_ensures();
        b.map_values(f).to_multiset_ensures();
        assert(a.map_values(f) =~= a.drop_last().map_values(f).push(f(x)));
        assert(a.drop_last().map_values(f).push(f(x)).to_multiset() =~= a.drop_last().map_values(
            f,
        ).to_multiset().insert(f(x)));
        assert(b.remove(j).map_values(f) =~= b.map_values(f).remove(j));
        assert(b.map_values(f)[j] == f(x));
        assert(b.map_values(f).remove(j).to_multiset() =~= b.map_values(f).to_multiset().remove(
            f(x),
        ));
        assert(b.map_values(f).to_multiset().contains(f(x)));
        assert(b.map_values(f).to_multiset().remove(f(x)).insert(f(x)) =~= b.map_values(
            f,
        ).to_multiset());
        assert(a.map_values(f).to_multiset() =~= b.map_values(f).to_multiset());
    }
}

proof fn lemma_inner_keys_contains(data: Seq<(Seq<char>, Seq<(Seq<char>, usize)>)>, x: Seq<char>)
    ensures
        inner_keys(data).contains(x) <==> exists|i: int, k: int|
            0 <= i < data.len() && 0 <= k < data[i].1.len() && (#[trigger] data[i].1[k]).0 == x,
    decreases data.len(),
{
    if data.len() > 0 {
        lemma_inner_keys_contains(data.drop_last(), x);
        let parts = inner_keys(data.drop_last()) + keys_of(data.last().1);
        if inner_keys(data).contains(x) {
            let a = choose|a: int| 0 <= a < parts.len() && #[trigger] parts[a] == x;
            if a < inner_keys(data.drop_last()).len() {
                assert(inner_keys(data.drop_last()).contains(x));
                let (i, k) = choose|i: int, k: int|
                    0 <= i < data.drop_last().len() && 0 <= k < data.drop_last()[i].1.len() && (
                    #[trigger] data.drop_last()[i].1[k]).0 == x;
                assert(data[i].1[k].0 == x);
            } else {
                let k = a - inner_keys(data.drop_last()).len();
                assert(keys_of(data.last().1)[k] == x);
                assert(data[data.len() - 1].1[k].0 == x);
            }
        }
        if exists|i: int, k: int|
            0 <= i < data.len() && 0 <= k < data[i].1.len() && (#[trigger] data[i].1[k]).0 == x {
            let (i, k) = choose|i: int, k: int|
                0 <= i < data.len() && 0 <= k < data[i].1.len() && (#[trigger] data[i].1[k]).0
                    == x;
            if i < data.len() - 1 {
                assert(data.drop_last()[i].1[k].0 == x);
                assert(inner_keys(data.drop_last()).contains(x));
                let a = choose|a: int|
                    0 <= a < inner_keys(data.drop_last()).len() && #[trigger] inner_keys(
                        data.drop_last(),
                    )[a] == x;
                assert(parts[a] == x);
            } else {
                assert(keys_of(data.last().1)[k] == x);
                assert(parts[inner_keys(data.drop_last()).len() + k] == x);
            }
        }
    }
}

proof fn lemma_nodup_same_set_multiset(a: Seq<Seq<char>>, b: Seq<Seq<char>>)
    requires
        a.no_duplicates(),
        b.no_duplicates(),
        forall|x: Seq<char>| a.contains(x) <==> b.contains(x),
    ensures
        a.to_multiset() == b.to_multiset(),
{
    broadcast use vstd::seq_lib::group_to_multiset_ensures;
    broadcast use vstd::multiset::group_multiset_axioms;

    a.lemma_multiset_has_no_duplicates();
    b.lemma_multiset_has_no_duplicates();
    assert(a.to_multiset() =~= b.to_multiset()) by {
        assert forall|x: Seq<char>| a.to_multiset().count(x) == b.to_multiset().count(x) by {
            a.to_multiset_ensures();
            b.to_multiset_ensures();
            if a.contains(x) {
                assert(a.to_multiset().count(x) >= 1);
                assert(b.to_multiset().count(x) >= 1);
            } else {
                assert(a.to_multiset().count(x) == 0);
                assert(b.to_multiset().count(x) == 0);
            }
        }
    }
}

proof fn lemma_entries_for_permutation(
    d1: Seq<(Seq<char>, Seq<(Seq<char>, usize)>)>,
    d2: Seq<(Seq<char>, Seq<(Seq<char>, usize)>)>,
    w: Seq<char>,
)
    requires
        d1.to_multiset() == d2.to_multiset(),
        forall|i: int, j: int| 0 <= i < j < d1.len() ==> d1[i].0 != d1[j].0,
        forall|i: int, j: int| 0 <= i < j < d2.len() ==> d2[i].0 != d2[j].0,
    ensures
        entries_for(d1, w) == entries_for(d2, w),
{
    broadcast use vstd::seq_lib::group_to_multiset_ensures;

    d1.to_multiset_ensures();
    d2.to_multiset_ensures();
    if exists|i: int| 0 <= i < d1.len() && (#[trigger] d1[i]).0 == w {
        let i = choose|i: int| 0 <= i < d1.len() && (#[trigger] d1[i]).0 == w;
        assert(d1.contains(d1[i]));
        assert(d2.to_multiset().contains(d1[i]));
        assert(d2.contains(d1[i]));
        let j = choose|j: int| 0 <= j < d2.len() && d2[j] == d1[i];
        assert(forall|b: int| 0 <= b < i ==> d1[b].0 != w);
        assert(forall|b: int| 0 <= b < j ==> d2[b].0 != w);
        lemma_entries_for_index(d1, i, w);
        lemma_entries_for_index(d2, j, w);
    } else {
        assert(forall|b: int| 0 <= b < d1.len() ==> (#[trigger] d1[b]).0 != w);
        assert forall|b: int| 0 <= b < d2.len() implies (#[trigger] d2[b]).0 != w by {
            assert(d2.contains(d2[b]));
            assert(d1.to_multiset().contains(d2[b]));
            assert(d1.contains(d2[b]));
            let c = choose|c: int| 0 <= c < d1.len() && d1[c] == d2[b];
            assert(d1[c].0 == d2[b].0);
        }
        lemma_entries_for_missing(d1, w);
        lemma_entries_for_missing(d2, w);
    }
}

proof fn lemma_table_rows_same_data(
    sorted: Seq<(Seq<char>, usize)>,
    files: Seq<Seq<char>>,
    d1: Seq<(Seq<char>, Seq<(Seq<char>, usize)>)>,
    d2: Seq<(Seq<char>, Seq<(Seq<char>, usize)>)>,
)
    requires
        forall|w: Seq<char>| entries_for(d1, w) == entries_for(d2, w),
    ensures
        table_rows(sorted, files, d1) == table_rows(sorted, files, d2),
    decreases sorted.len(),
{
    if sorted.len() > 0 {
        lemma_table_rows_same_data(sorted.drop_last(), files, d1, d2);
        assert(row_cells(sorted.last(), files, d1) =~= row_cells(sorted.last(), files, d2));
    }
}

/// Feeding the word-keyed table the same rows in any other order
/// produces the byte-identical report: the file columns, the word order
/// and every cell come out the same.
pub proof fn lemma_combined_table_permutation(
    d1: Seq<(Seq<char>, Seq<(Seq<char>, usize)>)>,
    d2: Seq<(Seq<char>, Seq<(Seq<char>, usize)>)>,
    phrases: Seq<Seq<char>>,
)
    requires
        d1.to_multiset() == d2.to_multiset(),
        table_data_ok(d1),
        table_data_ok(d2),
    ensures
        combined_table(d1, phrases) == combined_table(d2, phrases),
{
    broadcast use vstd::seq_lib::group_to_multiset_ensures;

    // the sorted file columns agree: same key set, no duplicates
    lemma_dedup_first_props(inner_keys(d1));
    lemma_dedup_first_props(inner_keys(d2));
    d1.to_multiset_ensures();
    d2.to_multiset_ensures();
    assert forall|x: Seq<char>|
        inner_keys(d1).contains(x) <==> inner_keys(d2).contains(x) by {
        lemma_inner_keys_contains(d1, x);
        lemma_inner_keys_contains(d2, x);
        if exists|i: int, k: int|
            0 <= i < d1.len() && 0 <= k < d1[i].1.len() && (#[trigger] d1[i].1[k]).0 == x {
            let (i, k) = choose|i: int, k: int|
                0 <= i < d1.len() && 0 <= k < d1[i].1.len() && (#[trigger] d1[i].1[k]).0 == x;
            assert(d1.contains(d1[i]));
            assert(d2.to_multiset().contains(d1[i]));
            assert(d2.contains(d1[i]));
            let j = choose|j: int| 0 <= j < d2.len() && d2[j] == d1[i];
            assert(d2[j].1[k].0 == x);
        }
        if exists|i: int, k: int|
            0 <= i < d2.len() && 0 <= k < d2[i].1.len() && (#[trigger] d2[i].1[k]).0 == x {
            let (i, k) = choose|i: int, k: int|
                0 <= i < d2.len() && 0 <= k < d2[i].1.len() && (#[trigger] d2[i].1[k]).0 == x;
            assert(d2.contains(d2[i]));
            assert(d1.to_multiset().contains(d2[i]));
            assert(d1.contains(d2[i]));
            let j = choose|j: int| 0 <= j < d1.len() && d1[j] == d2[i];
            assert(d1[j].1[k].0 == x);
        }
    }
    assert forall|x: Seq<char>|
        dedup_first(inner_keys(d1)).contains(x) <==> dedup_first(inner_keys(d2)).contains(
            x,
        ) by {
        assert(dedup_first(inner_keys(d1)).contains(x) <==> inner_keys(d1).contains(x));
        assert(dedup_first(inner_keys(d2)).contains(x) <==> inner_keys(d2).contains(x));
    }
    lemma_nodup_same_set_multiset(dedup_first(inner_keys(d1)), dedup_first(inner_keys(d2)));
    crate::rank::lemma_lex_order_total();
    dedup_first(inner_keys(d1)).lemma_sort_by_ensures(lex_order());
    dedup_first(inner_keys(d2)).lemma_sort_by_ensures(lex_order());
    lemma_sorted_unique(file_columns(d1), file_columns(d2), lex_order());

    // the ranked word/total rows agree: same pairs, canonical order
    let f = |e: (Seq<char>, Seq<(Seq<char>, usize)>)| (e.0, total_count(e.1) as usize);
    assert(word_totals(d1) =~= d1.map_values(f));
    assert(word_totals(d2) =~= d2.map_values(f));
    lemma_map_values_multiset(d1, d2, f);
    crate::rank::lemma_rank_order_total(phrases);
    word_totals(d1).lemma_sort_by_ensures(crate::rank::rank_order(phrases));
    word_totals(d2).lemma_sort_by_ensures(crate::rank::rank_order(phrases));
    lemma_sorted_unique(
        rank_sort(word_totals(d1), phrases),
        rank_sort(word_totals(d2), phrases),
        crate::rank::rank_order(phrases),
    );

    // every cell agrees: each word's entry list is the same in both
    assert forall|w: Seq<char>| entries_for(d1, w) == entries_for(d2, w) by {
        lemma_entries_for_permutation(d1, d2, w);
    }
    lemma_table_rows_same_data(rank_sort(word_totals(d1), phrases), file_columns(d1), d1, d2);
}

/// The index of the outer entry whose key is `w`, if there is one.
fn find_outer(data: &Vec<(String, Vec<(String, usize)>)>, w: &str) -> (r: Option<usize>)
    ensures
        match r {
            Some(i) => i < data@.len() && data.deep_view()[i as int].0 == w@
                && entries_for(data.deep_view(), w@) == data.deep_view()[i as int].1,
            None => entries_for(data.deep_view(), w@) == Seq::<(Seq<char>, usize)>::empty(),
        },
{
    let mut i: usize = 0;
    while i < data.len()
        invariant
            i <= data@.len(),
            forall|b: int| 0 <= b < i ==> data.deep_view()[b].0 != w@,
        decreases data@.len() - i,
    {
        if str_equal(data[i].0.as_str(), w) {
            proof {
                assert(data.deep_view()[i as int].0 == w@);
                lemma_entries_for_index(data.deep_view(), i as int, w@);
            }
            return Some(i);
        }
        i = i + 1;
    }
    proof {
        lemma_entries_for_missing(data.deep_view(), w@);
    }
    None
}

/// The canonical word-by-file frequency table: one column per file seen
/// anywhere in the data, the rows in canonical rank order, absent cells
/// zero, each row closed by its total.
pub fn combined_map_to_csv_string(
    data: &Vec<(String, Vec<(String, usize)>)>,
    phrases: &Vec<String>,
) -> (r: String)
    requires
        table_data_ok(data.deep_view()),
    ensures
        r@ == combined_table(data.deep_view(), phrases.deep_view()),
{
    let ghost dv = data.deep_view();
    let mut all_keys: Vec<String> = Vec::new();
    let mut i: usize = 0;
    proof {
        assert(all_keys.deep_view() =~= inner_keys(dv.take(0)));
    }
    while i < data.len()
        invariant
            i <= dv.len(),
            data.deep_view() == dv,
            data@.len() == dv.len(),
            all_keys.deep_view() == inner_keys(dv.take(i as int)),
        decreases dv.len() - i,
    {
        let es = &data[i].1;
        let ghost inner = es.deep_view();
        proof {
            assert(inner == dv[i as int].1);
            assert(dv.take(i + 1).drop_last() =~= dv.take(i as int));
            assert(dv.take(i + 1).last() == dv[i as int]);
        }
        let mut k: usize = 0;
        while k < es.len()
            invariant
                k <= inner.len(),
                es.deep_view() == inner,
                es@.len() == inner.len(),
                all_keys.deep_view() == inner_keys(dv.take(i as int)) + keys_of(inner).take(
                    k as int,
                ),
            decreases inner.len() - k,
        {
            let ghost pre = all_keys.deep_view();
            all_keys.push(es[k].0.clone());
            proof {
                assert(all_keys.deep_view() =~= pre.push(inner[k as int].0));
                assert(keys_of(inner).take(k + 1) =~= keys_of(inner).take(k as int).push(
                    inner[k as int].0,
                ));
                assert(all_keys.deep_view() =~= inner_keys(dv.take(i as int)) + keys_of(
                    inner,
                ).take(k + 1));
            }
            k = k + 1;
        }
        proof {
            assert(keys_of(inner).take(keys_of(inner).len() as int) =~= keys_of(inner));
            assert(all_keys.deep_view() =~= inner_keys(dv.take(i + 1)));
        }
        i = i + 1;
    }
    proof {
        assert(dv.take(dv.len() as int) =~= dv);
    }
    let distinct = dedup_keys(&all_keys);
    let files = sort_keys(distinct);
    let ghost fcols = file_columns(dv);
    proof {
        assert(files.deep_view() == fcols);
    }
    let mut pairs: Vec<(String, usize)> = Vec::new();
    let mut i: usize = 0;
    while i < data.len()
        invariant
            i <= dv.len(),
            data.deep_view() == dv,
            data@.len() == dv.len(),
            table_data_ok(dv),
            pairs@.len() == i,
            forall|a: int|
                0 <= a < i ==> #[trigger] pairs.deep_view()[a] == word_totals(dv)[a],
        decreases dv.len() - i,
    {
        let ghost pre = pairs.deep_view();
        proof {
            assert(dv[i as int].1 == data@[i as int].1.deep_view());
            assert(total_count(data@[i as int].1.deep_view()) <= usize::MAX);
            crate::freq::lemma_total_count_nonneg(dv[i as int].1);
        }
        let t = sum_counts(&data[i].1);
        pairs.push((data[i].0.clone(), t));
        proof {
            assert(pairs.deep_view() =~= pre.push((dv[i as int].0, t)));
            assert(forall|a: int| 0 <= a < i ==> pairs.deep_view()[a] == pre[a]);
            assert(pairs.deep_view()[i as int] == word_totals(dv)[i as int]);
        }
        i = i + 1;
    }
    proof {
        assert(pairs.deep_view() =~= word_totals(dv));
    }
    let sorted = sort_entries(pairs, phrases);
    let ghost order = rank_sort(word_totals(dv), phrases.deep_view());
    let mut header: Vec<String> = Vec::new();
    header.push(String::from_str("Words"));
    let mut k: usize = 0;
    while k < files.len()
        invariant
            k <= files@.len(),
            files.deep_view() == fcols,
            files@.len() == fcols.len(),
            header@.len() == k + 1,
            header.deep_view()[0] == "Words"@,
            forall|a: int| 0 <= a < k ==> #[trigger] header.deep_view()[a + 1] == fcols[a],
        decreases fcols.len() - k,
    {
        let ghost pre = header.deep_view();
        header.push(files[k].clone());
        proof {
            assert(header.deep_view() =~= pre.push(fcols[k as int]));
            assert(forall|a: int| 0 <= a < pre.len() ==> header.deep_view()[a] == pre[a]);
        }
        k = k + 1;
    }
    let ghost hpre = header.deep_view();
    proof {
        assert(hpre =~= seq!["Words"@] + fcols) by {
            assert forall|idx: int| 0 <= idx < hpre.len() implies hpre[idx] == (seq!["Words"@]
                + fcols)[idx] by {
                if idx >= 1 {
                    assert(hpre[(idx - 1) + 1] == fcols[idx - 1]);
                }
            }
        }
    }
    header.push(String::from_str("Total"));
    proof {
        assert(header.deep_view() =~= hpre.push("Total"@));
        assert(header.deep_view() =~= header_cells(fcols));
    }
    let mut out = csv_row(&header);
    let mut rix: usize = 0;
    proof {
        assert(sorted.deep_view().take(0) =~= Seq::<(Seq<char>, usize)>::empty());
        assert(out@ =~= row_str(header_cells(fcols)) + table_rows(
            order.take(0),
            fcols,
            dv,
        ));
    }
    while rix < sorted.len()
        invariant
            rix <= order.len(),
            sorted.deep_view() == order,
            sorted@.len() == order.len(),
            data.deep_view() == dv,
            data@.len() == dv.len(),
            table_data_ok(dv),
            files.deep_view() == fcols,
            files@.len() == fcols.len(),
            out@ == row_str(header_cells(fcols)) + table_rows(order.take(rix as int), fcols, dv),
        decreases order.len() - rix,
    {
        let w = &sorted[rix].0;
        let t = sorted[rix].1;
        proof {
            assert((w@, t) == order[rix as int]);
            assert(order.take(rix + 1).drop_last() =~= order.take(rix as int));
            assert(order.take(rix + 1).last() == order[rix as int]);
        }
        let found = find_outer(data, w.as_str());
        let empty_entries: Vec<(String, usize)> = Vec::new();
        let entries: &Vec<(String, usize)> = match found {
            Some(ei) => &data[ei].1,
            None => &empty_entries,
        };
        proof {
            assert(entries.deep_view() == entries_for(dv, w@));
            if found is Some {
                assert(distinct_keys(entries.deep_view()));
            } else {
                assert(distinct_keys(entries.deep_view()));
            }
        }
        let ghost m = as_map(entries_for(dv, w@));
        let mut cells: Vec<String> = Vec::new();
        cells.push(w.clone());
        let mut k: usize = 0;
        while k < files.len()
            invariant
                k <= fcols.len(),
                files.deep_view() == fcols,
                files@.len() == fcols.len(),
                entries.deep_view() == entries_for(dv, w@),
                distinct_keys(entries.deep_view()),
                m == as_map(entries_for(dv, w@)),
                cells@.len() == k + 1,
                cells.deep_view()[0] == w@,
                forall|a: int|
                    0 <= a < k ==> #[trigger] cells.deep_view()[a + 1] == dec_str(
                        value_or_zero(m, fcols[a]),
                    ),
            decreases fcols.len() - k,
        {
            let ghost pre = cells.deep_view();
            let found_v = lookup_count(entries, files[k].as_str());
            let v: usize = match found_v {
                Some(v) => v,
                None => 0,
            };
            proof {
                assert(v as int == value_or_zero(m, fcols[k as int]));
            }
            let cell = format_count(v);
            cells.push(cell);
            proof {
                assert(cells.deep_view() =~= pre.push(dec_str(value_or_zero(m, fcols[k as int]))));
                assert(forall|a: int| 0 <= a < pre.len() ==> cells.deep_view()[a] == pre[a]);
            }
            k = k + 1;
        }
        let ghost cpre = cells.deep_view();
        proof {
            assert(cpre =~= seq![w@] + fcols.map_values(
                |f: Seq<char>| dec_str(value_or_zero(m, f)),
            )) by {
                assert forall|idx: int| 0 <= idx < cpre.len() implies cpre[idx] == (seq![w@]
                    + fcols.map_values(|f: Seq<char>| dec_str(value_or_zero(m, f))))[idx] by {
                    if idx >= 1 {
                        assert(cpre[(idx - 1) + 1] == dec_str(value_or_zero(m, fcols[idx - 1])));
                    }
                }
            }
        }
        let total_cell = format_count(t);
        cells.push(total_cell);
        proof {
            assert(cells.deep_view() =~= cpre.push(dec_str(t as int)));
            assert(cells.deep_view() =~= row_cells(order[rix as int], fcols, dv));
        }
        let row = csv_row(&cells);
        out.append(row.as_str());
        rix = rix + 1;
        proof {
            assert(out@ =~= row_str(header_cells(fcols)) + table_rows(
                order.take(rix as int),
                fcols,
                dv,
            ));
        }
    }
    proof {
        assert(order.take(order.len() as int) =~= order);
    }
    out
}

/// A count in a frequency map is never negative.
proof fn lemma_voz_nonneg(es: Seq<(Seq<char>, usize)>, w: Seq<char>)
    ensures
        value_or_zero(as_map(es), w) >= 0,
    decreases es.len(),
{
    if es.len() > 0 {
        lemma_voz_nonneg(es.drop_last(), w);
    }
}

/// The total of `w` across every file map of a file-keyed table.
pub open spec fn word_total_across(
    data: Seq<(Seq<char>, Seq<(Seq<char>, usize)>)>,
    w: Seq<char>,
) -> int
    decreases data.len(),
{
    if data.len() == 0 {
        0int
    } else {
        word_total_across(data.drop_last(), w) + value_or_zero(as_map(data.last().1), w)
    }
}

proof fn lemma_word_total_nonneg(data: Seq<(Seq<char>, Seq<(Seq<char>, usize)>)>, w: Seq<char>)
    ensures
        word_total_across(data, w) >= 0,
    decreases data.len(),
{
    if data.len() > 0 {
        lemma_word_total_nonneg(data.drop_last(), w);
        lemma_voz_nonneg(data.last().1, w);
    }
}

proof fn lemma_word_total_prefix(data: Seq<(Seq<char>, Seq<(Seq<char>, usize)>)>, n: int, w: Seq<char>)
    requires
        0 <= n <= data.len(),
    ensures
        word_total_across(data.take(n), w) <= word_total_across(data, w),
        word_total_across(data.take(n), w) >= 0,
    decreases data.len() - n,
{
    lemma_word_total_nonneg(data.take(n), w);
    if n == data.len() {
        assert(data.take(n) =~= data);
    } else {
        lemma_word_total_prefix(data, n + 1, w);
        assert(data.take(n + 1).drop_last() =~= data.take(n));
        assert(data.take(n + 1).last() == data[n]);
        lemma_voz_nonneg(data[n].1, w);
    }
}

/// The total of `w` over the listed file columns.
pub open spec fn row_total(
    files: Seq<Seq<char>>,
    data: Seq<(Seq<char>, Seq<(Seq<char>, usize)>)>,
    w: Seq<char>,
) -> int
    decreases files.len(),
{
    if files.len() == 0 {
        0int
    } else {
        row_total(files.drop_last(), data, w) + value_or_zero(
            as_map(entries_for(data, files.last())),
            w,
        )
    }
}

proof fn lemma_row_total_nonneg(
    files: Seq<Seq<char>>,
    data: Seq<(Seq<char>, Seq<(Seq<char>, usize)>)>,
    w: Seq<char>,
)
    ensures
        row_total(files, data, w) >= 0,
    decreases files.len(),
{
    if files.len() > 0 {
        lemma_row_total_nonneg(files.drop_last(), data, w);
        lemma_voz_nonneg(entries_for(data, files.last()), w);
    }
}

proof fn lemma_row_total_prefix(
    files: Seq<Seq<char>>,
    data: Seq<(Seq<char>, Seq<(Seq<char>, usize)>)>,
    n: int,
    w: Seq<char>,
)
    requires
        0 <= n <= files.len(),
    ensures
        row_total(files.take(n), data, w) <= row_total(files, data, w),
        row_total(files.take(n), data, w) >= 0,
    decreases files.len() - n,
{
    lemma_row_total_nonneg(files.take(n), data, w);
    if n == files.len() {
        assert(files.take(n) =~= files);
    } else {
        lemma_row_total_prefix(files, data, n + 1, w);
        assert(files.take(n + 1).drop_last() =~= files.take(n));
        assert(files.take(n + 1).last() == files[n]);
        lemma_voz_nonneg(entries_for(data, files[n]), w);
    }
}

/// The word/total pairs of a file-keyed table, one per listed word.
pub open spec fn across_totals(
    words: Seq<Seq<char>>,
    data: Seq<(Seq<char>, Seq<(Seq<char>, usize)>)>,
) -> Seq<(Seq<char>, usize)> {
    Seq::new(words.len(), |i: int| (words[i], word_total_across(data, words[i]) as usize))
}

/// The cells of one row of a file-keyed table.
pub open spec fn file_row_cells(
    w: Seq<char>,
    files: Seq<Seq<char>>,
    data: Seq<(Seq<char>, Seq<(Seq<char>, usize)>)>,
) -> Seq<Seq<char>> {
    seq![w] + files.map_values(
        |f: Seq<char>| dec_str(value_or_zero(as_map(entries_for(data, f)), w)),
    ) + seq![dec_str(row_total(files, data, w))]
}

/// The data rows of a file-keyed table, in the given order.
pub open spec fn file_table_rows(
    sorted: Seq<(Seq<char>, usize)>,
    files: Seq<Seq<char>>,
    data: Seq<(Seq<char>, Seq<(Seq<char>, usize)>)>,
) -> Seq<char>
    decreases sorted.len(),
{
    if sorted.len() == 0 {
        Seq::empty()
    } else {
        file_table_rows(sorted.drop_last(), files, data) + row_str(
            file_row_cells(sorted.last().0, files, data),
        )
    }
}

/// The whole file-keyed table.
pub open spec fn file_table(
    files: Seq<Seq<char>>,
    words: Seq<Seq<char>>,
    data: Seq<(Seq<char>, Seq<(Seq<char>, usize)>)>,
    phrases: Seq<Seq<char>>,
) -> Seq<char> {
    row_str(header_cells(files)) + file_table_rows(
        rank_sort(across_totals(words, data), phrases),
        files,
        data,
    )
}

/// The canonical file-keyed frequency table: one column per listed
/// file, one row per listed word in canonical rank order (ranked by the
/// word's total over the whole table), absent cells zero, each row
/// closed by its total over the listed files.
pub fn combined_file_map_to_csv_string_usize(
    file_names: &Vec<String>,
    words_list: &Vec<String>,
    data: &Vec<(String, Vec<(String, usize)>)>,
    phrases: &Vec<String>,
) -> (r: String)
    requires
        forall|i: int| 0 <= i < data@.len() ==> distinct_keys(#[trigger] data.deep_view()[i].1),
        forall|w: Seq<char>| word_total_across(data.deep_view(), w) <= usize::MAX,
        forall|w: Seq<char>| row_total(file_names.deep_view(), data.deep_view(), w) <= usize::MAX,
    ensures
        r@ == file_table(
            file_names.deep_view(),
            words_list.deep_view(),
            data.deep_view(),
            phrases.deep_view(),
        ),
{
    let ghost dv = data.deep_view();
    let ghost fns = file_names.deep_view();
    let ghost wds = words_list.deep_view();
    let mut pairs: Vec<(String, usize)> = Vec::new();
    let mut i: usize = 0;
    while i < words_list.len()
        invariant
            i <= wds.len(),
            words_list.deep_view() == wds,
            words_list@.len() == wds.len(),
            data.deep_view() == dv,
            data@.len() == dv.len(),
            forall|a: int| 0 <= a < dv.len() ==> distinct_keys(#[trigger] dv[a].1),
            forall|w: Seq<char>| word_total_across(dv, w) <= usize::MAX,
            pairs@.len() == i,
            forall|a: int| 0 <= a < i ==> #[trigger] pairs.deep_view()[a] == across_totals(
                wds,
                dv,
            )[a],
        decreases wds.len() - i,
    {
        let ghost pre = pairs.deep_view();
        let w = &words_list[i];
        let mut total: usize = 0;
        let mut a: usize = 0;
        proof {
            assert(dv.take(0) =~= Seq::<(Seq<char>, Seq<(Seq<char>, usize)>)>::empty());
        }
        while a < data.len()
            invariant
                a <= dv.len(),
                data.deep_view() == dv,
                data@.len() == dv.len(),
                forall|b: int| 0 <= b < dv.len() ==> distinct_keys(#[trigger] dv[b].1),
                forall|x: Seq<char>| word_total_across(dv, x) <= usize::MAX,
                total as int == word_total_across(dv.take(a as int), w@),
            decreases dv.len() - a,
        {
            proof {
                assert(dv.take(a + 1).drop_last() =~= dv.take(a as int));
                assert(dv.take(a + 1).last() == dv[a as int]);
                lemma_word_total_prefix(dv, a + 1, w@);
                assert(dv[a as int].1 == data@[a as int].1.deep_view());
            }
            let found = lookup_count(&data[a].1, w.as_str());
            let v: usize = match found {
                Some(v) => v,
                None => 0,
            };
            proof {
                assert(v as int == value_or_zero(as_map(dv[a as int].1), w@));
            }
            total = total + v;
            a = a + 1;
        }
        proof {
            assert(dv.take(dv.len() as int) =~= dv);
        }
        pairs.push((w.clone(), total));
        proof {
            assert(pairs.deep_view() =~= pre.push((wds[i as int], total)));
            assert(forall|b: int| 0 <= b < i ==> pairs.deep_view()[b] == pre[b]);
            assert(pairs.deep_view()[i as int] == across_totals(wds, dv)[i as int]);
        }
        i = i + 1;
    }
    proof {
        assert(pairs.deep_view() =~= across_totals(wds, dv));
    }
    let sorted = sort_entries(pairs, phrases);
    let ghost order = rank_sort(across_totals(wds, dv), phrases.deep_view());
    let mut header: Vec<String> = Vec::new();
    header.push(String::from_str("Words"));
    let mut k: usize = 0;
    while k < file_names.len()
        invariant
            k <= fns.len(),
            file_names.deep_view() == fns,
            file_names@.len() == fns.len(),
            header@.len() == k + 1,
            header.deep_view()[0] == "Words"@,
            forall|a: int| 0 <= a < k ==> #[trigger] header.deep_view()[a + 1] == fns[a],
        decreases fns.len() - k,
    {
        let ghost pre = header.deep_view();
        header.push(file_names[k].clone());
        proof {
            assert(header.deep_view() =~= pre.push(fns[k as int]));
            assert(forall|a: int| 0 <= a < pre.len() ==> header.deep_view()[a] == pre[a]);
        }
        k = k + 1;
    }
    let ghost hpre = header.deep_view();
    proof {
        assert(hpre =~= seq!["Words"@] + fns) by {
            assert forall|idx: int| 0 <= idx < hpre.len() implies hpre[idx] == (seq!["Words"@]
                + fns)[idx] by {
                if idx >= 1 {
                    assert(hpre[(idx - 1) + 1] == fns[idx - 1]);
                }
            }
        }
    }
    header.push(String::from_str("Total"));
    proof {
        assert(header.deep_view() =~= hpre.push("Total"@));
        assert(header.deep_view() =~= header_cells(fns));
    }
    let mut out = csv_row(&header);
    let mut rix: usize = 0;
    proof {
        assert(order.take(0) =~= Seq::<(Seq<char>, usize)>::empty());
        assert(out@ =~= row_str(header_cells(fns)) + file_table_rows(order.take(0), fns, dv));
    }
    while rix < sorted.len()
        invariant
            rix <= order.len(),
            sorted.deep_view() == order,
            sorted@.len() == order.len(),
            data.deep_view() == dv,
            data@.len() == dv.len(),
            file_names.deep_view() == fns,
            file_names@.len() == fns.len(),
            forall|a: int| 0 <= a < dv.len() ==> distinct_keys(#[trigger] dv[a].1),
            forall|w: Seq<char>| row_total(fns, dv, w) <= usize::MAX,
            out@ == row_str(header_cells(fns)) + file_table_rows(order.take(rix as int), fns, dv),
        decreases order.len() - rix,
    {
        let w = &sorted[rix].0;
        proof {
            assert(w@ == order[rix as int].0);
            assert(order.take(rix + 1).drop_last() =~= order.take(rix as int));
            assert(order.take(rix + 1).last() == order[rix as int]);
        }
        let mut cells: Vec<String> = Vec::new();
        cells.push(w.clone());
        let mut total: usize = 0;
        let mut k: usize = 0;
        proof {
            assert(fns.take(0) =~= Seq::<Seq<char>>::empty());
        }
        while k < file_names.len()
            invariant
                k <= fns.len(),
                file_names.deep_view() == fns,
                file_names@.len() == fns.len(),
                data.deep_view() == dv,
                data@.len() == dv.len(),
                forall|a: int| 0 <= a < dv.len() ==> distinct_keys(#[trigger] dv[a].1),
                forall|x: Seq<char>| row_total(fns, dv, x) <= usize::MAX,
                w@ == order[rix as int].0,
                total as int == row_total(fns.take(k as int), dv, w@),
                cells@.len() == k + 1,
                cells.deep_view()[0] == w@,
                forall|a: int|
                    0 <= a < k ==> #[trigger] cells.deep_view()[a + 1] == dec_str(
                        value_or_zero(as_map(entries_for(dv, fns[a])), w@),
                    ),
            decreases fns.len() - k,
        {
            let ghost pre = cells.deep_view();
            proof {
                assert(fns.take(k + 1).drop_last() =~= fns.take(k as int));
                assert(fns.take(k + 1).last() == fns[k as int]);
                lemma_row_total_prefix(fns, dv, k + 1, w@);
            }
            let fo = find_outer(data, file_names[k].as_str());
            let empty_entries: Vec<(String, usize)> = Vec::new();
            let entries: &Vec<(String, usize)> = match fo {
                Some(ei) => &data[ei].1,
                None => &empty_entries,
            };
            proof {
                assert(entries.deep_view() == entries_for(dv, fns[k as int]));
                assert(distinct_keys(entries.deep_view()));
            }
            let found_v = lookup_count(entries, w.as_str());
            let v: usize = match found_v {
                Some(v) => v,
                None => 0,
            };
            proof {
                assert(v as int == value_or_zero(as_map(entries_for(dv, fns[k as int])), w@));
            }
            total = total + v;
            let cell = format_count(v);
            cells.push(cell);
            proof {
                assert(cells.deep_view() =~= pre.push(dec_str(
                    value_or_zero(as_map(entries_for(dv, fns[k as int])), w@),
                )));
                assert(forall|a: int| 0 <= a < pre.len() ==> cells.deep_view()[a] == pre[a]);
            }
            k = k + 1;
        }
        proof {
            assert(fns.take(fns.len() as int) =~= fns);
        }
        let ghost cpre = cells.deep_view();
        proof {
            assert(cpre =~= seq![w@] + fns.map_values(
                |f: Seq<char>| dec_str(value_or_zero(as_map(entries_for(dv, f)), w@)),
            )) by {
                assert forall|idx: int| 0 <= idx < cpre.len() implies cpre[idx] == (seq![w@]
                    + fns.map_values(
                    |f: Seq<char>| dec_str(value_or_zero(as_map(entries_for(dv, f)), w@)),
                ))[idx] by {
                    if idx >= 1 {
                        assert(cpre[(idx - 1) + 1] == dec_str(
                            value_or_zero(as_map(entries_for(dv, fns[idx - 1])), w@),
                        ));
                    }
                }
            }
        }
        let total_cell = format_count(total);
        cells.push(total_cell);
        proof {
            assert(cells.deep_view() =~= cpre.push(dec_str(row_total(fns, dv, w@))));
            assert(cells.deep_view() =~= file_row_cells(order[rix as int].0, fns, dv));
        }
        let row = csv_row(&cells);
        out.append(row.as_str());
        rix = rix + 1;
        proof {
            assert(out@ =~= row_str(header_cells(fns)) + file_table_rows(
                order.take(rix as int),
                fns,
                dv,
            ));
        }
    }
    proof {
        assert(order.take(order.len() as int) =~= order);
    }
    out
}

/// The per-chapter header cells of one file: `name _ #1` up to
/// `name _ #count`.
pub open spec fn chapter_cells(name: Seq<char>, count: int) -> Seq<Seq<char>>
    decreases count,
{
    if count <= 0 {
        Seq::empty()
    } else {
        chapter_cells(name, count - 1).push(name + " _ #"@ + dec_str(count))
    }
}

/// The header cells of the chaptered table body: for each file its
/// chapter columns, then its total column.
pub open spec fn chaptered_header_cells(names: Seq<Seq<char>>, counts: Seq<usize>) -> Seq<
    Seq<char>,
>
    decreases names.len(),
{
    if names.len() == 0 {
        Seq::empty()
    } else {
        chaptered_header_cells(names.drop_last(), counts.drop_last()) + chapter_cells(
            names.last(),
            counts.last() as int,
        ).push(names.last() + "_Total"@)
    }
}

/// The header row of the chaptered TF-IDF table: `Words`, then for each
/// file one column per chapter and a per-file total column, then the
/// corpus total column.
pub fn tf_idf_table_header(file_names: &Vec<String>, chapter_counts: &Vec<usize>) -> (r: String)
    requires
        file_names@.len() == chapter_counts@.len(),
    ensures
        r@ == row_str(
            seq!["Words"@] + chaptered_header_cells(file_names.deep_view(), chapter_counts@)
                + seq!["Corpus Total"@],
        ),
{
    let ghost fns = file_names.deep_view();
    let ghost cnts = chapter_counts@;
    let mut cells: Vec<String> = Vec::new();
    cells.push(String::from_str("Words"));
    let mut i: usize = 0;
    proof {
        assert(chaptered_header_cells(fns.take(0), cnts.take(0)) =~= Seq::<Seq<char>>::empty());
        assert(cells.deep_view() =~= seq!["Words"@] + chaptered_header_cells(
            fns.take(0),
            cnts.take(0),
        ));
    }
    while i < file_names.len()
        invariant
            i <= fns.len(),
            file_names.deep_view() == fns,
            file_names@.len() == fns.len(),
            chapter_counts@ == cnts,
            fns.len() == cnts.len(),
            cells.deep_view() == seq!["Words"@] + chaptered_header_cells(
                fns.take(i as int),
                cnts.take(i as int),
            ),
        decreases fns.len() - i,
    {
        proof {
            assert(fns.take(i + 1).drop_last() =~= fns.take(i as int));
            assert(fns.take(i + 1).last() == fns[i as int]);
            assert(cnts.take(i + 1).drop_last() =~= cnts.take(i as int));
            assert(cnts.take(i + 1).last() == cnts[i as int]);
        }
        let name = &file_names[i];
        let count = chapter_counts[i];
        let mut c: usize = 0;
        while c < count
            invariant
                c <= count,
                count == cnts[i as int],
                0 <= i < fns.len(),
                file_names.deep_view() == fns,
                file_names@.len() == fns.len(),
                name == file_names@[i as int],
                cells.deep_view() == seq!["Words"@] + chaptered_header_cells(
                    fns.take(i as int),
                    cnts.take(i as int),
                ) + chapter_cells(fns[i as int], c as int),
            decreases count - c,
        {
            let ghost pre = cells.deep_view();
            let mut cell = name.clone();
            cell.append(" _ #");
            let num = format_count(c + 1);
            cell.append(num.as_str());
            cells.push(cell);
            c = c + 1;
            proof {
                assert(cell@ == fns[i as int] + " _ #"@ + dec_str(c as int));
                assert(cells.deep_view() =~= pre.push(cell@));
                assert(chapter_cells(fns[i as int], c as int) == chapter_cells(
                    fns[i as int],
                    c - 1,
                ).push(fns[i as int] + " _ #"@ + dec_str(c as int)));
                assert(cells.deep_view() =~= seq!["Words"@] + chaptered_header_cells(
                    fns.take(i as int),
                    cnts.take(i as int),
                ) + chapter_cells(fns[i as int], c as int));
            }
        }
        let ghost pre = cells.deep_view();
        let mut tcell = name.clone();
        tcell.append("_Total");
        cells.push(tcell);
        proof {
            assert(tcell@ == fns[i as int] + "_Total"@);
            assert(cells.deep_view() =~= pre.push(tcell@));
            assert(chaptered_header_cells(fns.take(i + 1), cnts.take(i + 1))
                == chaptered_header_cells(fns.take(i as int), cnts.take(i as int)) + chapter_cells(
                fns[i as int],
                cnts[i as int] as int,
            ).push(fns[i as int] + "_Total"@));
            assert(cells.deep_view() =~= seq!["Words"@] + chaptered_header_cells(
                fns.take(i + 1),
                cnts.take(i + 1),
            ));
        }
        i = i + 1;
    }
    proof {
        assert(fns.take(fns.len() as int) =~= fns);
        assert(cnts.take(cnts.len() as int) =~= cnts);
    }
    let ghost pre = cells.deep_view();
    cells.push(String::from_str("Corpus Total"));
    proof {
        assert(cells.deep_view() =~= pre.push("Corpus Total"@));
        assert(cells.deep_view() =~= seq!["Words"@] + chaptered_header_cells(fns, cnts)
            + seq!["Corpus Total"@]);
    }
    csv_row(&cells)
}

/// `keys` in ascending lexicographic order, by insertion sort.
fn sort_keys(keys: Vec<String>) -> (r: Vec<String>)
    ensures
        r.deep_view() == lex_sort(keys.deep_view()),
{
    broadcast use vstd::seq_lib::group_to_multiset_ensures;
    broadcast use vstd::multiset::group_multiset_axioms;

    let ghost src = keys.deep_view();
    let ghost leq = lex_order();
    let mut out: Vec<String> = Vec::new();
    let mut t: usize = 0;
    proof {
        assert(out.deep_view() =~= Seq::<Seq<char>>::empty());
        assert(out.deep_view().to_multiset() =~= src.take(0).to_multiset());
        crate::rank::lemma_lex_order_total();
    }
    while t < keys.len()
        invariant
            t <= src.len(),
            keys.deep_view() == src,
            keys@.len() == src.len(),
            leq == lex_order(),
            vstd::relations::total_ordering(leq),
            out.deep_view().to_multiset() == src.take(t as int).to_multiset(),
            sorted_by(out.deep_view(), leq),
        decreases src.len() - t,
    {
        let ghost pre = out.deep_view();
        let e = keys[t].clone();
        proof {
            assert(e@ == src[t as int]);
        }
        let mut p: usize = 0;
        let mut scanning = true;
        while scanning && p < out.len()
            invariant
                p <= out@.len(),
                out.deep_view() == pre,
                leq == lex_order(),
                vstd::relations::total_ordering(leq),
                e@ == src[t as int],
                forall|k: int| 0 <= k < p ==> #[trigger] leq(pre[k], src[t as int]),
                !scanning ==> p < pre.len() && !leq(pre[p as int], src[t as int]),
            decreases out@.len() - p, scanning as int,
        {
            proof {
                assert(out.deep_view()[p as int] == pre[p as int]);
            }
            let keep = crate::rank::lex_le_exec(out[p].as_str(), e.as_str());
            if keep {
                p = p + 1;
            } else {
                scanning = false;
            }
        }
        proof {
            if p < pre.len() {
                assert(!leq(pre[p as int], src[t as int]));
                assert(leq(src[t as int], pre[p as int]));
            }
        }
        out.insert(p, e);
        proof {
            let inserted = out.deep_view();
            assert(inserted =~= pre.insert(p as int, src[t as int]));
            assert(inserted =~= pre.take(p as int) + seq![src[t as int]] + pre.skip(p as int));
            assert(sorted_by(inserted, leq)) by {
                assert forall|x: int, y: int| 0 <= x < y < inserted.len() implies #[trigger]
                    leq(inserted[x], inserted[y]) by {
                    if x < p && y == p {
                    } else if x == p && y > p {
                        assert(inserted[y] == pre[y - 1]);
                        if p < pre.len() {
                            assert(leq(pre[p as int], pre[y - 1]) || y - 1 == p);
                            assert(leq(src[t as int], pre[p as int]));
                        }
                    } else if x < p && y > p {
                        assert(inserted[x] == pre[x]);
                        assert(inserted[y] == pre[y - 1]);
                    } else if x > p && y > p {
                        assert(inserted[x] == pre[x - 1]);
                        assert(inserted[y] == pre[y - 1]);
                    }
                }
            }
            let emp = Seq::<Seq<char>>::empty();
            emp.to_multiset_ensures();
            src.take(t as int).to_multiset_ensures();
            assert(seq![src[t as int]] =~= emp.push(src[t as int]));
            assert(emp.to_multiset().len() == 0);
            assert(emp.to_multiset() =~= Multiset::<Seq<char>>::empty());
            assert(emp.push(src[t as int]).to_multiset() =~= emp.to_multiset().insert(
                src[t as int],
            ));
            assert(src.take(t as int).push(src[t as int]).to_multiset() =~= src.take(
                t as int,
            ).to_multiset().insert(src[t as int]));
            vstd::seq_lib::lemma_multiset_commutative(
                pre.take(p as int) + seq![src[t as int]],
                pre.skip(p as int),
            );
            vstd::seq_lib::lemma_multiset_commutative(pre.take(p as int), seq![src[t as int]]);
            vstd::seq_lib::lemma_multiset_commutative(pre.take(p as int), pre.skip(p as int));
            assert(pre.take(p as int) + pre.skip(p as int) =~= pre);
            assert(src.take(t + 1).drop_last() =~= src.take(t as int));
            assert(src.take(t + 1) =~= src.take(t as int).push(src[t as int]));
            assert(inserted.to_multiset() =~= src.take(t + 1).to_multiset());
        }
        t = t + 1;
    }
    proof {
        assert(src.take(src.len() as int) =~= src);
        src.lemma_sort_by_ensures(leq);
        lemma_sorted_unique(out.deep_view(), src.sort_by(leq), leq);
    }
    out
}

} // verus!
