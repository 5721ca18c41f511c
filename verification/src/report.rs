//! Rendering a count table as an aligned, sorted, optionally truncated
//! text block.
//!
//! Entries are sorted by count descending with ties broken by key
//! ascending; the same order applies to every table, whatever its keys
//! name.  The count column is as wide as the decimal form of the
//! sum of all counts.  A non-zero `top_n` truncates the listing and adds a
//! `(+N more items)` line; the closing line shows either the sum of the
//! counts or the number of distinct keys, followed by `Total`.

use crate::count_map::{distinct_keys, entries_view, total_of, CountMap, Entries};
use vstd::prelude::*;
use vstd::relations::{sorted_by, total_ordering};
use vstd::seq_lib::lemma_sorted_unique;

verus! {

broadcast use {
    vstd::seq_lib::group_to_multiset_ensures,
    vstd::multiset::group_multiset_axioms,
    vstd::utf8::char_u32_cast,
};

/// Lexicographic order on character sequences by code point, the order in
/// which `str` compares.
pub open spec fn lex_leq(a: Seq<char>, b: Seq<char>) -> bool
    decreases a.len(),
{
    if a.len() == 0 {
        true
    } else if b.len() == 0 {
        false
    } else if a[0] as u32 != b[0] as u32 {
        (a[0] as u32) < (b[0] as u32)
    } else {
        lex_leq(a.drop_first(), b.drop_first())
    }
}

proof fn lemma_lex_refl(a: Seq<char>)
    ensures
        lex_leq(a, a),
    decreases a.len(),
{
    if a.len() > 0 {
        lemma_lex_refl(a.drop_first());
    }
}

proof fn lemma_lex_total(a: Seq<char>, b: Seq<char>)
    ensures
        lex_leq(a, b) || lex_leq(b, a),
    decreases a.len(),
{
    if a.len() > 0 && b.len() > 0 && a[0] as u32 == b[0] as u32 {
        lemma_lex_total(a.drop_first(), b.drop_first());
    }
}

proof fn lemma_lex_antisym(a: Seq<char>, b: Seq<char>)
    requires
        lex_leq(a, b),
        lex_leq(b, a),
    ensures
        a == b,
    decreases a.len(),
{
    if a.len() == 0 {
        assert(b.len() == 0);
        assert(a =~= b);
    } else {
        assert(b.len() > 0);
        assert(a[0] as u32 == b[0] as u32);
        assert(a[0] == b[0]) by {
            vstd::utf8::char_u32_cast(a[0], a[0] as u32);
            vstd::utf8::char_u32_cast(b[0], b[0] as u32);
        }
        lemma_lex_antisym(a.drop_first(), b.drop_first());
        assert(a.len() == b.len());
        assert forall|i: int| 0 <= i < a.len() implies a[i] == b[i] by {
            if i > 0 {
                assert(a.drop_first()[i - 1] == b.drop_first()[i - 1]);
            }
        }
        assert(a =~= b);
    }
}

proof fn lemma_lex_trans(a: Seq<char>, b: Seq<char>, c: Seq<char>)
    requires
        lex_leq(a, b),
        lex_leq(b, c),
    ensures
        lex_leq(a, c),
    decreases a.len(),
{
    if a.len() > 0 && b.len() > 0 && c.len() > 0 {
        if a[0] as u32 == b[0] as u32 && b[0] as u32 == c[0] as u32 {
            lemma_lex_trans(a.drop_first(), b.drop_first(), c.drop_first());
        }
    }
}

/// The report order on entries: larger counts first, ties broken by the
/// key's lexicographic order.
pub open spec fn entry_before(a: (Seq<char>, int), b: (Seq<char>, int)) -> bool {
    a.1 > b.1 || (a.1 == b.1 && lex_leq(a.0, b.0))
}

/// The report order as a relation value, for `sorted_by`.
pub open spec fn entry_order() -> spec_fn((Seq<char>, int), (Seq<char>, int)) -> bool {
    |a: (Seq<char>, int), b: (Seq<char>, int)| entry_before(a, b)
}

/// The report order is a total order.
pub proof fn lemma_entry_order_total()
    ensures
        total_ordering(entry_order()),
{
    let r = entry_order();
    assert forall|a: (Seq<char>, int)| #[trigger] r(a, a) by {
        lemma_lex_refl(a.0);
    }
    assert forall|a: (Seq<char>, int), b: (Seq<char>, int)| #[trigger] r(a, b) && #[trigger] r(
        b,
        a,
    ) implies a == b by {
        lemma_lex_antisym(a.0, b.0);
    }
    assert forall|a: (Seq<char>, int), b: (Seq<char>, int), c: (Seq<char>, int)|
        #[trigger] r(a, b) && #[trigger] r(b, c) implies r(a, c) by {
        if a.1 == b.1 && b.1 == c.1 {
            lemma_lex_trans(a.0, b.0, c.0);
        }
    }
    assert forall|a: (Seq<char>, int), b: (Seq<char>, int)| #[trigger] r(a, b) || #[trigger] r(
        b,
        a,
    ) by {
        if a.1 == b.1 {
            lemma_lex_total(a.0, b.0);
        }
    }
}

/// Entry transitivity, stated directly for loop proofs.
proof fn lemma_entry_trans(a: (Seq<char>, int), b: (Seq<char>, int), c: (Seq<char>, int))
    requires
        entry_before(a, b),
        entry_before(b, c),
    ensures
        entry_before(a, c),
{
    if a.1 == b.1 && b.1 == c.1 {
        lemma_lex_trans(a.0, b.0, c.0);
    }
}

/// Entry totality, stated directly for loop proofs.
proof fn lemma_entry_total(a: (Seq<char>, int), b: (Seq<char>, int))
    ensures
        entry_before(a, b) || entry_before(b, a),
{
    if a.1 == b.1 {
        lemma_lex_total(a.0, b.0);
    }
}

/// Entry reflexivity, stated directly for loop proofs.
proof fn lemma_entry_refl(a: (Seq<char>, int))
    ensures
        entry_before(a, a),
{
    lemma_lex_refl(a.0);
}

/// Two tables sorted in the report order with the same entries are the
/// same sequence: the order pins the rendering.
proof fn lemma_sorted_entries_unique(a: Entries, b: Entries)
    requires
        sorted_by(a, entry_order()),
        sorted_by(b, entry_order()),
        a.to_multiset() == b.to_multiset(),
    ensures
        a == b,
{
    lemma_entry_order_total();
    lemma_sorted_unique(a, b, entry_order());
}

/// Whether `a@` comes at or before `b@` in the report's key order.
fn str_lex_leq(a: &String, b: &String) -> (r: bool)
    ensures
        r == lex_leq(a@, b@),
{
    let an = a.as_str().unicode_len();
    let bn = b.as_str().unicode_len();
    let mut i: usize = 0;
    assert(a@.skip(0) =~= a@);
    assert(b@.skip(0) =~= b@);
    loop
        invariant
            i <= an,
            i <= bn,
            an == a@.len(),
            bn == b@.len(),
            lex_leq(a@, b@) == lex_leq(a@.skip(i as int), b@.skip(i as int)),
        decreases an - i,
    {
        if i >= an {
            assert(a@.skip(i as int).len() == 0);
            return true;
        }
        if i >= bn {
            assert(b@.skip(i as int).len() == 0);
            return false;
        }
        let ca = a.as_str().get_char(i) as u32;
        let cb = b.as_str().get_char(i) as u32;
        proof {
            assert(a@.skip(i as int)[0] == a@[i as int]);
            assert(b@.skip(i as int)[0] == b@[i as int]);
            assert(a@.skip(i as int).drop_first() =~= a@.skip(i as int + 1));
            assert(b@.skip(i as int).drop_first() =~= b@.skip(i as int + 1));
        }
        if ca != cb {
            return ca < cb;
        }
        i = i + 1;
    }
}

/// Whether `a` comes at or before `b` in the report order.
fn entry_le(a: &(String, i16), b: &(String, i16)) -> (r: bool)
    ensures
        r == entry_before((a.0@, a.1 as int), (b.0@, b.1 as int)),
{
    if a.1 > b.1 {
        true
    } else if a.1 == b.1 {
        str_lex_leq(&a.0, &b.0)
    } else {
        false
    }
}

/// The entries of `m`, sorted in the report order.
fn sorted_entry_vec(m: &CountMap) -> (out: Vec<(String, i16)>)
    ensures
        entries_view(out@).to_multiset() == m@.to_multiset(),
        sorted_by(entries_view(out@), entry_order()),
{
    // Copy the entries.
    let mut rest: Vec<(String, i16)> = Vec::new();
    let mut i: usize = 0;
    while i < m.entries.len()
        invariant
            i <= m.entries.len(),
            rest@ =~= m.entries@.take(i as int),
        decreases m.entries.len() - i,
    {
        let key = m.entries[i].0.clone();
        let v = m.entries[i].1;
        proof {
            assert((key, v) == m.entries@[i as int]);
        }
        rest.push((key, v));
        assert(rest@ =~= m.entries@.take(i as int + 1));
        i = i + 1;
    }
    assert(m.entries@.take(m.entries.len() as int) =~= m.entries@);
    assert(entries_view(rest@) == m@);

    // Select the least remaining entry until none remain.
    let ghost whole = m@;
    let mut out: Vec<(String, i16)> = Vec::new();
    proof {
        assert(entries_view(out@) =~= Seq::<(Seq<char>, int)>::empty());
        assert(entries_view(out@).to_multiset().add(entries_view(rest@).to_multiset())
            =~= whole.to_multiset());
    }
    while rest.len() > 0
        invariant
            entries_view(out@).to_multiset().add(entries_view(rest@).to_multiset())
                == whole.to_multiset(),
            sorted_by(entries_view(out@), entry_order()),
            forall|x: int, y: int|
                0 <= x < out@.len() && 0 <= y < rest@.len() ==> entry_before(
                    #[trigger] entries_view(out@)[x],
                    #[trigger] entries_view(rest@)[y],
                ),
        decreases rest.len(),
    {
        let ghost rv = entries_view(rest@);
        let ghost ov = entries_view(out@);
        // Find the least entry.
        let mut mi: usize = 0;
        let mut j: usize = 1;
        proof {
            lemma_entry_refl(rv[0]);
        }
        while j < rest.len()
            invariant
                rest@.len() > 0,
                (mi as int) < (j as int),
                j <= rest@.len(),
                rv == entries_view(rest@),
                forall|t: int| 0 <= t < j ==> entry_before(rv[mi as int], #[trigger] rv[t]),
            decreases rest.len() - j,
        {
            if !entry_le(&rest[mi], &rest[j]) {
                proof {
                    lemma_entry_total(rv[mi as int], rv[j as int]);
                    assert forall|t: int| 0 <= t < j implies entry_before(
                        rv[j as int],
                        #[trigger] rv[t],
                    ) by {
                        lemma_entry_trans(rv[j as int], rv[mi as int], rv[t]);
                    }
                    lemma_entry_refl(rv[j as int]);
                }
                mi = j;
            } else {
                proof {
                    assert(entry_before(rv[mi as int], rv[j as int]));
                }
            }
            j = j + 1;
        }
        let ghost xv = rv[mi as int];
        let x = rest.remove(mi);
        out.push(x);
        proof {
            assert(entries_view(out@) =~= ov.push(xv));
            assert(entries_view(rest@) =~= rv.remove(mi as int));
            // Multiset bookkeeping.
            assert(ov.push(xv).to_multiset() =~= ov.to_multiset().insert(xv));
            assert(rv.remove(mi as int).to_multiset() =~= rv.to_multiset().remove(xv));
            assert(rv.contains(xv));
            assert(rv.to_multiset().count(xv) > 0);
            assert(ov.to_multiset().insert(xv).add(rv.to_multiset().remove(xv))
                =~= ov.to_multiset().add(rv.to_multiset()));
            // The new last element follows everything already placed.
            assert(forall|t: int|
                0 <= t < ov.len() ==> entry_before(#[trigger] ov[t], xv));
            assert(sorted_by(entries_view(out@), entry_order())) by {
                let nv = entries_view(out@);
                assert forall|p: int, q: int| 0 <= p < q < nv.len() implies #[trigger] entry_order()(
                    nv[p],
                    nv[q],
                ) by {
                    if q < ov.len() {
                        assert(entry_order()(ov[p], ov[q]));
                    } else {
                        assert(nv[q] == xv);
                        assert(entry_before(ov[p], xv));
                    }
                }
            }
            // Everything placed, including the new element, precedes the rest.
            assert forall|p: int, y: int|
                0 <= p < out@.len() && 0 <= y < rest@.len() implies entry_before(
                #[trigger] entries_view(out@)[p],
                #[trigger] entries_view(rest@)[y],
            ) by {
                let oldy = if y < mi as int {
                    y
                } else {
                    y + 1
                };
                assert(entries_view(rest@)[y] == rv[oldy]);
                if p < ov.len() {
                    assert(entry_before(ov[p], rv[oldy]));
                } else {
                    assert(entries_view(out@)[p] == xv);
                    assert(entry_before(rv[mi as int], rv[oldy]));
                }
            }
        }
    }
    proof {
        assert(entries_view(rest@) =~= Seq::<(Seq<char>, int)>::empty());
        assert(entries_view(out@).to_multiset().add(entries_view(rest@).to_multiset())
            =~= entries_view(out@).to_multiset());
    }
    out
}

/// The decimal digit `d` as a character.
pub open spec fn digit_char(d: int) -> char {
    if d == 0 {
        '0'
    } else if d == 1 {
        '1'
    } else if d == 2 {
        '2'
    } else if d == 3 {
        '3'
    } else if d == 4 {
        '4'
    } else if d == 5 {
        '5'
    } else if d == 6 {
        '6'
    } else if d == 7 {
        '7'
    } else if d == 8 {
        '8'
    } else {
        '9'
    }
}

/// The decimal form of a non-negative number.
pub open spec fn dec_str(n: int) -> Seq<char>
    decreases n,
{
    if n < 10 {
        seq![digit_char(n)]
    } else {
        dec_str(n / 10).push(digit_char(n % 10))
    }
}

/// `n` spaces.
pub open spec fn spaces(n: int) -> Seq<char>
    decreases n,
{
    if n <= 0 {
        Seq::empty()
    } else {
        spaces(n - 1).push(' ')
    }
}

/// `s` right-aligned in a field of `w` characters; wider strings stay whole.
pub open spec fn pad_left(s: Seq<char>, w: int) -> Seq<char> {
    spaces(w - s.len()) + s
}

/// One data line: the count right-aligned to the column width, two spaces,
/// the key, and a newline.
pub open spec fn report_line(e: (Seq<char>, int), w: int) -> Seq<char> {
    pad_left(dec_str(e.1), w) + seq![' ', ' '] + e.0 + seq!['\n']
}

/// The first `n` data lines of the sorted entries.
pub open spec fn report_lines(es: Entries, w: int, n: int) -> Seq<char>
    decreases n,
{
    if n <= 0 {
        Seq::empty()
    } else {
        report_lines(es, w, n - 1) + report_line(es[n - 1], w)
    }
}

/// The truncation notice: a blank count column followed by how many
/// entries were left out.
pub open spec fn more_items_line(w: int, extra: int) -> Seq<char> {
    spaces(w) + seq![' ', ' ', '(', '+'] + dec_str(extra) + seq![
        ' ',
        'm',
        'o',
        'r',
        'e',
        ' ',
        'i',
        't',
        'e',
        'm',
        's',
        ')',
    ] + seq!['\n']
}

/// The closing line: the total right-aligned to the column width, two
/// spaces, and the word `Total`.
pub open spec fn total_line(total: int, w: int) -> Seq<char> {
    pad_left(dec_str(total), w) + seq![' ', ' ', 'T', 'o', 't', 'a', 'l']
}

/// The whole rendering of a non-empty sorted table: the shown data lines,
/// the truncation notice when entries were cut, and the closing total
/// line.  The column width is the number of digits of the sum of all
/// counts, and the total is that sum, or the number of entries when
/// `use_total_items` is set.
pub open spec fn render_report(es: Entries, top_n: int, use_total_items: bool) -> Seq<char> {
    let w = dec_str(total_of(es)).len() as int;
    let shown = if top_n == 0 || es.len() <= top_n {
        es.len() as int
    } else {
        top_n
    };
    let extra = if top_n != 0 && es.len() > top_n {
        more_items_line(w, es.len() - top_n)
    } else {
        Seq::<char>::empty()
    };
    let total = if use_total_items {
        es.len() as int
    } else {
        total_of(es)
    };
    report_lines(es, w, shown) + extra + total_line(total, w)
}

/// Removing an entry subtracts its count from the total.
proof fn lemma_total_remove(s: Entries, i: int)
    requires
        0 <= i < s.len(),
    ensures
        total_of(s.remove(i)) == total_of(s) - s[i].1,
    decreases s.len(),
{
    if i == 0 {
        assert(s.remove(0) =~= s.drop_first());
    } else {
        assert(s.remove(i).drop_first() =~= s.drop_first().remove(i - 1));
        lemma_total_remove(s.drop_first(), i - 1);
    }
}

/// Tables with the same entries have the same total.
pub proof fn lemma_total_permutation(a: Entries, b: Entries)
    requires
        a.to_multiset() == b.to_multiset(),
    ensures
        total_of(a) == total_of(b),
    decreases a.len(),
{
    if a.len() == 0 {
        assert(b.to_multiset().len() == 0);
        assert(b.len() == 0);
    } else {
        let x = a[0];
        assert(a.contains(x));
        assert(a.to_multiset().count(x) > 0);
        assert(b.to_multiset().count(x) > 0);
        assert(b.contains(x));
        let j = choose|j: int| 0 <= j < b.len() && b[j] == x;
        lemma_total_remove(b, j);
        assert(a.drop_first() =~= a.remove(0));
        assert(a.remove(0).to_multiset() =~= a.to_multiset().remove(x));
        assert(b.remove(j).to_multiset() =~= b.to_multiset().remove(x));
        lemma_total_permutation(a.drop_first(), b.remove(j));
        assert(total_of(a) == x.1 + total_of(a.drop_first()));
    }
}

/// A table whose counts are all at least 1 in one arrangement keeps that
/// bound in any rearrangement.
proof fn lemma_values_via_multiset(a: Entries, b: Entries)
    requires
        a.to_multiset() == b.to_multiset(),
        forall|i: int| 0 <= i < a.len() ==> 1 <= (#[trigger] a[i]).1,
    ensures
        forall|i: int| 0 <= i < b.len() ==> 1 <= (#[trigger] b[i]).1,
{
    assert forall|i: int| 0 <= i < b.len() implies 1 <= (#[trigger] b[i]).1 by {
        let e = b[i];
        assert(b.contains(e));
        assert(b.to_multiset().count(e) > 0);
        assert(a.to_multiset().count(e) > 0);
        assert(a.contains(e));
        let j = choose|j: int| 0 <= j < a.len() && a[j] == e;
        assert(1 <= a[j].1);
    }
}

/// Prefix totals grow with the prefix and never pass the whole.
proof fn lemma_total_take(s: Entries, i: int)
    requires
        0 <= i <= s.len(),
        forall|j: int| 0 <= j < s.len() ==> 0 <= (#[trigger] s[j]).1,
    ensures
        0 <= total_of(s.take(i)) <= total_of(s),
        i < s.len() ==> total_of(s.take(i + 1)) == total_of(s.take(i)) + s[i].1,
    decreases s.len() - i,
{
    if i < s.len() {
        assert(s.take(i + 1) =~= s.take(i).push(s[i]));
        crate::count_map::lemma_total_push(s.take(i), s[i]);
        lemma_total_take(s, i + 1);
        assert(forall|j: int| 0 <= j < i ==> #[trigger] s.take(i)[j] == s[j]);
        lemma_total_nonneg(s.take(i));
    } else {
        assert(s.take(i) =~= s);
        lemma_total_nonneg(s);
    }
}

/// Non-negative counts sum to a non-negative total.
proof fn lemma_total_nonneg(s: Entries)
    requires
        forall|j: int| 0 <= j < s.len() ==> 0 <= (#[trigger] s[j]).1,
    ensures
        0 <= total_of(s),
    decreases s.len(),
{
    if s.len() > 0 {
        assert(forall|j: int|
            0 <= j < s.drop_first().len() ==> #[trigger] s.drop_first()[j] == s[j + 1]);
        lemma_total_nonneg(s.drop_first());
    }
}

/// Counts of at least 1 sum to at least the number of entries.
proof fn lemma_total_at_least_len(s: Entries)
    requires
        forall|j: int| 0 <= j < s.len() ==> 1 <= (#[trigger] s[j]).1,
    ensures
        total_of(s) >= s.len(),
    decreases s.len(),
{
    if s.len() > 0 {
        assert(forall|j: int|
            0 <= j < s.drop_first().len() ==> #[trigger] s.drop_first()[j] == s[j + 1]);
        lemma_total_at_least_len(s.drop_first());
    }
}

/// One decimal digit as a string.
fn digit_string(d: i16) -> (r: String)
    requires
        0 <= d < 10,
    ensures
        r@ =~= seq![digit_char(d as int)],
{
    proof {
        reveal_strlit("0");
        reveal_strlit("1");
        reveal_strlit("2");
        reveal_strlit("3");
        reveal_strlit("4");
        reveal_strlit("5");
        reveal_strlit("6");
        reveal_strlit("7");
        reveal_strlit("8");
        reveal_strlit("9");
    }
    match d {
        0 => String::from_str("0"),
        1 => String::from_str("1"),
        2 => String::from_str("2"),
        3 => String::from_str("3"),
        4 => String::from_str("4"),
        5 => String::from_str("5"),
        6 => String::from_str("6"),
        7 => String::from_str("7"),
        8 => String::from_str("8"),
        _ => String::from_str("9"),
    }
}

/// The decimal form of a non-negative count.
fn dec_string(n: i16) -> (r: String)
    requires
        0 <= n,
    ensures
        r@ == dec_str(n as int),
    decreases n,
{
    if n < 10 {
        let r = digit_string(n);
        assert(r@ =~= dec_str(n as int));
        r
    } else {
        let mut r = dec_string(n / 10);
        let d = digit_string(n % 10);
        r.append(d.as_str());
        assert(r@ =~= dec_str(n as int)) by {
            assert(dec_str(n as int) == dec_str(n as int / 10).push(digit_char(n as int % 10)));
            assert(r@ =~= dec_str(n as int / 10) + seq![digit_char(n as int % 10)]);
        }
        r
    }
}

/// `s` right-aligned in a field of `w` characters.
fn pad_to(s: &String, w: usize) -> (r: String)
    ensures
        r@ == pad_left(s@, w as int),
{
    let n = s.as_str().unicode_len();
    let target = if w > n {
        w - n
    } else {
        0
    };
    let mut r = String::new();
    let mut k: usize = 0;
    proof {
        reveal_strlit(" ");
    }
    while k < target
        invariant
            k <= target,
            r@ =~= spaces(k as int),
        decreases target - k,
    {
        r.append(" ");
        proof {
            reveal_strlit(" ");
            assert(" "@ =~= seq![' ']);
            assert(r@ =~= spaces(k as int).push(' '));
        }
        k = k + 1;
    }
    r.append(s.as_str());
    assert(r@ =~= pad_left(s@, w as int)) by {
        assert(r@ =~= spaces(target as int) + s@);
        if w <= n {
            assert(spaces(target as int) =~= Seq::<char>::empty());
            assert(spaces(w - s@.len() as int) =~= Seq::<char>::empty());
        }
    }
    r
}

/// Appends one data line for `e` to `out`.
fn append_line(out: &mut String, e: &(String, i16), w: usize)
    requires
        0 <= e.1,
    ensures
        final(out)@ == old(out)@ + report_line((e.0@, e.1 as int), w as int),
{
    let num = dec_string(e.1);
    let padded = pad_to(&num, w);
    out.append(padded.as_str());
    out.append("  ");
    out.append(e.0.as_str());
    out.append("\n");
    proof {
        reveal_strlit("  ");
        reveal_strlit("\n");
        assert("  "@ =~= seq![' ', ' ']);
        assert("\n"@ =~= seq!['\n']);
        assert(out@ =~= old(out)@ + report_line((e.0@, e.1 as int), w as int));
    }
}

/// Appends the truncation notice for `remaining` hidden entries to `out`.
fn append_more_items(out: &mut String, w: usize, remaining: i16)
    requires
        1 <= remaining,
    ensures
        final(out)@ == old(out)@ + more_items_line(w as int, remaining as int),
{
    let blank = String::new();
    let lead = pad_to(&blank, w);
    out.append(lead.as_str());
    out.append("  (+");
    let rem = dec_string(remaining);
    out.append(rem.as_str());
    out.append(" more items)");
    out.append("\n");
    proof {
        reveal_strlit("  (+");
        reveal_strlit(" more items)");
        reveal_strlit("\n");
        assert("  (+"@ =~= seq![' ', ' ', '(', '+']);
        assert(" more items)"@ =~= seq![' ', 'm', 'o', 'r', 'e', ' ', 'i', 't', 'e', 'm', 's', ')']);
        assert("\n"@ =~= seq!['\n']);
        assert(lead@ =~= spaces(w as int));
        assert(out@ =~= old(out)@ + more_items_line(w as int, remaining as int));
    }
}

/// Appends the closing total line to `out`.
fn append_total(out: &mut String, total: i16, w: usize)
    requires
        0 <= total,
    ensures
        final(out)@ == old(out)@ + total_line(total as int, w as int),
{
    let num = dec_string(total);
    let padded = pad_to(&num, w);
    out.append(padded.as_str());
    out.append("  Total");
    proof {
        reveal_strlit("  Total");
        assert("  Total"@ =~= seq![' ', ' ', 'T', 'o', 't', 'a', 'l']);
        assert(out@ =~= old(out)@ + total_line(total as int, w as int));
    }
}

/// What rendering a table yields: the empty string for an empty table,
/// and otherwise the rendering of its entries sorted in the report order.
pub open spec fn section_text(m: Entries, top_n: int, use_items: bool) -> Seq<char> {
    if m.len() == 0 {
        Seq::empty()
    } else {
        render_report(m.sort_by(entry_order()), top_n, use_items)
    }
}

/// Renders one count table as text: entries sorted by count descending and
/// key ascending, counts right-aligned to the width of the total, at most
/// `top_n` entries shown when `top_n` is not 0 (with a `(+N more items)`
/// notice for the rest), and a closing `Total` line carrying the sum of
/// the counts, or the number of distinct keys when `use_total_items` is
/// set.  An empty table renders as the empty string.
pub fn make_warning_counts(counts: &CountMap, top_n: usize, use_total_items: bool) -> (r: String)
    requires
        distinct_keys(counts@),
        forall|i: int| 0 <= i < counts@.len() ==> 1 <= (#[trigger] counts@[i]).1,
        total_of(counts@) <= 32767,
    ensures
        r@ == section_text(counts@, top_n as int, use_total_items),
{
    if counts.entries.len() == 0 {
        assert(counts@.len() == 0);
        return String::new();
    }
    assert(counts@.len() > 0);

    let sorted = sorted_entry_vec(counts);
    let ghost es = entries_view(sorted@);
    proof {
        assert(es.to_multiset().len() == counts@.to_multiset().len());
        assert(es.len() == counts@.len());
        lemma_values_via_multiset(counts@, es);
        lemma_total_permutation(es, counts@);
        lemma_total_at_least_len(es);
    }

    // Sum of all counts; sets the column width.
    let mut sum: i16 = 0;
    let mut i: usize = 0;
    proof {
        assert(es.take(0) =~= Seq::<(Seq<char>, int)>::empty());
        lemma_total_take(es, 0);
    }
    while i < sorted.len()
        invariant
            i <= sorted.len(),
            es == entries_view(sorted@),
            forall|j: int| 0 <= j < es.len() ==> 1 <= (#[trigger] es[j]).1,
            total_of(es) <= 32767,
            sum as int == total_of(es.take(i as int)),
        decreases sorted.len() - i,
    {
        proof {
            lemma_total_take(es, i as int);
            lemma_total_take(es, i as int + 1);
            assert(es[i as int].1 == sorted@[i as int].1 as int);
        }
        sum = sum + sorted[i].1;
        i = i + 1;
    }
    assert(es.take(sorted.len() as int) =~= es);
    assert(sum as int == total_of(es));
    assert(sum >= 1) by {
        assert(total_of(es) >= es.len() >= 1);
    }

    // Column width: the number of digits of the sum.
    let width_str = dec_string(sum);
    let width = width_str.as_str().unicode_len();
    assert(width as int == dec_str(total_of(es)).len() as int);

    let shown = if top_n == 0 || sorted.len() <= top_n {
        sorted.len()
    } else {
        top_n
    };

    let mut out = String::new();
    assert(out@ =~= report_lines(es, width as int, 0));
    let mut t: usize = 0;
    while t < shown
        invariant
            t <= shown,
            shown <= sorted.len(),
            es == entries_view(sorted@),
            forall|j: int| 0 <= j < es.len() ==> 1 <= (#[trigger] es[j]).1,
            width as int == dec_str(total_of(es)).len() as int,
            out@ == report_lines(es, width as int, t as int),
        decreases shown - t,
    {
        proof {
            assert(es[t as int] == (sorted@[t as int].0@, sorted@[t as int].1 as int));
        }
        append_line(&mut out, &sorted[t], width);
        assert(out@ == report_lines(es, width as int, t as int + 1));
        t = t + 1;
    }

    // Truncation notice.
    let ghost with_lines = out@;
    if top_n != 0 && sorted.len() > top_n {
        let remaining = sorted.len() - top_n;
        assert(1 <= remaining <= es.len() <= total_of(es) <= 32767);
        append_more_items(&mut out, width, remaining as i16);
    }
    proof {
        let extra = if top_n != 0 && es.len() > top_n {
            more_items_line(width as int, es.len() - top_n)
        } else {
            Seq::<char>::empty()
        };
        assert(out@ =~= with_lines + extra);
    }

    // Closing total line.
    let total_value: i16 = if use_total_items {
        assert(sorted.len() as int == es.len() <= total_of(es) <= 32767);
        sorted.len() as i16
    } else {
        sum
    };
    append_total(&mut out, total_value, width);
    proof {
        assert(out@ =~= render_report(es, top_n as int, use_total_items));
        lemma_entry_order_total();
        counts@.lemma_sort_by_ensures(entry_order());
        lemma_sorted_entries_unique(es, counts@.sort_by(entry_order()));
    }
    out
}

} // verus!
