//! Count tables: string keys mapped to signed 16-bit counts.
//!
//! A [`CountMap`] is an association list with distinct keys, viewed in
//! specifications as a sequence of `(key, count)` pairs.  Counts are kept
//! in an `i16` on purpose: build logs of any practical size stay far below
//! its range, and the width is part of the data model rather than an
//! accident, so operations state the range as a precondition instead of
//! silently widening.

use vstd::prelude::*;

verus! {

/// The specification-level image of one table: keys with their counts, in
/// insertion order.
pub type Entries = Seq<(Seq<char>, int)>;

/// The keys of `s` are pairwise distinct.
pub open spec fn distinct_keys(s: Entries) -> bool {
    forall|i: int, j: int| 0 <= i < j < s.len() ==> (#[trigger] s[i]).0 != (#[trigger] s[j]).0
}

/// Some entry of `s` carries the key `k`.
pub open spec fn has_key(s: Entries, k: Seq<char>) -> bool {
    exists|i: int| 0 <= i < s.len() && (#[trigger] s[i]).0 == k
}

/// The count stored for `k`, or 0 when `k` is absent: the `get(k, 0)`
/// reading of the table as a mapping.
pub open spec fn count_of(s: Entries, k: Seq<char>) -> int
    decreases s.len(),
{
    if s.len() == 0 {
        0
    } else if s[0].0 == k {
        s[0].1
    } else {
        count_of(s.drop_first(), k)
    }
}

/// The sum of all counts in the table.
pub open spec fn total_of(s: Entries) -> int
    decreases s.len(),
{
    if s.len() == 0 {
        0
    } else {
        s[0].1 + total_of(s.drop_first())
    }
}

/// The index of the entry carrying `k`; meaningful only when `has_key(s, k)`
/// holds and the keys are distinct.
pub open spec fn key_index(s: Entries, k: Seq<char>) -> int {
    choose|i: int| 0 <= i < s.len() && (#[trigger] s[i]).0 == k
}

/// The table after adding `d` to the count of `k`, inserting `k` when absent.
pub open spec fn spec_bump(s: Entries, k: Seq<char>, d: int) -> Entries {
    if has_key(s, k) {
        let i = key_index(s, k);
        s.update(i, (k, s[i].1 + d))
    } else {
        s.push((k, d))
    }
}

/// The table that counts every occurrence of every key of `keys`.
pub open spec fn counts_of(keys: Seq<Seq<char>>) -> Entries
    decreases keys.len(),
{
    if keys.len() == 0 {
        Seq::empty()
    } else {
        spec_bump(counts_of(keys.drop_last()), keys.last(), 1)
    }
}

/// How often `k` occurs in `keys`.
pub open spec fn occurrences(keys: Seq<Seq<char>>, k: Seq<char>) -> int
    decreases keys.len(),
{
    if keys.len() == 0 {
        0
    } else {
        occurrences(keys.drop_last(), k) + if keys.last() == k {
            1int
        } else {
            0int
        }
    }
}

/// A key occurs between never and always.
pub proof fn lemma_occurrences_bounds(keys: Seq<Seq<char>>, k: Seq<char>)
    ensures
        0 <= occurrences(keys, k) <= keys.len(),
        occurrences(keys, k) > 0 <==> keys.contains(k),
    decreases keys.len(),
{
    if keys.len() == 0 {
    } else {
        lemma_occurrences_bounds(keys.drop_last(), k);
        assert(keys.contains(k) <==> keys.drop_last().contains(k) || keys.last() == k) by {
            if keys.contains(k) {
                let i = choose|i: int| 0 <= i < keys.len() && keys[i] == k;
                if i < keys.len() - 1 {
                    assert(keys.drop_last()[i] == k);
                }
            }
            if keys.drop_last().contains(k) {
                let i = choose|i: int| 0 <= i < keys.drop_last().len() && keys.drop_last()[i] == k;
                assert(keys[i] == k);
            }
            if keys.last() == k {
                assert(keys[keys.len() - 1] == k);
            }
        }
    }
}

/// In a table with distinct keys, the stored entry is the count, and an
/// absent key counts 0.
pub proof fn lemma_count_lookup(s: Entries, k: Seq<char>)
    requires
        distinct_keys(s),
    ensures
        has_key(s, k) ==> 0 <= key_index(s, k) < s.len() && s[key_index(s, k)].0 == k
            && count_of(s, k) == s[key_index(s, k)].1,
        !has_key(s, k) ==> count_of(s, k) == 0,
    decreases s.len(),
{
    if s.len() == 0 {
    } else if s[0].0 == k {
        let i = key_index(s, k);
        assert(0 <= i < s.len() && s[i].0 == k);
        assert(i == 0) by {
            if i != 0 {
                assert(s[0].0 != s[i].0);
            }
        }
    } else {
        let t = s.drop_first();
        assert(distinct_keys(t)) by {
            assert(forall|i: int| 0 <= i < t.len() ==> #[trigger] t[i] == s[i + 1]);
        }
        lemma_count_lookup(t, k);
        if has_key(s, k) {
            let i = key_index(s, k);
            assert(0 <= i < s.len() && s[i].0 == k);
            assert(i != 0);
            assert(t[i - 1] == s[i]);
            assert(has_key(t, k));
            let j = key_index(t, k);
            assert(t[j] == s[j + 1]);
            assert(count_of(s, k) == count_of(t, k));
            assert(s[key_index(s, k)].1 == s[j + 1].1) by {
                if key_index(s, k) != j + 1 {
                    assert(s[key_index(s, k)].0 != s[j + 1].0);
                }
            }
        } else {
            assert(!has_key(t, k)) by {
                if has_key(t, k) {
                    let j = key_index(t, k);
                    assert(t[j] == s[j + 1]);
                    assert(has_key(s, k));
                }
            }
        }
    }
}

/// Appending an entry adds its count to the total.
pub proof fn lemma_total_push(s: Entries, e: (Seq<char>, int))
    ensures
        total_of(s.push(e)) == total_of(s) + e.1,
    decreases s.len(),
{
    if s.len() == 0 {
        assert(s.push(e).drop_first() =~= Seq::<(Seq<char>, int)>::empty());
        assert(s.push(e)[0] == e);
        assert(total_of(s.push(e)) == e.1 + total_of(s.push(e).drop_first()));
    } else {
        assert(s.push(e).drop_first() =~= s.drop_first().push(e));
        lemma_total_push(s.drop_first(), e);
        assert(s.push(e)[0] == s[0]);
        assert(total_of(s.push(e)) == s[0].1 + total_of(s.push(e).drop_first()));
        assert(total_of(s) == s[0].1 + total_of(s.drop_first()));
    }
}

/// Replacing one entry shifts the total by the difference of the counts.
pub proof fn lemma_total_update(s: Entries, i: int, e: (Seq<char>, int))
    requires
        0 <= i < s.len(),
    ensures
        total_of(s.update(i, e)) == total_of(s) - s[i].1 + e.1,
    decreases s.len(),
{
    if i == 0 {
        assert(s.update(0, e).drop_first() =~= s.drop_first());
    } else {
        assert(s.update(i, e).drop_first() =~= s.drop_first().update(i - 1, e));
        lemma_total_update(s.drop_first(), i - 1, e);
    }
}

/// What `spec_bump` does to a table with distinct keys, entry by entry.
pub proof fn lemma_bump(s: Entries, k: Seq<char>, d: int)
    requires
        distinct_keys(s),
    ensures
        distinct_keys(spec_bump(s, k, d)),
        forall|q: Seq<char>| #[trigger] has_key(spec_bump(s, k, d), q) <==> has_key(s, q) || q == k,
        count_of(spec_bump(s, k, d), k) == count_of(s, k) + d,
        forall|q: Seq<char>|
            q != k ==> #[trigger] count_of(spec_bump(s, k, d), q) == count_of(s, q),
        total_of(spec_bump(s, k, d)) == total_of(s) + d,
        spec_bump(s, k, d).len() == s.len() + (if has_key(s, k) {
            0int
        } else {
            1int
        }),
{
    lemma_count_lookup(s, k);
    let r = spec_bump(s, k, d);
    if has_key(s, k) {
        let i = key_index(s, k);
        lemma_total_update(s, i, (k, s[i].1 + d));
        assert(distinct_keys(r)) by {
            assert(forall|j: int| 0 <= j < r.len() && j != i ==> #[trigger] r[j] == s[j]);
        }
        assert forall|q: Seq<char>| #[trigger] has_key(r, q) implies has_key(s, q) || q == k by {
            let j = choose|j: int| 0 <= j < r.len() && (#[trigger] r[j]).0 == q;
            if j != i {
                assert(r[j] == s[j]);
                assert(s[j].0 == q);
            }
        }
        assert forall|q: Seq<char>| has_key(s, q) || q == k implies #[trigger] has_key(r, q) by {
            if q == k {
                assert(r[i].0 == k);
            } else {
                lemma_count_lookup(s, q);
                let j = key_index(s, q);
                assert(j != i);
                assert(r[j] == s[j]);
                assert(r[j].0 == q);
            }
        }
        lemma_count_lookup(r, k);
        assert(r[i].0 == k);
        assert(key_index(r, k) == i) by {
            let j = key_index(r, k);
            if j != i {
                assert(r[j].0 != r[i].0);
            }
        }
        assert(count_of(r, k) == count_of(s, k) + d);
        assert forall|q: Seq<char>| q != k implies #[trigger] count_of(r, q) == count_of(s, q) by {
            lemma_count_lookup(s, q);
            lemma_count_lookup(r, q);
            if has_key(s, q) {
                let j = key_index(s, q);
                assert(j != i);
                assert(r[j] == s[j]);
                assert(key_index(r, q) == j) by {
                    let j2 = key_index(r, q);
                    if j2 != j {
                        assert(r[j2].0 != r[j].0);
                    }
                }
            }
        }
    } else {
        lemma_total_push(s, (k, d));
        assert(r =~= s.push((k, d)));
        assert(r[s.len() as int] == (k, d));
        assert(forall|j: int| 0 <= j < s.len() ==> #[trigger] r[j] == s[j]);
        assert(distinct_keys(r)) by {
            assert forall|a: int, b: int| 0 <= a < b < r.len() implies (#[trigger] r[a]).0 != (
            #[trigger] r[b]).0 by {
                if b == s.len() {
                    assert(r[a] == s[a]);
                    assert(!(s[a].0 == k)) by {
                        if s[a].0 == k {
                            assert(has_key(s, k));
                        }
                    }
                }
            }
        }
        assert forall|q: Seq<char>| #[trigger] has_key(r, q) implies has_key(s, q) || q == k by {
            let j = choose|j: int| 0 <= j < r.len() && (#[trigger] r[j]).0 == q;
            if j < s.len() {
                assert(s[j].0 == q);
            }
        }
        assert forall|q: Seq<char>| has_key(s, q) || q == k implies #[trigger] has_key(r, q) by {
            if q == k {
                assert(r[s.len() as int].0 == k);
            } else {
                let j = key_index(s, q);
                assert(r[j].0 == q);
            }
        }
        lemma_count_lookup(r, k);
        assert(key_index(r, k) == s.len()) by {
            let j = key_index(r, k);
            if j != s.len() {
                assert(s[j].0 == k);
                assert(has_key(s, k));
            }
        }
        assert(count_of(r, k) == d);
        assert forall|q: Seq<char>| q != k implies #[trigger] count_of(r, q) == count_of(s, q) by {
            lemma_count_lookup(s, q);
            lemma_count_lookup(r, q);
            if has_key(s, q) {
                let j = key_index(s, q);
                assert(r[j].0 == q);
                assert(key_index(r, q) == j) by {
                    let j2 = key_index(r, q);
                    if j2 != j {
                        assert(r[j2].0 != r[j].0);
                    }
                }
            } else {
                assert(!has_key(r, q)) by {
                    if has_key(r, q) {
                        let j = key_index(r, q);
                        assert(r[j].0 == q);
                        assert(j == s.len());
                    }
                }
            }
        }
    }
}

/// What counting a key sequence yields: distinct keys, each key that occurs
/// counted exactly as often as it occurs, and a total equal to the length
/// of the sequence.
pub proof fn lemma_counts_of(keys: Seq<Seq<char>>, k: Seq<char>)
    ensures
        distinct_keys(counts_of(keys)),
        count_of(counts_of(keys), k) == occurrences(keys, k),
        has_key(counts_of(keys), k) <==> keys.contains(k),
        total_of(counts_of(keys)) == keys.len(),
        forall|i: int|
            0 <= i < counts_of(keys).len() ==> 1 <= (#[trigger] counts_of(keys)[i]).1 <= keys.len(),
    decreases keys.len(),
{
    lemma_occurrences_bounds(keys, k);
    if keys.len() == 0 {
    } else {
        let front = keys.drop_last();
        let last = keys.last();
        lemma_counts_of(front, k);
        let s = counts_of(front);
        let r = counts_of(keys);
        lemma_bump(s, last, 1);
        lemma_count_lookup(s, k);
        lemma_count_lookup(r, k);
        lemma_counts_of(front, last);
        assert(keys.contains(k) <==> front.contains(k) || last == k) by {
            lemma_occurrences_bounds(front, k);
        }
        assert forall|i: int| 0 <= i < r.len() implies 1 <= (#[trigger] r[i]).1 <= keys.len() by {
            let q = r[i].0;
            assert(has_key(r, q));
            lemma_count_lookup(r, q);
            assert(key_index(r, q) == i) by {
                let j = key_index(r, q);
                if j != i {
                    assert(r[j].0 != r[i].0);
                }
            }
            assert(r[i].1 == count_of(r, q));
            lemma_counts_of(front, q);
            lemma_occurrences_bounds(front, q);
            lemma_occurrences_bounds(keys, q);
            lemma_count_lookup(s, q);
            if q == last {
                assert(count_of(r, q) == count_of(s, q) + 1);
            } else {
                assert(count_of(r, q) == count_of(s, q));
                assert(has_key(s, q)) by {
                    if !has_key(s, q) {
                        assert(has_key(r, q) <==> has_key(s, q) || q == last);
                    }
                }
            }
        }
    }
}

/// `s` with its zero-count entries removed, order kept.
pub open spec fn nonzero_entries(s: Entries) -> Entries
    decreases s.len(),
{
    if s.len() == 0 {
        Seq::empty()
    } else if s.last().1 != 0 {
        nonzero_entries(s.drop_last()).push(s.last())
    } else {
        nonzero_entries(s.drop_last())
    }
}

/// Pushing a fresh-keyed entry onto a distinct table: membership and counts
/// after the push.
proof fn lemma_push_fresh(s: Entries, e: (Seq<char>, int), k: Seq<char>)
    requires
        distinct_keys(s),
        !has_key(s, e.0),
    ensures
        distinct_keys(s.push(e)),
        has_key(s.push(e), k) <==> has_key(s, k) || e.0 == k,
        count_of(s.push(e), k) == if e.0 == k {
            e.1
        } else {
            count_of(s, k)
        },
{
    lemma_bump(s, e.0, e.1);
    assert(spec_bump(s, e.0, e.1) =~= s.push(e));
    lemma_count_lookup(s, k);
    if e.0 == k {
        assert(count_of(s, k) == 0);
    }
}

/// Dropping the zero counts from a table with distinct keys keeps every
/// other entry's count and drops exactly the keys that counted zero.
proof fn lemma_nonzero_entries(s: Entries, k: Seq<char>)
    requires
        distinct_keys(s),
    ensures
        distinct_keys(nonzero_entries(s)),
        has_key(nonzero_entries(s), k) <==> has_key(s, k) && count_of(s, k) != 0,
        count_of(nonzero_entries(s), k) == count_of(s, k),
    decreases s.len(),
{
    let f = nonzero_entries(s);
    if s.len() == 0 {
        lemma_count_lookup(s, k);
        lemma_count_lookup(f, k);
    } else {
        let front = s.drop_last();
        let last = s.last();
        assert(distinct_keys(front)) by {
            assert(forall|i: int| 0 <= i < front.len() ==> #[trigger] front[i] == s[i]);
        }
        lemma_nonzero_entries(front, k);
        lemma_nonzero_entries(front, last.0);
        let ff = nonzero_entries(front);
        assert(!has_key(front, last.0)) by {
            if has_key(front, last.0) {
                let i = key_index(front, last.0);
                assert(front[i] == s[i]);
                assert(s[i].0 == s[s.len() - 1].0);
            }
        }
        lemma_count_lookup(s, k);
        lemma_count_lookup(front, k);
        assert(has_key(s, k) <==> has_key(front, k) || last.0 == k) by {
            if has_key(s, k) {
                let i = key_index(s, k);
                if i < front.len() {
                    assert(front[i].0 == k);
                }
            }
            if has_key(front, k) {
                let i = key_index(front, k);
                assert(s[i].0 == k);
            }
            if last.0 == k {
                assert(s[s.len() - 1].0 == k);
            }
        }
        if has_key(front, k) {
            let i = key_index(front, k);
            assert(s[i] == front[i]);
            assert(key_index(s, k) == i) by {
                let j = key_index(s, k);
                if j != i {
                    assert(s[j].0 != s[i].0);
                }
            }
            assert(count_of(s, k) == count_of(front, k));
        } else if last.0 == k {
            assert(key_index(s, k) == s.len() - 1) by {
                let j = key_index(s, k);
                if j != s.len() - 1 {
                    assert(front[j] == s[j]);
                    assert(has_key(front, k));
                }
            }
            assert(count_of(s, k) == last.1);
        }
        if last.1 != 0 {
            assert(!has_key(ff, last.0));
            lemma_push_fresh(ff, last, k);
        }
    }
}

/// A count table.  The keys are distinct whenever the table came from the
/// operations of this crate; operations state that as `distinct_keys`.
#[derive(Debug)]
pub struct CountMap {
    pub entries: Vec<(String, i16)>,
}

/// The specification image of the stored entries.
pub open spec fn entries_view(s: Seq<(String, i16)>) -> Entries {
    s.map(|_i: int, e: (String, i16)| (e.0@, e.1 as int))
}

impl View for CountMap {
    type V = Entries;

    open spec fn view(&self) -> Entries {
        entries_view(self.entries@)
    }
}

impl CountMap {
    /// The empty table.
    pub fn new() -> (r: CountMap)
        ensures
            r@ =~= Seq::<(Seq<char>, int)>::empty(),
            r.entries@ =~= Seq::<(String, i16)>::empty(),
    {
        CountMap { entries: Vec::new() }
    }

    /// How many distinct keys the table holds.
    pub fn len(&self) -> (r: usize)
        ensures
            r == self@.len(),
    {
        self.entries.len()
    }

    /// The position of `k` in the table, if present.
    fn find(&self, k: &String) -> (r: Option<usize>)
        ensures
            match r {
                Some(i) => i < self@.len() && self@[i as int].0 == k@,
                None => !has_key(self@, k@),
            },
    {
        let mut i: usize = 0;
        while i < self.entries.len()
            invariant
                i <= self.entries.len(),
                forall|j: int| 0 <= j < i ==> (#[trigger] self@[j]).0 != k@,
            decreases self.entries.len() - i,
        {
            if self.entries[i].0 == *k {
                assert(self@[i as int].0 == k@);
                return Some(i);
            }
            i = i + 1;
        }
        assert(!has_key(self@, k@));
        None
    }

    /// The count recorded for `k`, or 0 when `k` is absent.
    pub fn get(&self, k: &String) -> (r: i16)
        requires
            distinct_keys(self@),
        ensures
            r as int == count_of(self@, k@),
    {
        proof {
            lemma_count_lookup(self@, k@);
        }
        match self.find(k) {
            Some(i) => {
                proof {
                    assert(has_key(self@, k@));
                    let j = key_index(self@, k@);
                    if j != i {
                        assert(self@[j].0 != self@[i as int].0);
                    }
                }
                self.entries[i].1
            },
            None => 0,
        }
    }

    /// Adds `d` to the count of `k`, inserting `k` when absent.
    pub fn add_to(&mut self, k: &String, d: i16)
        requires
            distinct_keys(old(self)@),
            -32768 <= count_of(old(self)@, k@) + d <= 32767,
        ensures
            final(self)@ == spec_bump(old(self)@, k@, d as int),
    {
        proof {
            lemma_count_lookup(self@, k@);
        }
        match self.find(k) {
            Some(i) => {
                proof {
                    assert(has_key(self@, k@));
                    let j = key_index(self@, k@);
                    if j != i {
                        assert(self@[j].0 != self@[i as int].0);
                    }
                }
                let cur = self.entries[i].1;
                let key = self.entries[i].0.clone();
                self.entries.set(i, (key, cur + d));
                assert(self@ =~= spec_bump(old(self)@, k@, d as int));
            },
            None => {
                self.entries.push((k.clone(), d));
                assert(self@ =~= spec_bump(old(self)@, k@, d as int));
            },
        }
    }

    /// Subtracts `d` from the count of `k`, inserting `k` when absent.
    pub fn sub_from(&mut self, k: &String, d: i16)
        requires
            distinct_keys(old(self)@),
            -32768 <= count_of(old(self)@, k@) - d <= 32767,
        ensures
            final(self)@ == spec_bump(old(self)@, k@, -(d as int)),
    {
        proof {
            lemma_count_lookup(self@, k@);
        }
        match self.find(k) {
            Some(i) => {
                proof {
                    assert(has_key(self@, k@));
                    let j = key_index(self@, k@);
                    if j != i {
                        assert(self@[j].0 != self@[i as int].0);
                    }
                }
                let cur = self.entries[i].1;
                let key = self.entries[i].0.clone();
                self.entries.set(i, (key, cur - d));
                assert(self@ =~= spec_bump(old(self)@, k@, -(d as int)));
            },
            None => {
                self.entries.push((k.clone(), 0i16 - d));
                assert(self@ =~= spec_bump(old(self)@, k@, -(d as int)));
            },
        }
    }
}

/// Builds the table that counts every occurrence of every key in `keys`.
pub fn count_keys(keys: &Vec<String>) -> (r: CountMap)
    requires
        keys@.len() <= 32767,
    ensures
        r@ == counts_of(keys.deep_view()),
        distinct_keys(r@),
{
    let ghost ks = keys.deep_view();
    let mut r = CountMap::new();
    assert(r@ =~= counts_of(ks.take(0)));
    let mut i: usize = 0;
    while i < keys.len()
        invariant
            i <= keys.len(),
            ks == keys.deep_view(),
            ks.len() == keys@.len() <= 32767,
            r@ == counts_of(ks.take(i as int)),
        decreases keys.len() - i,
    {
        proof {
            assert(keys[i as int]@ == ks[i as int]);
            lemma_counts_of(ks.take(i as int), ks[i as int]);
            lemma_occurrences_bounds(ks.take(i as int), ks[i as int]);
        }
        r.add_to(&keys[i], 1);
        proof {
            assert(ks.take(i + 1).drop_last() =~= ks.take(i as int));
            assert(ks.take(i + 1).last() == ks[i as int]);
            assert(r@ == counts_of(ks.take(i + 1)));
        }
        i = i + 1;
    }
    proof {
        assert(ks.take(keys@.len() as int) =~= ks);
        lemma_counts_of(ks, Seq::empty());
    }
    r
}

/// The signed per-key delta between two tables: starts from `lhs`, subtracts
/// every count of `rhs`, and drops the keys whose net delta is zero.  A key
/// keeps a positive count when `lhs` has more occurrences and a negative one
/// when `rhs` has more.
pub fn diff_hashmaps(lhs: &CountMap, rhs: &CountMap) -> (r: CountMap)
    requires
        distinct_keys(lhs@),
        distinct_keys(rhs@),
        forall|k: Seq<char>| -32768 <= #[trigger] count_of(lhs@, k) - count_of(rhs@, k) <= 32767,
    ensures
        distinct_keys(r@),
        forall|k: Seq<char>| #[trigger] has_key(r@, k) <==> count_of(lhs@, k) != count_of(rhs@, k),
        forall|k: Seq<char>| #[trigger] count_of(r@, k) == count_of(lhs@, k) - count_of(rhs@, k),
{
    // Copy the left table.
    let mut acc = CountMap::new();
    let mut i: usize = 0;
    while i < lhs.entries.len()
        invariant
            i <= lhs.entries.len(),
            acc.entries@ =~= lhs.entries@.take(i as int),
        decreases lhs.entries.len() - i,
    {
        let key = lhs.entries[i].0.clone();
        let v = lhs.entries[i].1;
        proof {
            assert(key == lhs.entries@[i as int].0);
            assert((key, v) == lhs.entries@[i as int]);
        }
        acc.entries.push((key, v));
        assert(acc.entries@ =~= lhs.entries@.take(i as int + 1));
        i = i + 1;
    }
    assert(lhs.entries@.take(lhs.entries.len() as int) =~= lhs.entries@);
    assert(acc.entries@ =~= lhs.entries@);
    assert(acc@ == lhs@);

    // Subtract the right table.
    let mut j: usize = 0;
    while j < rhs.entries.len()
        invariant
            j <= rhs.entries.len(),
            distinct_keys(lhs@),
            distinct_keys(rhs@),
            distinct_keys(acc@),
            forall|k: Seq<char>|
                -32768 <= #[trigger] count_of(lhs@, k) - count_of(rhs@, k) <= 32767,
            forall|k: Seq<char>|
                #[trigger] count_of(acc@, k) == count_of(lhs@, k) - count_of(
                    rhs@.take(j as int),
                    k,
                ),
        decreases rhs.entries.len() - j,
    {
        let ghost pre = acc@;
        let key = &rhs.entries[j].0;
        let v = rhs.entries[j].1;
        proof {
            assert(rhs@[j as int] == (key@, v as int));
            assert(!has_key(rhs@.take(j as int), key@)) by {
                if has_key(rhs@.take(j as int), key@) {
                    let t = choose|t: int|
                        0 <= t < j && (#[trigger] rhs@.take(j as int)[t]).0 == key@;
                    assert(rhs@[t].0 == rhs@[j as int].0);
                }
            }
            assert(distinct_keys(rhs@.take(j as int))) by {
                assert(forall|a: int| 0 <= a < j ==> #[trigger] rhs@.take(j as int)[a] == rhs@[a]);
            }
            lemma_count_lookup(rhs@.take(j as int), key@);
            assert(count_of(rhs@.take(j as int), key@) == 0);
            assert(count_of(acc@, key@) == count_of(lhs@, key@));
            lemma_count_lookup(rhs@, key@);
            assert(has_key(rhs@, key@));
            assert(key_index(rhs@, key@) == j) by {
                let t = key_index(rhs@, key@);
                if t != j {
                    assert(rhs@[t].0 != rhs@[j as int].0);
                }
            }
            assert(count_of(rhs@, key@) == v as int);
        }
        acc.sub_from(key, v);
        proof {
            lemma_bump(pre, key@, -(v as int));
            assert(distinct_keys(rhs@.take(j + 1))) by {
                assert(forall|a: int| 0 <= a < j + 1 ==> #[trigger] rhs@.take(j + 1)[a] == rhs@[a]);
            }
            assert forall|k: Seq<char>|
                #[trigger] count_of(acc@, k) == count_of(lhs@, k) - count_of(
                    rhs@.take(j + 1),
                    k,
                ) by {
                lemma_count_lookup(rhs@.take(j as int), k);
                lemma_count_lookup(rhs@.take(j + 1), k);
                if k == key@ {
                    assert(has_key(rhs@.take(j + 1), k)) by {
                        assert(rhs@.take(j + 1)[j as int].0 == k);
                    }
                    let t = key_index(rhs@.take(j + 1), k);
                    assert(t == j) by {
                        if t != j {
                            assert(rhs@.take(j + 1)[t] == rhs@[t]);
                            assert(rhs@[t].0 != rhs@[j as int].0);
                        }
                    }
                    assert(rhs@.take(j + 1)[j as int] == rhs@[j as int]);
                    assert(count_of(rhs@.take(j + 1), k) == v as int);
                    assert(count_of(acc@, k) == count_of(pre, k) - v);
                } else {
                    assert(count_of(acc@, k) == count_of(pre, k));
                    assert(has_key(rhs@.take(j + 1), k) <==> has_key(rhs@.take(j as int), k)) by {
                        if has_key(rhs@.take(j + 1), k) {
                            let t = key_index(rhs@.take(j + 1), k);
                            assert(rhs@.take(j + 1)[t].0 == k);
                            assert(t != j);
                            assert(rhs@.take(j as int)[t].0 == k);
                        }
                        if has_key(rhs@.take(j as int), k) {
                            let t = key_index(rhs@.take(j as int), k);
                            assert(rhs@.take(j as int)[t] == rhs@.take(j + 1)[t]);
                            assert(rhs@.take(j + 1)[t].0 == k);
                        }
                    }
                    if has_key(rhs@.take(j as int), k) {
                        let t = key_index(rhs@.take(j as int), k);
                        assert(rhs@.take(j as int)[t] == rhs@.take(j + 1)[t]);
                        let t2 = key_index(rhs@.take(j + 1), k);
                        assert(t2 == t) by {
                            if t2 != t {
                                assert(rhs@.take(j + 1)[t2].0 != rhs@.take(j + 1)[t].0);
                            }
                        }
                        assert(count_of(rhs@.take(j + 1), k) == count_of(rhs@.take(j as int), k));
                    }
                }
            }
        }
        j = j + 1;
    }
    assert(rhs@.take(rhs.entries.len() as int) =~= rhs@);

    // Drop the zero deltas.
    let mut out = CountMap::new();
    assert(out@ =~= nonzero_entries(acc@.take(0)));
    let mut t: usize = 0;
    while t < acc.entries.len()
        invariant
            t <= acc.entries.len(),
            out@ == nonzero_entries(acc@.take(t as int)),
        decreases acc.entries.len() - t,
    {
        proof {
            assert(acc@.take(t + 1).drop_last() =~= acc@.take(t as int));
            assert(acc@.take(t + 1).last() == acc@[t as int]);
        }
        let v = acc.entries[t].1;
        if v != 0 {
            let key = acc.entries[t].0.clone();
            out.entries.push((key, v));
            assert(out@ =~= nonzero_entries(acc@.take(t as int)).push(acc@[t as int]));
        }
        assert(out@ == nonzero_entries(acc@.take(t + 1)));
        t = t + 1;
    }
    assert(acc@.take(acc.entries.len() as int) =~= acc@);
    proof {
        assert(distinct_keys(out@)) by {
            lemma_nonzero_entries(acc@, Seq::empty());
        }
        assert forall|k: Seq<char>|
            #[trigger] has_key(out@, k) <==> count_of(lhs@, k) != count_of(rhs@, k) by {
            lemma_nonzero_entries(acc@, k);
            lemma_count_lookup(acc@, k);
        }
        assert forall|k: Seq<char>|
            #[trigger] count_of(out@, k) == count_of(lhs@, k) - count_of(rhs@, k) by {
            lemma_nonzero_entries(acc@, k);
            lemma_count_lookup(acc@, k);
        }
    }
    out
}

} // verus!
