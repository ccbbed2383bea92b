//! The persistent invoice sequence index: a mapping from sequence
//! number to the set of date-argument strings that produced it. The
//! store itself is in memory; opening, locking and rewriting the
//! backing file belong to the surrounding application.

use vstd::prelude::*;
use crate::text::{views_of, spec_join, has_char, first_index, all_digits, digits_value,
    spec_split_ws, dec_str};

verus! {

/// Lexicographic order on character sequences by code point, the order
/// in which Rust compares strings.
pub open spec fn lex_le(a: Seq<char>, b: Seq<char>) -> bool
    decreases a.len(),
{
    if a.len() == 0 {
        true
    } else if b.len() == 0 {
        false
    } else if (a[0] as u32) < (b[0] as u32) {
        true
    } else if (a[0] as u32) > (b[0] as u32) {
        false
    } else {
        lex_le(a.subrange(1, a.len() as int), b.subrange(1, b.len() as int))
    }
}

/// Any two strings are ordered one way or the other.
pub proof fn lemma_lex_total(a: Seq<char>, b: Seq<char>)
    ensures
        lex_le(a, b) || lex_le(b, a),
    decreases a.len(),
{
    if a.len() > 0 && b.len() > 0 && (a[0] as u32) == (b[0] as u32) {
        lemma_lex_total(a.subrange(1, a.len() as int), b.subrange(1, b.len() as int));
    }
}

/// Lexicographic order is transitive.
pub proof fn lemma_lex_trans(a: Seq<char>, b: Seq<char>, c: Seq<char>)
    requires
        lex_le(a, b),
        lex_le(b, c),
    ensures
        lex_le(a, c),
    decreases a.len(),
{
    if a.len() > 0 && b.len() > 0 && c.len() > 0 && (a[0] as u32) == (b[0] as u32) && (b[0] as u32)
        == (c[0] as u32) {
        lemma_lex_trans(
            a.subrange(1, a.len() as int),
            b.subrange(1, b.len() as int),
            c.subrange(1, c.len() as int),
        );
    }
}

/// Whether the strings of `s` are in lexicographic order.
pub open spec fn sorted_lex(s: Seq<Seq<char>>) -> bool {
    forall|i: int, j: int| 0 <= i < j < s.len() ==> lex_le(s[i], s[j])
}

/// `x` placed into the sorted sequence `v` before the first element it
/// precedes or equals.
pub open spec fn insert_lex(v: Seq<Seq<char>>, x: Seq<char>) -> Seq<Seq<char>>
    decreases v.len(),
{
    if v.len() == 0 {
        seq![x]
    } else if lex_le(x, v[0]) {
        seq![x] + v
    } else {
        seq![v[0]] + insert_lex(v.subrange(1, v.len() as int), x)
    }
}

/// The strings of `s` in lexicographic order, by insertion.
pub open spec fn spec_sort_lex(s: Seq<Seq<char>>) -> Seq<Seq<char>>
    decreases s.len(),
{
    if s.len() == 0 {
        Seq::empty()
    } else {
        insert_lex(spec_sort_lex(s.subrange(0, s.len() - 1)), s[s.len() - 1])
    }
}

proof fn lemma_insert_lex_len(v: Seq<Seq<char>>, x: Seq<char>)
    ensures
        insert_lex(v, x).len() == v.len() + 1,
    decreases v.len(),
{
    if v.len() > 0 && !lex_le(x, v[0]) {
        lemma_insert_lex_len(v.subrange(1, v.len() as int), x);
    }
}

/// Antisymmetry: strings ordered both ways are equal.
pub proof fn lemma_lex_antisym(a: Seq<char>, b: Seq<char>)
    requires
        lex_le(a, b),
        lex_le(b, a),
    ensures
        a == b,
    decreases a.len(),
{
    if a.len() == 0 {
        assert(b.len() == 0);
        assert(a =~= b);
    } else {
        assert(b.len() > 0);
        assert((a[0] as u32) == (b[0] as u32));
        lemma_lex_antisym(a.subrange(1, a.len() as int), b.subrange(1, b.len() as int));
        vstd::utf8::char_u32_cast(a[0], a[0] as u32);
        vstd::utf8::char_u32_cast(b[0], b[0] as u32);
        assert(a[0] == b[0]);
        assert(a.subrange(1, a.len() as int) == b.subrange(1, b.len() as int));
        assert(a.subrange(1, a.len() as int).len() == a.len() - 1);
        assert(b.subrange(1, b.len() as int).len() == b.len() - 1);
        assert(a.len() == b.len());
        assert(forall|i: int|
            1 <= i < a.len() ==> a[i] == a.subrange(1, a.len() as int)[i - 1]);
        assert(a =~= b);
    }
}

/// Every element of the insertion result is `x` or one of `v`'s.
proof fn lemma_insert_lex_elems(v: Seq<Seq<char>>, x: Seq<char>, k: int)
    requires
        0 <= k < insert_lex(v, x).len(),
    ensures
        insert_lex(v, x)[k] == x || v.contains(insert_lex(v, x)[k]),
    decreases v.len(),
{
    lemma_insert_lex_len(v, x);
    let w = insert_lex(v, x);
    if v.len() > 0 && !lex_le(x, v[0]) {
        let v1 = v.subrange(1, v.len() as int);
        let w1 = insert_lex(v1, x);
        if k > 0 {
            lemma_insert_lex_elems(v1, x, k - 1);
            assert(w[k] == w1[k - 1]);
            if w1[k - 1] != x {
                let j = choose|j: int| 0 <= j < v1.len() && v1[j] == w1[k - 1];
                assert(v[j + 1] == w[k]);
            }
        }
    } else if v.len() > 0 {
        if k > 0 {
            assert(w[k] == v[k - 1]);
        }
    }
}

/// Inserting into a sorted sequence keeps it sorted.
proof fn lemma_insert_lex_sorted(v: Seq<Seq<char>>, x: Seq<char>)
    requires
        sorted_lex(v),
    ensures
        sorted_lex(insert_lex(v, x)),
    decreases v.len(),
{
    lemma_insert_lex_len(v, x);
    let w = insert_lex(v, x);
    if v.len() == 0 {
    } else if lex_le(x, v[0]) {
        assert forall|i: int, j: int| 0 <= i < j < w.len() implies lex_le(w[i], w[j]) by {
            if i == 0 && j > 1 {
                lemma_lex_trans(x, v[0], v[j - 1]);
            }
        }
    } else {
        let v1 = v.subrange(1, v.len() as int);
        assert(forall|a: int, b: int| 0 <= a < b < v1.len() ==> lex_le(v1[a], v1[b]));
        lemma_insert_lex_sorted(v1, x);
        lemma_lex_total(x, v[0]);
        let w1 = insert_lex(v1, x);
        assert forall|i: int, j: int| 0 <= i < j < w.len() implies lex_le(w[i], w[j]) by {
            if i == 0 {
                assert(w[0] == v[0]);
                assert(w[j] == w1[j - 1]);
                lemma_insert_lex_elems(v1, x, j - 1);
                if w1[j - 1] == x {
                    assert(lex_le(v[0], x));
                } else {
                    let jj = choose|q: int| 0 <= q < v1.len() && w1[j - 1] == v1[q];
                    assert(lex_le(v[0], v[jj + 1]));
                }
            } else {
                assert(w[i] == w1[i - 1]);
                assert(w[j] == w1[j - 1]);
            }
        }
    }
}

/// The insertion sort yields a sorted sequence.
pub proof fn lemma_sort_lex_sorted(s: Seq<Seq<char>>)
    ensures
        sorted_lex(spec_sort_lex(s)),
    decreases s.len(),
{
    if s.len() > 0 {
        lemma_sort_lex_sorted(s.subrange(0, s.len() - 1));
        lemma_insert_lex_sorted(spec_sort_lex(s.subrange(0, s.len() - 1)), s[s.len() - 1]);
    }
}

/// Inserting an element that follows every element of a sorted
/// sequence appends it.
proof fn lemma_insert_lex_at_end(v: Seq<Seq<char>>, x: Seq<char>)
    requires
        sorted_lex(v),
        forall|j: int| 0 <= j < v.len() ==> lex_le(v[j], x),
    ensures
        insert_lex(v, x) == v.push(x),
    decreases v.len(),
{
    if v.len() == 0 {
        assert(insert_lex(v, x) =~= v.push(x));
    } else if lex_le(x, v[0]) {
        lemma_lex_antisym(x, v[0]);
        assert forall|j: int| 0 <= j < v.len() implies v[j] == x by {
            if j > 0 {
                lemma_lex_antisym(v[0], v[j]);
            }
        }
        assert(seq![x] + v =~= v.push(x));
    } else {
        let v1 = v.subrange(1, v.len() as int);
        assert(forall|j: int| 0 <= j < v1.len() ==> v1[j] == v[j + 1]);
        lemma_insert_lex_at_end(v1, x);
        assert(insert_lex(v, x) =~= v.push(x));
    }
}

/// Sorting a sorted sequence leaves it unchanged; in particular the
/// sort is idempotent.
pub proof fn lemma_sort_lex_of_sorted(s: Seq<Seq<char>>)
    requires
        sorted_lex(s),
    ensures
        spec_sort_lex(s) == s,
    decreases s.len(),
{
    if s.len() > 0 {
        let s0 = s.subrange(0, s.len() - 1);
        assert(forall|j: int| 0 <= j < s0.len() ==> s0[j] == s[j]);
        lemma_sort_lex_of_sorted(s0);
        lemma_insert_lex_at_end(s0, s[s.len() - 1]);
        assert(s0.push(s[s.len() - 1]) =~= s);
    }
}

/// Whether `a` precedes or equals `b` in lexicographic order, as Rust
/// compares strings.
pub fn str_le(a: &str, b: &str) -> (r: bool)
    ensures
        r == lex_le(a@, b@),
    decreases a@.len(),
{
    let la = a.unicode_len();
    let lb = b.unicode_len();
    if la == 0 {
        true
    } else if lb == 0 {
        false
    } else {
        let ca = a.get_char(0) as u32;
        let cb = b.get_char(0) as u32;
        if ca < cb {
            true
        } else if ca > cb {
            false
        } else {
            str_le(a.substring_char(1, la), b.substring_char(1, lb))
        }
    }
}

/// Where `insert_lex` places the new element, given the scan that
/// found its position.
proof fn lemma_insert_lex_position(w: Seq<Seq<char>>, x: Seq<char>, k: int)
    requires
        0 <= k <= w.len(),
        forall|j: int| 0 <= j < k ==> !lex_le(x, w[j]),
        k < w.len() ==> lex_le(x, w[k]),
    ensures
        insert_lex(w, x) == w.subrange(0, k) + seq![x] + w.subrange(k, w.len() as int),
    decreases k,
{
    if k == 0 {
        if w.len() == 0 {
            assert(insert_lex(w, x) =~= w.subrange(0, 0) + seq![x] + w.subrange(0, 0));
        } else {
            assert(insert_lex(w, x) =~= w.subrange(0, 0) + seq![x] + w.subrange(
                0,
                w.len() as int,
            ));
        }
    } else {
        let w1 = w.subrange(1, w.len() as int);
        assert(forall|j: int| 0 <= j < w1.len() ==> w1[j] == w[j + 1]);
        lemma_insert_lex_position(w1, x, k - 1);
        assert(insert_lex(w, x) =~= w.subrange(0, k) + seq![x] + w.subrange(k, w.len() as int));
    }
}

/// Inserts a string into a lexicographically sorted vector at the
/// position the insertion sort gives it.
fn insert_string(v: Vec<String>, x: String) -> (r: Vec<String>)
    ensures
        views_of(r@) == insert_lex(views_of(v@), x@),
{
    let mut v = v;
    let ghost pre = views_of(v@);
    let mut k: usize = 0;
    while k < v.len() && !str_le(&x, &v[k])
        invariant
            0 <= k <= v@.len(),
            pre == views_of(v@),
            forall|j: int| 0 <= j < k ==> !lex_le(x@, pre[j]),
        decreases v@.len() - k,
    {
        proof {
            assert(pre[k as int] == v@[k as int]@);
        }
        k = k + 1;
    }
    proof {
        assert(k < v@.len() ==> pre[k as int] == v@[k as int]@);
        lemma_insert_lex_position(pre, x@, k as int);
    }
    v.insert(k, x);
    proof {
        assert(views_of(v@) =~= pre.subrange(0, k as int) + seq![x@] + pre.subrange(
            k as int,
            pre.len() as int,
        ));
    }
    v
}

/// The date strings of `v` in lexicographic order.
pub fn sort_dates(v: &Vec<String>) -> (r: Vec<String>)
    ensures
        views_of(r@) == spec_sort_lex(views_of(v@)),
{
    let ghost all = views_of(v@);
    let mut out: Vec<String> = Vec::new();
    let mut i: usize = 0;
    proof {
        assert(all.subrange(0, 0) =~= Seq::<Seq<char>>::empty());
        assert(views_of(out@) =~= Seq::<Seq<char>>::empty());
    }
    while i < v.len()
        invariant
            0 <= i <= v@.len(),
            all == views_of(v@),
            views_of(out@) == spec_sort_lex(all.subrange(0, i as int)),
        decreases v@.len() - i,
    {
        proof {
            let pre = all.subrange(0, i as int);
            let post = all.subrange(0, i + 1);
            assert(post.subrange(0, post.len() - 1) =~= pre);
            assert(post[post.len() - 1] == all[i as int]);
            assert(all[i as int] == v@[i as int]@);
        }
        out = insert_string(out, v[i].clone());
        i = i + 1;
    }
    proof {
        assert(all.subrange(0, all.len() as int) =~= all);
    }
    out
}

/// Compares two date-string vectors element by element.
fn dates_eq(a: &Vec<String>, b: &Vec<String>) -> (r: bool)
    ensures
        r == (views_of(a@) == views_of(b@)),
{
    if a.len() != b.len() {
        proof {
            assert(views_of(a@).len() != views_of(b@).len());
        }
        return false;
    }
    let mut i: usize = 0;
    while i < a.len()
        invariant
            0 <= i <= a@.len(),
            a@.len() == b@.len(),
            forall|j: int| 0 <= j < i ==> views_of(a@)[j] == views_of(b@)[j],
        decreases a@.len() - i,
    {
        proof {
            assert(views_of(a@)[i as int] == a@[i as int]@);
            assert(views_of(b@)[i as int] == b@[i as int]@);
        }
        if !crate::text::str_eq(a[i].as_str(), b[i].as_str()) {
            return false;
        }
        i = i + 1;
    }
    proof {
        assert(views_of(a@) =~= views_of(b@));
    }
    true
}

/// Clones a vector of strings.
fn clone_strings(v: &Vec<String>) -> (r: Vec<String>)
    ensures
        views_of(r@) == views_of(v@),
{
    let mut out: Vec<String> = Vec::new();
    let mut i: usize = 0;
    while i < v.len()
        invariant
            0 <= i <= v@.len(),
            out@.len() == i,
            forall|j: int| 0 <= j < i ==> views_of(out@)[j] == views_of(v@)[j],
        decreases v@.len() - i,
    {
        out.push(v[i].clone());
        i = i + 1;
    }
    proof {
        assert(views_of(out@) =~= views_of(v@));
    }
    out
}

/// Manages invoice sequence numbers and the date sets that produced
/// them. The mapping lives in memory; the surrounding application
/// loads it line by line from the locked index file and writes back
/// what [`Index::save`] renders.
pub struct Index {
    entries: Vec<(u32, Vec<String>)>,
}

impl View for Index {
    type V = Seq<(u32, Seq<Seq<char>>)>;

    closed spec fn view(&self) -> Seq<(u32, Seq<Seq<char>>)> {
        self.entries@.map_values(|p: (u32, Vec<String>)| (p.0, views_of(p.1@)))
    }
}

/// Each sequence number owns at most one entry.
pub open spec fn idx_wf(v: Seq<(u32, Seq<Seq<char>>)>) -> bool {
    forall|i: int, j: int| 0 <= i < j < v.len() ==> v[i].0 != v[j].0
}

/// Index of the entry keyed `k`, or `-1`.
pub open spec fn key_index_of(v: Seq<(u32, Seq<Seq<char>>)>, k: u32) -> int
    decreases v.len(),
{
    if v.len() == 0 {
        -1
    } else if v[0].0 == k {
        0
    } else {
        let r = key_index_of(v.subrange(1, v.len() as int), k);
        if r < 0 {
            -1
        } else {
            r + 1
        }
    }
}

/// The mapping with `dates` recorded under `k`, overwriting any entry
/// already keyed `k`.
pub open spec fn idx_put(
    v: Seq<(u32, Seq<Seq<char>>)>,
    k: u32,
    dates: Seq<Seq<char>>,
) -> Seq<(u32, Seq<Seq<char>>)> {
    let i = key_index_of(v, k);
    if i < 0 {
        v.push((k, dates))
    } else {
        v.update(i, (k, dates))
    }
}

/// The largest sequence number present, or zero for an empty mapping.
pub open spec fn max_key(v: Seq<(u32, Seq<Seq<char>>)>) -> int
    decreases v.len(),
{
    if v.len() == 0 {
        0
    } else {
        let m = max_key(v.subrange(1, v.len() as int));
        if v[0].0 as int > m {
            v[0].0 as int
        } else {
            m
        }
    }
}

/// The sequence number a fresh date set would be given.
pub open spec fn next_key(v: Seq<(u32, Seq<Seq<char>>)>) -> int {
    if max_key(v) < u32::MAX {
        max_key(v) + 1
    } else {
        u32::MAX as int
    }
}

/// Index of the first entry whose sorted date set equals `sd` (itself
/// sorted), or `-1`.
pub open spec fn find_match(v: Seq<(u32, Seq<Seq<char>>)>, sd: Seq<Seq<char>>) -> int
    decreases v.len(),
{
    if v.len() == 0 {
        -1
    } else if spec_sort_lex(v[0].1) == sd {
        0
    } else {
        let r = find_match(v.subrange(1, v.len() as int), sd);
        if r < 0 {
            -1
        } else {
            r + 1
        }
    }
}

/// What `find_sequence` returns and leaves behind: the number of the
/// first entry whose sorted date set equals the sorted request, or a
/// fresh number under which the sorted request is recorded.
pub open spec fn spec_find(v: Seq<(u32, Seq<Seq<char>>)>, d: Seq<Seq<char>>) -> (
    int,
    Seq<(u32, Seq<Seq<char>>)>,
) {
    let sd = spec_sort_lex(d);
    let k = find_match(v, sd);
    if k >= 0 {
        (v[k].0 as int, v)
    } else {
        (next_key(v), idx_put(v, next_key(v) as u32, sd))
    }
}

proof fn lemma_key_index_of_found(v: Seq<(u32, Seq<Seq<char>>)>, k: u32, at: int)
    requires
        0 <= at < v.len(),
        v[at].0 == k,
        forall|j: int| 0 <= j < at ==> v[j].0 != k,
    ensures
        key_index_of(v, k) == at,
    decreases at,
{
    if at > 0 {
        let v1 = v.subrange(1, v.len() as int);
        assert(forall|j: int| 0 <= j < v1.len() ==> v1[j] == v[j + 1]);
        lemma_key_index_of_found(v1, k, at - 1);
    }
}

proof fn lemma_key_index_of_absent(v: Seq<(u32, Seq<Seq<char>>)>, k: u32)
    requires
        forall|j: int| 0 <= j < v.len() ==> v[j].0 != k,
    ensures
        key_index_of(v, k) == -1,
    decreases v.len(),
{
    if v.len() > 0 {
        let v1 = v.subrange(1, v.len() as int);
        assert(forall|j: int| 0 <= j < v1.len() ==> v1[j] == v[j + 1]);
        lemma_key_index_of_absent(v1, k);
    }
}

proof fn lemma_find_match_found(v: Seq<(u32, Seq<Seq<char>>)>, sd: Seq<Seq<char>>, at: int)
    requires
        0 <= at < v.len(),
        spec_sort_lex(v[at].1) == sd,
        forall|j: int| 0 <= j < at ==> spec_sort_lex(v[j].1) != sd,
    ensures
        find_match(v, sd) == at,
    decreases at,
{
    if at > 0 {
        let v1 = v.subrange(1, v.len() as int);
        assert(forall|j: int| 0 <= j < v1.len() ==> v1[j] == v[j + 1]);
        lemma_find_match_found(v1, sd, at - 1);
    }
}

proof fn lemma_find_match_absent(v: Seq<(u32, Seq<Seq<char>>)>, sd: Seq<Seq<char>>)
    requires
        forall|j: int| 0 <= j < v.len() ==> spec_sort_lex(v[j].1) != sd,
    ensures
        find_match(v, sd) == -1,
    decreases v.len(),
{
    if v.len() > 0 {
        let v1 = v.subrange(1, v.len() as int);
        assert(forall|j: int| 0 <= j < v1.len() ==> v1[j] == v[j + 1]);
        lemma_find_match_absent(v1, sd);
    }
}

/// Every key is at most the maximum, and the maximum is non-negative.
pub proof fn lemma_max_key_ge(v: Seq<(u32, Seq<Seq<char>>)>)
    ensures
        0 <= max_key(v) <= u32::MAX,
        forall|j: int| 0 <= j < v.len() ==> v[j].0 as int <= max_key(v),
    decreases v.len(),
{
    if v.len() > 0 {
        let v1 = v.subrange(1, v.len() as int);
        assert(forall|j: int| 0 <= j < v1.len() ==> v1[j] == v[j + 1]);
        lemma_max_key_ge(v1);
        assert forall|j: int| 0 <= j < v.len() implies v[j].0 as int <= max_key(v) by {
            if j > 0 {
                assert(v1[j - 1] == v[j]);
            }
        }
    }
}

impl Index {
    /// Creates an empty mapping.
    pub fn new() -> (r: Self)
        ensures
            r@ =~= Seq::<(u32, Seq<Seq<char>>)>::empty(),
            idx_wf(r@),
    {
        Index { entries: Vec::new() }
    }

    /// Records `dates` under `key`, overwriting any entry with that
    /// key.
    fn put(&mut self, key: u32, dates: Vec<String>)
        ensures
            final(self)@ == idx_put(old(self)@, key, views_of(dates@)),
    {
        let ghost v0 = self@;
        let mut i: usize = 0;
        while i < self.entries.len()
            invariant
                0 <= i <= self.entries@.len(),
                self@ == v0,
                v0 == old(self)@,
                forall|j: int| 0 <= j < i ==> self@[j].0 != key,
            decreases self.entries@.len() - i,
        {
            if self.entries[i].0 == key {
                proof {
                    lemma_key_index_of_found(self@, key, i as int);
                }
                self.entries.remove(i);
                self.entries.insert(i, (key, dates));
                proof {
                    assert(self@ =~~= idx_put(v0, key, views_of(dates@)));
                }
                return ;
            }
            i = i + 1;
        }
        proof {
            lemma_key_index_of_absent(self@, key);
        }
        self.entries.push((key, dates));
        proof {
            assert(self@ =~~= idx_put(v0, key, views_of(dates@)));
        }
    }

    /// Force-assigns `dates` (as given) to `sequence`, overwriting any
    /// prior mapping at that number, and returns the number.
    pub fn add_sequence(&mut self, sequence: u32, dates: &Vec<String>) -> (r: u32)
        ensures
            r == sequence,
            final(self)@ == idx_put(old(self)@, sequence, views_of(dates@)),
    {
        let copy = clone_strings(dates);
        self.put(sequence, copy);
        sequence
    }

    /// Returns the sequence number recorded for this set of dates
    /// (compared sorted), or allocates the next number and records the
    /// sorted dates under it.
    pub fn find_sequence(&mut self, dates: &Vec<String>) -> (seq: u32)
        ensures
            ({
                let (n, v2) = spec_find(old(self)@, views_of(dates@));
                &&& seq as int == n
                &&& final(self)@ == v2
            }),
    {
        let ghost v0 = self@;
        let sorted = sort_dates(dates);
        let ghost sd = spec_sort_lex(views_of(dates@));
        let mut i: usize = 0;
        while i < self.entries.len()
            invariant
                0 <= i <= self.entries@.len(),
                self@ == v0,
                v0 == old(self)@,
                views_of(sorted@) == sd,
                sd == spec_sort_lex(views_of(dates@)),
                forall|j: int| 0 <= j < i ==> spec_sort_lex(v0[j].1) != sd,
            decreases self.entries@.len() - i,
        {
            let entry_sorted = sort_dates(&self.entries[i].1);
            proof {
                assert(v0[i as int].1 == views_of(self.entries@[i as int].1@));
            }
            if dates_eq(&entry_sorted, &sorted) {
                proof {
                    lemma_find_match_found(v0, sd, i as int);
                }
                return self.entries[i].0;
            }
            i = i + 1;
        }
        proof {
            lemma_find_match_absent(v0, sd);
        }
        let mut mx: u32 = 0;
        let mut j: usize = 0;
        proof {
            assert(v0.subrange(0, v0.len() as int) =~= v0);
            lemma_max_key_ge(v0);
        }
        while j < self.entries.len()
            invariant
                0 <= j <= self.entries@.len(),
                self@ == v0,
                v0 == old(self)@,
                max_key(v0) == (if mx as int > max_key(
                    v0.subrange(j as int, v0.len() as int),
                ) {
                    mx as int
                } else {
                    max_key(v0.subrange(j as int, v0.len() as int))
                }),
            decreases self.entries@.len() - j,
        {
            let ghost tail = v0.subrange(j as int, v0.len() as int);
            proof {
                assert(tail[0] == v0[j as int]);
                assert(v0[j as int].0 == self.entries@[j as int].0);
                assert(tail.subrange(1, tail.len() as int) =~= v0.subrange(
                    j + 1,
                    v0.len() as int,
                ));
                lemma_max_key_ge(tail.subrange(1, tail.len() as int));
            }
            let key = self.entries[j].0;
            if key > mx {
                mx = key;
            }
            j = j + 1;
        }
        proof {
            assert(v0.subrange(j as int, v0.len() as int) =~= Seq::<
                (u32, Seq<Seq<char>>),
            >::empty());
            assert(mx as int == max_key(v0));
        }
        let nk: u32 = if mx < u32::MAX {
            mx + 1
        } else {
            u32::MAX
        };
        self.put(nk, sorted);
        nk
    }
}

/// The number an index-file sequence field names: an optional `+`,
/// then digits, fitting a `u32`.
pub open spec fn spec_parse_u32(s: Seq<char>) -> Option<int> {
    let body = if s.len() > 0 && s[0] == '+' {
        s.subrange(1, s.len() as int)
    } else {
        s
    };
    if body.len() >= 1 && all_digits(body) && digits_value(body) <= u32::MAX {
        Some(digits_value(body))
    } else {
        None
    }
}

/// Reads a `u32` as Rust's `u32::from_str` does.
fn read_u32(s: &str) -> (r: Option<u32>)
    ensures
        match r {
            Some(v) => spec_parse_u32(s@) == Some(v as int),
            None => spec_parse_u32(s@) is None,
        },
{
    let l = s.unicode_len();
    let body = if l > 0 && s.get_char(0) == '+' {
        s.substring_char(1, l)
    } else {
        s
    };
    if body.unicode_len() < 1 || !crate::text::str_all_digits(body) {
        return None;
    }
    proof {
        crate::text::lemma_digits_value_bound(body@);
    }
    let v = crate::text::str_digits_value(body);
    if v <= u32::MAX as u64 {
        Some(v as u32)
    } else {
        None
    }
}

/// What loading one index-file line does and reports.
#[derive(Debug, Clone, Copy, PartialEq, Eq, Structural)]
pub enum IndexLineOutcome {
    /// A well-formed `<number> <dates...>` line, recorded.
    Loaded,
    /// The field before the first space is not a `u32`.
    BadSequenceNumber,
    /// No space at all; the line has no date field.
    BadShape,
}

/// The mapping and report after reading one index-file line: the text
/// before the first space must be a `u32`, and the rest is taken as
/// whitespace-separated date tokens; malformed lines change nothing.
pub open spec fn spec_load_line(v: Seq<(u32, Seq<Seq<char>>)>, line: Seq<char>) -> (
    Seq<(u32, Seq<Seq<char>>)>,
    IndexLineOutcome,
) {
    if !has_char(line, ' ') {
        (v, IndexLineOutcome::BadShape)
    } else {
        let k = first_index(line, ' ');
        match spec_parse_u32(line.subrange(0, k)) {
            None => (v, IndexLineOutcome::BadSequenceNumber),
            Some(n) => (
                idx_put(v, n as u32, spec_split_ws(line.subrange(k + 1, line.len() as int))),
                IndexLineOutcome::Loaded,
            ),
        }
    }
}

impl Index {
    /// Loads one line of the index file; a malformed line is reported
    /// and skipped, never fatal.
    pub fn load_line(&mut self, line: &str) -> (r: IndexLineOutcome)
        ensures
            ({
                let (v2, out) = spec_load_line(old(self)@, line@);
                &&& final(self)@ == v2
                &&& r == out
            }),
    {
        match crate::text::split_first(line, ' ') {
            None => IndexLineOutcome::BadShape,
            Some((head, rest)) => {
                match read_u32(head.as_str()) {
                    None => IndexLineOutcome::BadSequenceNumber,
                    Some(n) => {
                        let dates = crate::text::split_ws(rest.as_str());
                        self.put(n, dates);
                        IndexLineOutcome::Loaded
                    },
                }
            },
        }
    }
}

/// `p` placed into `v` before the first entry with a larger-or-equal
/// key.
pub open spec fn insert_by_key(
    v: Seq<(u32, Seq<Seq<char>>)>,
    p: (u32, Seq<Seq<char>>),
) -> Seq<(u32, Seq<Seq<char>>)>
    decreases v.len(),
{
    if v.len() == 0 {
        seq![p]
    } else if p.0 <= v[0].0 {
        seq![p] + v
    } else {
        seq![v[0]] + insert_by_key(v.subrange(1, v.len() as int), p)
    }
}

/// The entries of `v` in ascending key order, by insertion.
pub open spec fn sort_by_key(v: Seq<(u32, Seq<Seq<char>>)>) -> Seq<(u32, Seq<Seq<char>>)>
    decreases v.len(),
{
    if v.len() == 0 {
        Seq::empty()
    } else {
        insert_by_key(sort_by_key(v.subrange(0, v.len() - 1)), v[v.len() - 1])
    }
}

/// One line of the index file: the sequence number, a space, and the
/// space-joined date tokens.
pub open spec fn line_of(p: (u32, Seq<Seq<char>>)) -> Seq<char> {
    dec_str(p.0 as int) + " "@ + spec_join(p.1, " "@)
}

/// The whole index file: one line per mapping, ascending by sequence
/// number.
pub open spec fn spec_save_lines(v: Seq<(u32, Seq<Seq<char>>)>) -> Seq<Seq<char>> {
    sort_by_key(v).map_values(|p: (u32, Seq<Seq<char>>)| line_of(p))
}

/// Where `insert_by_key` places the new entry, given the scan that
/// found its position.
proof fn lemma_insert_by_key_position(
    w: Seq<(u32, Seq<Seq<char>>)>,
    p: (u32, Seq<Seq<char>>),
    k: int,
)
    requires
        0 <= k <= w.len(),
        forall|j: int| 0 <= j < k ==> !(p.0 <= w[j].0),
        k < w.len() ==> p.0 <= w[k].0,
    ensures
        insert_by_key(w, p) == w.subrange(0, k) + seq![p] + w.subrange(k, w.len() as int),
    decreases k,
{
    if k == 0 {
        assert(insert_by_key(w, p) =~= w.subrange(0, 0) + seq![p] + w.subrange(0, w.len() as int));
    } else {
        let w1 = w.subrange(1, w.len() as int);
        assert(forall|j: int| 0 <= j < w1.len() ==> w1[j] == w[j + 1]);
        lemma_insert_by_key_position(w1, p, k - 1);
        assert(insert_by_key(w, p) =~= w.subrange(0, k) + seq![p] + w.subrange(k, w.len() as int));
    }
}

impl Index {
    /// Renders the mapping as index-file lines, sorted by sequence
    /// number ascending.
    pub fn save(&self) -> (lines: Vec<String>)
        ensures
            views_of(lines@) == spec_save_lines(self@),
    {
        let ghost v0 = self@;
        let mut sorted: Vec<(u32, Vec<String>)> = Vec::new();
        let mut i: usize = 0;
        proof {
            assert(v0.subrange(0, 0) =~= Seq::<(u32, Seq<Seq<char>>)>::empty());
            assert(pairs_view(sorted@) =~= Seq::<(u32, Seq<Seq<char>>)>::empty());
        }
        while i < self.entries.len()
            invariant
                0 <= i <= self.entries@.len(),
                v0 == self@,
                pairs_view(sorted@) == sort_by_key(v0.subrange(0, i as int)),
            decreases self.entries@.len() - i,
        {
            proof {
                let pre = v0.subrange(0, i as int);
                let post = v0.subrange(0, i + 1);
                assert(post.subrange(0, post.len() - 1) =~= pre);
                assert(post[post.len() - 1] == v0[i as int]);
                assert(v0[i as int] == (self.entries@[i as int].0, views_of(
                    self.entries@[i as int].1@,
                )));
            }
            let key = self.entries[i].0;
            let dates = clone_strings(&self.entries[i].1);
            sorted = insert_pair(sorted, key, dates);
            i = i + 1;
        }
        proof {
            assert(v0.subrange(0, v0.len() as int) =~= v0);
        }
        let mut lines: Vec<String> = Vec::new();
        let mut j: usize = 0;
        let ghost sv = pairs_view(sorted@);
        proof {
            assert(views_of(lines@) =~= sv.subrange(0, 0).map_values(
                |p: (u32, Seq<Seq<char>>)| line_of(p),
            ));
        }
        while j < sorted.len()
            invariant
                0 <= j <= sorted@.len(),
                sv == pairs_view(sorted@),
                views_of(lines@) == sv.subrange(0, j as int).map_values(
                    |p: (u32, Seq<Seq<char>>)| line_of(p),
                ),
            decreases sorted@.len() - j,
        {
            let mut line = crate::text::u64_str(sorted[j].0 as u64);
            line.append(" ");
            let joined = crate::text::join_all(&sorted[j].1, " ");
            line.append(joined.as_str());
            proof {
                assert(sv[j as int] == (sorted@[j as int].0, views_of(sorted@[j as int].1@)));
                assert(line@ == line_of(sv[j as int]));
                assert(views_of(lines@.push(line)) =~= views_of(lines@).push(line@));
                assert(sv.subrange(0, j + 1).map_values(|p: (u32, Seq<Seq<char>>)| line_of(p))
                    =~= sv.subrange(0, j as int).map_values(
                    |p: (u32, Seq<Seq<char>>)| line_of(p),
                ).push(line_of(sv[j as int])));
            }
            lines.push(line);
            j = j + 1;
        }
        proof {
            assert(sv.subrange(0, sv.len() as int) =~= sv);
            assert(views_of(lines@) =~= spec_save_lines(v0));
        }
        lines
    }
}

/// A non-negative index found by `find_match` points at the first
/// matching entry; a negative one means no entry matches.
proof fn lemma_find_match_char(v: Seq<(u32, Seq<Seq<char>>)>, sd: Seq<Seq<char>>)
    ensures
        find_match(v, sd) >= 0 ==> 0 <= find_match(v, sd) < v.len() && spec_sort_lex(
            v[find_match(v, sd)].1,
        ) == sd,
        find_match(v, sd) < 0 ==> forall|j: int|
            0 <= j < v.len() ==> spec_sort_lex(#[trigger] v[j].1) != sd,
    decreases v.len(),
{
    if v.len() > 0 {
        let v1 = v.subrange(1, v.len() as int);
        assert(forall|j: int| 0 <= j < v1.len() ==> v1[j] == v[j + 1]);
        lemma_find_match_char(v1, sd);
        if find_match(v, sd) < 0 {
            assert forall|j: int|
                0 <= j < v.len() implies spec_sort_lex(#[trigger] v[j].1) != sd by {
                if j > 0 {
                    assert(v1[j - 1] == v[j]);
                }
            }
        }
    }
}

/// Appending an entry raises the maximum to its key if that is larger.
proof fn lemma_max_key_push(v: Seq<(u32, Seq<Seq<char>>)>, p: (u32, Seq<Seq<char>>))
    ensures
        max_key(v.push(p)) == (if p.0 as int > max_key(v) {
            p.0 as int
        } else {
            max_key(v)
        }),
    decreases v.len(),
{
    let w = v.push(p);
    if v.len() == 0 {
        assert(w.len() == 1 && w[0] == p);
        assert(w.subrange(1, 1) =~= Seq::<(u32, Seq<Seq<char>>)>::empty());
        assert(max_key(w.subrange(1, 1)) == 0);
    } else {
        assert(w[0] == v[0]);
        assert(w.subrange(1, w.len() as int) =~= v.subrange(1, v.len() as int).push(p));
        lemma_max_key_push(v.subrange(1, v.len() as int), p);
    }
}

/// Asking twice for the same date set returns the same sequence number
/// and leaves the mapping as the first call left it.
pub proof fn lemma_find_sequence_round_trip(v: Seq<(u32, Seq<Seq<char>>)>, d: Seq<Seq<char>>)
    requires
        idx_wf(v),
        max_key(v) < u32::MAX,
    ensures
        ({
            let (n1, v1) = spec_find(v, d);
            let (n2, v2) = spec_find(v1, d);
            n2 == n1 && v2 == v1
        }),
{
    let sd = spec_sort_lex(d);
    lemma_sort_lex_sorted(d);
    lemma_sort_lex_of_sorted(sd);
    let k = find_match(v, sd);
    lemma_find_match_char(v, sd);
    if k < 0 {
        let nk = next_key(v);
        lemma_max_key_ge(v);
        assert forall|j: int| 0 <= j < v.len() implies (#[trigger] v[j].0) != nk as u32 by {
            assert(v[j].0 as int <= max_key(v));
        }
        lemma_key_index_of_absent(v, nk as u32);
        let v1 = v.push((nk as u32, sd));
        assert(idx_put(v, nk as u32, sd) == v1);
        assert(v1[v.len() as int].1 == sd);
        assert forall|j: int|
            0 <= j < v.len() implies spec_sort_lex(#[trigger] v1[j].1) != sd by {
            assert(v1[j] == v[j]);
        }
        lemma_find_match_found(v1, sd, v.len() as int);
    }
}

/// Distinct date sets never share a sequence number: after one set is
/// looked up or allocated, looking up a different set yields another
/// number.
pub proof fn lemma_find_sequence_distinct(
    v: Seq<(u32, Seq<Seq<char>>)>,
    d1: Seq<Seq<char>>,
    d2: Seq<Seq<char>>,
)
    requires
        idx_wf(v),
        max_key(v) < u32::MAX - 1,
        spec_sort_lex(d1) != spec_sort_lex(d2),
    ensures
        ({
            let (n1, v1) = spec_find(v, d1);
            let (n2, v2) = spec_find(v1, d2);
            n2 != n1
        }),
{
    let sd1 = spec_sort_lex(d1);
    let sd2 = spec_sort_lex(d2);
    lemma_sort_lex_sorted(d1);
    lemma_sort_lex_of_sorted(sd1);
    lemma_max_key_ge(v);
    let k1 = find_match(v, sd1);
    lemma_find_match_char(v, sd1);
    if k1 >= 0 {
        let n1 = v[k1].0;
        let k2 = find_match(v, sd2);
        lemma_find_match_char(v, sd2);
        if k2 >= 0 {
            assert(k1 != k2);
        } else {
            assert(n1 as int <= max_key(v));
        }
    } else {
        let n1 = next_key(v);
        assert forall|j: int| 0 <= j < v.len() implies (#[trigger] v[j].0) != n1 as u32 by {
            assert(v[j].0 as int <= max_key(v));
        }
        lemma_key_index_of_absent(v, n1 as u32);
        let v1 = v.push((n1 as u32, sd1));
        assert(idx_put(v, n1 as u32, sd1) == v1);
        let k2 = find_match(v1, sd2);
        lemma_find_match_char(v1, sd2);
        if k2 >= 0 {
            assert(v1[k2].1 == (if k2 < v.len() {
                v[k2].1
            } else {
                sd1
            }));
            assert(k2 < v.len());
            assert(v1[k2].0 as int <= max_key(v));
        } else {
            lemma_max_key_push(v, (n1 as u32, sd1));
            assert(max_key(v1) == n1);
            assert(next_key(v1) == n1 + 1);
        }
    }
}

/// The key-and-views shape of raw entry pairs.
pub open spec fn pairs_view(s: Seq<(u32, Vec<String>)>) -> Seq<(u32, Seq<Seq<char>>)> {
    s.map_values(|p: (u32, Vec<String>)| (p.0, views_of(p.1@)))
}

/// Inserts an entry into a key-sorted vector at the position the
/// insertion sort gives it.
fn insert_pair(v: Vec<(u32, Vec<String>)>, key: u32, dates: Vec<String>) -> (r: Vec<
    (u32, Vec<String>),
>)
    ensures
        pairs_view(r@) == insert_by_key(pairs_view(v@), (key, views_of(dates@))),
{
    let mut v = v;
    let ghost pre = pairs_view(v@);
    let mut k: usize = 0;
    while k < v.len() && !(key <= v[k].0)
        invariant
            0 <= k <= v@.len(),
            pre == pairs_view(v@),
            forall|j: int| 0 <= j < k ==> !(key <= pre[j].0),
        decreases v@.len() - k,
    {
        proof {
            assert(pre[k as int].0 == v@[k as int].0);
        }
        k = k + 1;
    }
    proof {
        assert(k < v@.len() ==> pre[k as int].0 == v@[k as int].0);
        lemma_insert_by_key_position(pre, (key, views_of(dates@)), k as int);
    }
    v.insert(k, (key, dates));
    proof {
        assert(pairs_view(v@) =~~= pre.subrange(0, k as int) + seq![(key, views_of(dates@))]
            + pre.subrange(k as int, pre.len() as int));
    }
    v
}

} // verus!
