//! Character and string helpers shared by the ledger and date parsers:
//! Unicode whitespace, trimming, splitting on a separator, joining, and
//! reading runs of decimal digits.

use vstd::prelude::*;

verus! {

/// The Unicode `White_Space` code points, the set Rust's `char::is_whitespace`
/// recognises.
pub open spec fn is_space_char(c: char) -> bool {
    let x = c as u32;
    ||| x == 0x20
    ||| (0x09 <= x && x <= 0x0d)
    ||| x == 0x85
    ||| x == 0xa0
    ||| x == 0x1680
    ||| (0x2000 <= x && x <= 0x200a)
    ||| x == 0x2028
    ||| x == 0x2029
    ||| x == 0x202f
    ||| x == 0x205f
    ||| x == 0x3000
}

/// Whether `c` is Unicode whitespace.
pub fn is_space(c: char) -> (b: bool)
    ensures
        b == is_space_char(c),
{
    let x = c as u32;
    x == 0x20 || (0x09 <= x && x <= 0x0d) || x == 0x85 || x == 0xa0 || x == 0x1680 || (0x2000 <= x
        && x <= 0x200a) || x == 0x2028 || x == 0x2029 || x == 0x202f || x == 0x205f || x == 0x3000
}

/// `s` with leading whitespace removed.
pub open spec fn spec_trim_start(s: Seq<char>) -> Seq<char>
    decreases s.len(),
{
    if s.len() > 0 && is_space_char(s[0]) {
        spec_trim_start(s.subrange(1, s.len() as int))
    } else {
        s
    }
}

/// `s` with trailing whitespace removed.
pub open spec fn spec_trim_end(s: Seq<char>) -> Seq<char>
    decreases s.len(),
{
    if s.len() > 0 && is_space_char(s[s.len() - 1]) {
        spec_trim_end(s.subrange(0, s.len() - 1))
    } else {
        s
    }
}

/// `s` with whitespace removed from both ends.
pub open spec fn spec_trim(s: Seq<char>) -> Seq<char> {
    spec_trim_end(spec_trim_start(s))
}

proof fn lemma_trim_start_skip(s: Seq<char>, k: int)
    requires
        0 <= k <= s.len(),
        forall|i: int| 0 <= i < k ==> is_space_char(s[i]),
        k < s.len() ==> !is_space_char(s[k]),
    ensures
        spec_trim_start(s) == s.subrange(k, s.len() as int),
    decreases k,
{
    if k == 0 {
        assert(s.subrange(0, s.len() as int) =~= s);
    } else {
        let s1 = s.subrange(1, s.len() as int);
        lemma_trim_start_skip(s1, k - 1);
        assert(s1.subrange(k - 1, s1.len() as int) =~= s.subrange(k, s.len() as int));
    }
}

proof fn lemma_trim_end_skip(s: Seq<char>, k: int)
    requires
        0 <= k <= s.len(),
        forall|i: int| k <= i < s.len() ==> is_space_char(s[i]),
        k > 0 ==> !is_space_char(s[k - 1]),
    ensures
        spec_trim_end(s) == s.subrange(0, k),
    decreases s.len() - k,
{
    if k == s.len() {
        assert(!(s.len() > 0 && is_space_char(s[s.len() - 1])));
        assert(s.subrange(0, k) =~= s);
    } else {
        let s1 = s.subrange(0, s.len() - 1);
        lemma_trim_end_skip(s1, k);
        assert(s1.subrange(0, k) =~= s.subrange(0, k));
    }
}

/// `s` without leading and trailing whitespace, as Rust's `str::trim`.
pub fn trim(s: &str) -> (r: &str)
    ensures
        r@ == spec_trim(s@),
{
    let len = s.unicode_len();
    let mut lo: usize = 0;
    while lo < len && is_space(s.get_char(lo))
        invariant
            0 <= lo <= len,
            len == s@.len(),
            forall|i: int| 0 <= i < lo ==> is_space_char(s@[i]),
        decreases len - lo,
    {
        lo = lo + 1;
    }
    let mut hi: usize = len;
    while hi > lo && is_space(s.get_char(hi - 1))
        invariant
            lo <= hi <= len,
            len == s@.len(),
            forall|i: int| 0 <= i < lo ==> is_space_char(s@[i]),
            lo < len ==> !is_space_char(s@[lo as int]),
            forall|i: int| hi <= i < len ==> is_space_char(s@[i]),
        decreases hi,
    {
        hi = hi - 1;
    }
    proof {
        lemma_trim_start_skip(s@, lo as int);
        let t = s@.subrange(lo as int, len as int);
        lemma_trim_end_skip(t, hi - lo);
        assert(t.subrange(0, hi - lo) =~= s@.subrange(lo as int, hi as int));
    }
    s.substring_char(lo, hi)
}

/// Whether `c` occurs in `s`.
pub open spec fn has_char(s: Seq<char>, c: char) -> bool {
    exists|i: int| 0 <= i < s.len() && s[i] == c
}

/// Whether `c` occurs in `s`.
pub fn contains_char(s: &str, c: char) -> (b: bool)
    ensures
        b == has_char(s@, c),
{
    let len = s.unicode_len();
    let mut i: usize = 0;
    while i < len
        invariant
            0 <= i <= len,
            len == s@.len(),
            forall|j: int| 0 <= j < i ==> s@[j] != c,
        decreases len - i,
    {
        if s.get_char(i) == c {
            return true;
        }
        i = i + 1;
    }
    false
}

/// The pieces of `s` between occurrences of `sep`, as Rust's
/// `str::split` yields them: an empty input gives one empty piece, and
/// every separator opens a new piece.
pub open spec fn spec_split(s: Seq<char>, sep: char) -> Seq<Seq<char>>
    decreases s.len(),
{
    if s.len() == 0 {
        seq![Seq::<char>::empty()]
    } else if s[0] == sep {
        seq![Seq::<char>::empty()] + spec_split(s.subrange(1, s.len() as int), sep)
    } else {
        let rest = spec_split(s.subrange(1, s.len() as int), sep);
        seq![seq![s[0]] + rest[0]] + rest.subrange(1, rest.len() as int)
    }
}

pub proof fn lemma_split_len(s: Seq<char>, sep: char)
    ensures
        spec_split(s, sep).len() >= 1,
    decreases s.len(),
{
    if s.len() > 0 {
        lemma_split_len(s.subrange(1, s.len() as int), sep);
    }
}

/// Splitting a separator-free string yields that string alone.
proof fn lemma_split_no_sep(s: Seq<char>, sep: char)
    requires
        !has_char(s, sep),
    ensures
        spec_split(s, sep) =~~= seq![s],
    decreases s.len(),
{
    if s.len() == 0 {
        assert(spec_split(s, sep) =~~= seq![s]);
    }
    if s.len() > 0 {
        let s1 = s.subrange(1, s.len() as int);
        assert(forall|i: int| 0 <= i < s1.len() ==> s1[i] == s[i + 1]);
        lemma_split_no_sep(s1, sep);
        assert(spec_split(s, sep) =~= seq![seq![s[0]] + s1]);
        assert(seq![s[0]] + s1 =~= s);
    }
}

/// Splitting at the first separator: the piece before it, then the
/// split of what follows it.
proof fn lemma_split_at_first(s: Seq<char>, sep: char, k: int)
    requires
        0 <= k < s.len(),
        s[k] == sep,
        forall|i: int| 0 <= i < k ==> s[i] != sep,
    ensures
        spec_split(s, sep) =~= seq![s.subrange(0, k)] + spec_split(
            s.subrange(k + 1, s.len() as int),
            sep,
        ),
    decreases k,
{
    let s1 = s.subrange(1, s.len() as int);
    if k == 0 {
        assert(spec_split(s, sep) =~= seq![Seq::<char>::empty()] + spec_split(s1, sep));
        assert(s.subrange(0, 0) =~= Seq::<char>::empty());
    } else {
        assert(forall|i: int| 0 <= i < s1.len() ==> s1[i] == s[i + 1]);
        lemma_split_at_first(s1, sep, k - 1);
        let rest = spec_split(s1, sep);
        lemma_split_len(s.subrange(k + 1, s.len() as int), sep);
        assert(s1.subrange(k, s1.len() as int) =~= s.subrange(k + 1, s.len() as int));
        assert(rest =~= seq![s1.subrange(0, k - 1)] + spec_split(
            s.subrange(k + 1, s.len() as int),
            sep,
        ));
        assert(seq![s[0]] + rest[0] =~= s.subrange(0, k));
    }
}

/// The views of a vector of strings.
pub open spec fn views_of(v: Seq<String>) -> Seq<Seq<char>> {
    v.map_values(|t: String| t@)
}

/// Splits `s` on every occurrence of `sep`, as Rust's `str::split`.
pub fn split_char(s: &str, sep: char) -> (r: Vec<String>)
    ensures
        views_of(r@) =~= spec_split(s@, sep),
        r@.len() >= 1,
{
    let len = s.unicode_len();
    let mut out: Vec<String> = Vec::new();
    let mut start: usize = 0;
    let mut i: usize = 0;
    proof {
        assert(s@.subrange(0, len as int) =~= s@);
        assert(views_of(out@) + spec_split(s@, sep) =~= spec_split(s@, sep));
    }
    while i < len
        invariant
            0 <= start <= i <= len,
            len == s@.len(),
            forall|j: int| start <= j < i ==> s@[j] != sep,
            spec_split(s@, sep) =~= views_of(out@) + spec_split(
                s@.subrange(start as int, len as int),
                sep,
            ),
        decreases len - i,
    {
        if s.get_char(i) == sep {
            let piece = s.substring_char(start, i).to_owned();
            proof {
                let tail = s@.subrange(start as int, len as int);
                let k = i - start;
                assert(forall|j: int| 0 <= j < tail.len() ==> tail[j] == s@[j + start]);
                lemma_split_at_first(tail, sep, k);
                assert(tail.subrange(0, k) =~= s@.subrange(start as int, i as int));
                assert(tail.subrange(k + 1, tail.len() as int) =~= s@.subrange(
                    i + 1,
                    len as int,
                ));
                assert(views_of(out@.push(piece)) =~= views_of(out@) + seq![piece@]);
            }
            out.push(piece);
            start = i + 1;
        }
        i = i + 1;
    }
    let piece = s.substring_char(start, len).to_owned();
    proof {
        let tail = s@.subrange(start as int, len as int);
        assert(forall|j: int| 0 <= j < tail.len() ==> tail[j] == s@[j + start]);
        lemma_split_no_sep(tail, sep);
        assert(views_of(out@.push(piece)) =~= views_of(out@) + seq![piece@]);
    }
    out.push(piece);
    out
}

/// `pieces` concatenated with `sep` between consecutive pieces.
pub open spec fn spec_join(pieces: Seq<Seq<char>>, sep: Seq<char>) -> Seq<char>
    decreases pieces.len(),
{
    if pieces.len() == 0 {
        Seq::empty()
    } else if pieces.len() == 1 {
        pieces[0]
    } else {
        pieces[0] + sep + spec_join(pieces.subrange(1, pieces.len() as int), sep)
    }
}

/// Joins the strings of `v` with `sep` between consecutive entries.
pub fn join_all(v: &Vec<String>, sep: &str) -> (r: String)
    ensures
        r@ == spec_join(views_of(v@), sep@),
{
    let all = Ghost(views_of(v@));
    let mut out = String::new();
    let mut i: usize = 0;
    proof {
        assert(all@.subrange(0, all@.len() as int) =~= all@);
    }
    while i < v.len()
        invariant
            0 <= i <= v@.len(),
            all@ == views_of(v@),
            spec_join(all@, sep@) == out@ + (if i < all@.len() {
                (if i > 0 {
                    sep@
                } else {
                    Seq::<char>::empty()
                }) + spec_join(all@.subrange(i as int, all@.len() as int), sep@)
            } else {
                Seq::<char>::empty()
            }),
        decreases v@.len() - i,
    {
        let ghost rest = all@.subrange(i as int, all@.len() as int);
        proof {
            assert(rest[0] == all@[i as int]);
            assert(all@[i as int] == v@[i as int]@);
            if rest.len() > 1 {
                assert(rest.subrange(1, rest.len() as int) =~= all@.subrange(
                    i + 1,
                    all@.len() as int,
                ));
            }
        }
        if i > 0 {
            out.append(sep);
        }
        out.append(v[i].as_str());
        i = i + 1;
    }
    out
}

/// Whether two string slices hold the same characters.
pub fn str_eq(a: &str, b: &str) -> (r: bool)
    ensures
        r == (a@ == b@),
{
    let la = a.unicode_len();
    let lb = b.unicode_len();
    if la != lb {
        return false;
    }
    let mut i: usize = 0;
    while i < la
        invariant
            0 <= i <= la,
            la == a@.len() == b@.len(),
            forall|j: int| 0 <= j < i ==> a@[j] == b@[j],
        decreases la - i,
    {
        if a.get_char(i) != b.get_char(i) {
            return false;
        }
        i = i + 1;
    }
    proof {
        assert(a@ =~= b@);
    }
    true
}

/// Whether `c` is a decimal digit.
pub open spec fn is_digit_char(c: char) -> bool {
    0x30 <= c as u32 <= 0x39
}

/// The numeric value of a digit character.
pub open spec fn digit_val(c: char) -> int {
    c as u32 - 0x30
}

/// Whether every character of `s` is a decimal digit.
pub open spec fn all_digits(s: Seq<char>) -> bool {
    forall|i: int| 0 <= i < s.len() ==> is_digit_char(s[i])
}

/// The number written by the digit string `s`, most significant first.
pub open spec fn digits_value(s: Seq<char>) -> int
    decreases s.len(),
{
    if s.len() == 0 {
        0
    } else {
        digits_value(s.subrange(0, s.len() - 1)) * 10 + digit_val(s[s.len() - 1])
    }
}

/// Powers of ten.
pub open spec fn pow10(k: nat) -> int
    decreases k,
{
    if k == 0 {
        1
    } else {
        10 * pow10((k - 1) as nat)
    }
}

/// A digit string of length `k` writes a number below `10^k`.
pub proof fn lemma_digits_value_bound(s: Seq<char>)
    requires
        all_digits(s),
    ensures
        0 <= digits_value(s) < pow10(s.len()),
    decreases s.len(),
{
    if s.len() > 0 {
        let pre = s.subrange(0, s.len() - 1);
        lemma_digits_value_bound(pre);
    }
}

/// Index of the first occurrence of `c` in `s`, or `-1` if absent.
pub open spec fn first_index(s: Seq<char>, c: char) -> int
    decreases s.len(),
{
    if s.len() == 0 {
        -1
    } else if s[0] == c {
        0
    } else {
        let r = first_index(s.subrange(1, s.len() as int), c);
        if r < 0 {
            -1
        } else {
            r + 1
        }
    }
}

pub proof fn lemma_first_index_at(s: Seq<char>, c: char, k: int)
    requires
        0 <= k < s.len(),
        s[k] == c,
        forall|j: int| 0 <= j < k ==> s[j] != c,
    ensures
        first_index(s, c) == k,
    decreases k,
{
    if k > 0 {
        let s1 = s.subrange(1, s.len() as int);
        assert(forall|j: int| 0 <= j < k - 1 ==> s1[j] == s[j + 1]);
        assert(s1[k - 1] == s[k as int]);
        lemma_first_index_at(s1, c, k - 1);
    }
}

pub proof fn lemma_first_index_none(s: Seq<char>, c: char)
    requires
        !has_char(s, c),
    ensures
        first_index(s, c) == -1,
    decreases s.len(),
{
    if s.len() > 0 {
        let s1 = s.subrange(1, s.len() as int);
        assert(forall|j: int| 0 <= j < s1.len() ==> s1[j] == s[j + 1]);
        lemma_first_index_none(s1, c);
    }
}

/// Splits `s` at the first occurrence of `sep`, as Rust's
/// `str::split_once`.
pub fn split_first(s: &str, sep: char) -> (r: Option<(String, String)>)
    ensures
        r is Some <==> has_char(s@, sep),
        r matches Some(pair) ==> {
            let k = first_index(s@, sep);
            &&& 0 <= k < s@.len()
            &&& pair.0@ == s@.subrange(0, k)
            &&& pair.1@ == s@.subrange(k + 1, s@.len() as int)
        },
{
    let len = s.unicode_len();
    let mut i: usize = 0;
    while i < len
        invariant
            0 <= i <= len,
            len == s@.len(),
            forall|j: int| 0 <= j < i ==> s@[j] != sep,
        decreases len - i,
    {
        if s.get_char(i) == sep {
            proof {
                lemma_first_index_at(s@, sep, i as int);
            }
            let left = s.substring_char(0, i).to_owned();
            let right = s.substring_char(i + 1, len).to_owned();
            return Some((left, right));
        }
        i = i + 1;
    }
    None
}

/// Values above this cap are all reported as the cap by
/// [`digits_value_capped`]; large enough that every bound the parsers
/// test against lies below it.
pub const DIGITS_CAP: u64 = 10_000_000_000;

/// Whether the characters of `s` between `from` and `to` are all digits.
pub fn digits_only(s: &str, from: usize, to: usize) -> (b: bool)
    requires
        from <= to <= s@.len(),
    ensures
        b == all_digits(s@.subrange(from as int, to as int)),
{
    let mut i: usize = from;
    while i < to
        invariant
            from <= i <= to <= s@.len(),
            forall|j: int| from <= j < i ==> is_digit_char(s@[j]),
        decreases to - i,
    {
        let x = s.get_char(i) as u32;
        if !(0x30 <= x && x <= 0x39) {
            proof {
                assert(s@.subrange(from as int, to as int)[i - from] == s@[i as int]);
            }
            return false;
        }
        i = i + 1;
    }
    true
}

/// Reads the digits of `s` between `from` and `to` as a number,
/// reporting at most [`DIGITS_CAP`].
pub fn digits_value_capped(s: &str, from: usize, to: usize) -> (v: u64)
    requires
        from <= to <= s@.len(),
        all_digits(s@.subrange(from as int, to as int)),
    ensures
        ({
            let full = digits_value(s@.subrange(from as int, to as int));
            v == if full <= DIGITS_CAP {
                full
            } else {
                DIGITS_CAP as int
            }
        }),
{
    let mut i: usize = from;
    let mut v: u64 = 0;
    while i < to
        invariant
            from <= i <= to <= s@.len(),
            all_digits(s@.subrange(from as int, to as int)),
            ({
                let full = digits_value(s@.subrange(from as int, i as int));
                v == if full <= DIGITS_CAP {
                    full
                } else {
                    DIGITS_CAP as int
                }
            }),
        decreases to - i,
    {
        proof {
            let pre = s@.subrange(from as int, i as int);
            let post = s@.subrange(from as int, i + 1);
            assert(s@.subrange(from as int, to as int)[i - from] == s@[i as int]);
            assert(post.subrange(0, post.len() - 1) =~= pre);
            assert(post[post.len() - 1] == s@[i as int]);
        }
        let x = s.get_char(i) as u32;
        assert(0x30 <= x <= 0x39);
        let d = (x - 0x30) as u64;
        if v >= DIGITS_CAP {
            v = DIGITS_CAP;
        } else {
            v = v * 10 + d;
            if v > DIGITS_CAP {
                v = DIGITS_CAP;
            }
        }
        i = i + 1;
    }
    v
}

/// Relies on `String::push`: appends exactly one character.
#[verifier::external_body]
pub fn push_char(s: &mut String, c: char)
    ensures
        final(s)@ == old(s)@.push(c),
{
    s.push(c);
}

/// The whitespace-separated tokens of `s`, as Rust's
/// `str::split_whitespace` yields them: runs of whitespace separate
/// tokens and never produce empty ones.
pub open spec fn spec_split_ws(s: Seq<char>) -> Seq<Seq<char>>
    decreases s.len(),
{
    if s.len() == 0 {
        Seq::empty()
    } else if is_space_char(s[0]) {
        spec_split_ws(s.subrange(1, s.len() as int))
    } else if s.len() == 1 || is_space_char(s[1]) {
        seq![seq![s[0]]] + spec_split_ws(s.subrange(1, s.len() as int))
    } else {
        let rest = spec_split_ws(s.subrange(1, s.len() as int));
        seq![seq![s[0]] + rest[0]] + rest.subrange(1, rest.len() as int)
    }
}

/// A token of `k` non-space characters at the front, ended by a space
/// or the end of the string, is the first token of the split.
proof fn lemma_split_ws_token(s: Seq<char>, k: int)
    requires
        1 <= k <= s.len(),
        forall|j: int| 0 <= j < k ==> !is_space_char(s[j]),
        k < s.len() ==> is_space_char(s[k]),
    ensures
        spec_split_ws(s) =~~= seq![s.subrange(0, k)] + spec_split_ws(
            s.subrange(k, s.len() as int),
        ),
    decreases k,
{
    let s1 = s.subrange(1, s.len() as int);
    assert(forall|j: int| 0 <= j < s1.len() ==> s1[j] == s[j + 1]);
    if k == 1 {
        assert(s.subrange(0, 1) =~= seq![s[0]]);
        assert(s1 =~= s.subrange(1, s.len() as int));
    } else {
        lemma_split_ws_token(s1, k - 1);
        let rest = spec_split_ws(s1);
        assert(s1.subrange(0, k - 1) =~= s.subrange(1, k));
        assert(s1.subrange(k - 1, s1.len() as int) =~= s.subrange(k, s.len() as int));
        assert(rest[0] == s.subrange(1, k));
        assert(seq![s[0]] + s.subrange(1, k) =~= s.subrange(0, k));
        assert(rest.subrange(1, rest.len() as int) =~= spec_split_ws(
            s.subrange(k, s.len() as int),
        ));
    }
}

/// Splits `s` on runs of whitespace, as Rust's `str::split_whitespace`.
pub fn split_ws(s: &str) -> (r: Vec<String>)
    ensures
        views_of(r@) == spec_split_ws(s@),
{
    let len = s.unicode_len();
    let mut out: Vec<String> = Vec::new();
    let mut i: usize = 0;
    proof {
        assert(s@.subrange(0, len as int) =~= s@);
        assert(views_of(out@) + spec_split_ws(s@) =~= spec_split_ws(s@));
    }
    while i < len
        invariant
            0 <= i <= len,
            len == s@.len(),
            spec_split_ws(s@) == views_of(out@) + spec_split_ws(s@.subrange(i as int, len as int)),
        decreases len - i,
    {
        let ghost tail = s@.subrange(i as int, len as int);
        if is_space(s.get_char(i)) {
            proof {
                assert(tail[0] == s@[i as int]);
                assert(tail.subrange(1, tail.len() as int) =~= s@.subrange(i + 1, len as int));
            }
            i = i + 1;
        } else {
            let start = i;
            let mut j = i + 1;
            while j < len && !is_space(s.get_char(j))
                invariant
                    start < j <= len,
                    len == s@.len(),
                    forall|q: int| start <= q < j ==> !is_space_char(s@[q]),
                decreases len - j,
            {
                j = j + 1;
            }
            proof {
                assert(forall|q: int| 0 <= q < tail.len() ==> tail[q] == s@[q + i]);
                lemma_split_ws_token(tail, j - i);
                assert(tail.subrange(0, j - i) =~= s@.subrange(start as int, j as int));
                assert(tail.subrange(j - i, tail.len() as int) =~= s@.subrange(
                    j as int,
                    len as int,
                ));
            }
            let token = s.substring_char(start, j).to_owned();
            proof {
                assert(views_of(out@.push(token)) =~= views_of(out@) + seq![token@]);
                assert((views_of(out@) + seq![token@]) + spec_split_ws(
                    s@.subrange(j as int, len as int),
                ) =~= views_of(out@) + (seq![token@] + spec_split_ws(
                    s@.subrange(j as int, len as int),
                )));
            }
            out.push(token);
            i = j;
        }
    }
    proof {
        assert(s@.subrange(i as int, len as int) =~= Seq::<char>::empty());
        assert(views_of(out@) + Seq::<Seq<char>>::empty() =~= views_of(out@));
    }
    out
}

/// `s` with every trailing occurrence of `c` removed.
pub open spec fn strip_trailing(s: Seq<char>, c: char) -> Seq<char>
    decreases s.len(),
{
    if s.len() > 0 && s[s.len() - 1] == c {
        strip_trailing(s.subrange(0, s.len() - 1), c)
    } else {
        s
    }
}

/// Cutting the trailing run of `c` is all that `strip_trailing` does.
pub proof fn lemma_strip_trailing_skip(s: Seq<char>, c: char, k: int)
    requires
        0 <= k <= s.len(),
        forall|i: int| k <= i < s.len() ==> s[i] == c,
        k > 0 ==> s[k - 1] != c,
    ensures
        strip_trailing(s, c) == s.subrange(0, k),
    decreases s.len() - k,
{
    if k == s.len() {
        assert(!(s.len() > 0 && s[s.len() - 1] == c));
        assert(s.subrange(0, k) =~= s);
    } else {
        let s1 = s.subrange(0, s.len() - 1);
        lemma_strip_trailing_skip(s1, c, k);
        assert(s1.subrange(0, k) =~= s.subrange(0, k));
    }
}

/// `s` with every leading occurrence of `c` removed.
pub open spec fn strip_leading(s: Seq<char>, c: char) -> Seq<char>
    decreases s.len(),
{
    if s.len() > 0 && s[0] == c {
        strip_leading(s.subrange(1, s.len() as int), c)
    } else {
        s
    }
}

/// Removes every trailing occurrence of `c`, as Rust's
/// `str::trim_end_matches` with a single-character pattern.
pub fn strip_trailing_str<'a>(s: &'a str, c: char) -> (r: &'a str)
    ensures
        r@ == strip_trailing(s@, c),
    decreases s@.len(),
{
    let l = s.unicode_len();
    if l > 0 && s.get_char(l - 1) == c {
        strip_trailing_str(s.substring_char(0, l - 1), c)
    } else {
        s
    }
}

/// Removes every leading occurrence of `c`, as Rust's
/// `str::trim_start_matches` with a single-character pattern.
pub fn strip_leading_str<'a>(s: &'a str, c: char) -> (r: &'a str)
    ensures
        r@ == strip_leading(s@, c),
    decreases s@.len(),
{
    let l = s.unicode_len();
    if l > 0 && s.get_char(0) == c {
        strip_leading_str(s.substring_char(1, l), c)
    } else {
        s
    }
}

/// Whether every character of `p` is a decimal digit.
pub fn str_all_digits(p: &str) -> (b: bool)
    ensures
        b == all_digits(p@),
{
    proof {
        assert(p@.subrange(0, p@.len() as int) =~= p@);
    }
    let l = p.unicode_len();
    digits_only(p, 0, l)
}

/// The number `p` writes, reported as at most [`DIGITS_CAP`].
pub fn str_digits_value(p: &str) -> (v: u64)
    requires
        all_digits(p@),
    ensures
        v == if digits_value(p@) <= DIGITS_CAP {
            digits_value(p@)
        } else {
            DIGITS_CAP as int
        },
{
    proof {
        assert(p@.subrange(0, p@.len() as int) =~= p@);
    }
    let l = p.unicode_len();
    digits_value_capped(p, 0, l)
}

/// The digit character for a value below ten.
pub open spec fn digit_char(d: int) -> char {
    if d == 0 {
        '0'
    } else if d == 1 {
        '1'
    } else if d == 2 {
        '2'
    } else if d == 3 {
        '3'
    } else if d == 4 {
        '4'
    } else if d == 5 {
        '5'
    } else if d == 6 {
        '6'
    } else if d == 7 {
        '7'
    } else if d == 8 {
        '8'
    } else {
        '9'
    }
}

/// The decimal digits of a non-negative number, most significant
/// first.
pub open spec fn dec_str(n: int) -> Seq<char>
    decreases n,
{
    if n < 10 {
        seq![digit_char(n)]
    } else {
        dec_str(n / 10).push(digit_char(n % 10))
    }
}

/// Renders a number in decimal.
pub fn u64_str(n: u64) -> (s: String)
    ensures
        s@ == dec_str(n as int),
    decreases n,
{
    if n < 10 {
        let mut s = String::new();
        push_char(&mut s, digit_of(n));
        proof {
            assert(s@ =~= dec_str(n as int));
        }
        s
    } else {
        let mut s = u64_str(n / 10);
        push_char(&mut s, digit_of(n % 10));
        s
    }
}

/// The digit character for a value below ten.
pub fn digit_of(d: u64) -> (c: char)
    requires
        d < 10,
    ensures
        c == digit_char(d as int),
{
    if d == 0 {
        '0'
    } else if d == 1 {
        '1'
    } else if d == 2 {
        '2'
    } else if d == 3 {
        '3'
    } else if d == 4 {
        '4'
    } else if d == 5 {
        '5'
    } else if d == 6 {
        '6'
    } else if d == 7 {
        '7'
    } else if d == 8 {
        '8'
    } else {
        '9'
    }
}


} // verus!
