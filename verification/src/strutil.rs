//! Character-level string utilities: trimming, splitting, substring search
//! and comment stripping, with exact functional specifications.

use vstd::prelude::*;

verus! {

/// Whitespace recognized when trimming configuration text.
pub open spec fn is_wspace(c: char) -> bool {
    c == ' ' || c == '\t' || c == '\r' || c == '\n'
}

/// `s` with leading whitespace removed.
pub open spec fn spec_trim_front(s: Seq<char>) -> Seq<char>
    decreases s.len(),
{
    if s.len() > 0 && is_wspace(s[0]) {
        spec_trim_front(s.drop_first())
    } else {
        s
    }
}

/// `s` with trailing whitespace removed.
pub open spec fn spec_trim_back(s: Seq<char>) -> Seq<char>
    decreases s.len(),
{
    if s.len() > 0 && is_wspace(s[s.len() - 1]) {
        spec_trim_back(s.drop_last())
    } else {
        s
    }
}

/// `s` with whitespace removed from both ends.
pub open spec fn spec_trim(s: Seq<char>) -> Seq<char> {
    spec_trim_back(spec_trim_front(s))
}

proof fn lemma_trim_front_at(s: Seq<char>, i: int)
    requires
        0 <= i <= s.len(),
        forall|k: int| 0 <= k < i ==> is_wspace(s[k]),
        i < s.len() ==> !is_wspace(s[i]),
    ensures
        spec_trim_front(s) == s.subrange(i, s.len() as int),
    decreases i,
{
    if i == 0 {
        if s.len() > 0 && is_wspace(s[0]) {
            assert(false);
        }
        assert(s.subrange(0, s.len() as int) =~= s);
    } else {
        assert(is_wspace(s[0]));
        let t = s.drop_first();
        assert(forall|k: int| 0 <= k < i - 1 ==> is_wspace(t[k]));
        lemma_trim_front_at(t, i - 1);
        assert(t.subrange(i - 1, t.len() as int) =~= s.subrange(i, s.len() as int));
    }
}

proof fn lemma_trim_back_at(s: Seq<char>, j: int)
    requires
        0 <= j <= s.len(),
        forall|k: int| j <= k < s.len() ==> is_wspace(s[k]),
        j > 0 ==> !is_wspace(s[j - 1]),
    ensures
        spec_trim_back(s) == s.subrange(0, j),
    decreases s.len() - j,
{
    if j == s.len() {
        if s.len() > 0 && is_wspace(s[s.len() - 1]) {
            assert(false);
        }
        assert(s.subrange(0, s.len() as int) =~= s);
    } else {
        assert(is_wspace(s[s.len() - 1]));
        let t = s.drop_last();
        lemma_trim_back_at(t, j);
        assert(t.subrange(0, j) =~= s.subrange(0, j));
    }
}

/// Copy `v[i..j]` into a fresh vector.
pub fn slice_range(v: &[char], i: usize, j: usize) -> (r: Vec<char>)
    requires
        i <= j <= v@.len(),
    ensures
        r@ == v@.subrange(i as int, j as int),
{
    let mut r: Vec<char> = Vec::new();
    let mut k: usize = i;
    while k < j
        invariant
            i <= k <= j <= v@.len(),
            r@ == v@.subrange(i as int, k as int),
        decreases j - k,
    {
        r.push(v[k]);
        assert(v@.subrange(i as int, k + 1) =~= v@.subrange(i as int, k as int).push(v@[k as int]));
        k += 1;
    }
    r
}

/// Copy `v[i..j]` of a byte slice into a fresh vector.
pub fn slice_u8_range(v: &[u8], i: usize, j: usize) -> (r: Vec<u8>)
    requires
        i <= j <= v@.len(),
    ensures
        r@ == v@.subrange(i as int, j as int),
{
    let mut r: Vec<u8> = Vec::new();
    let mut k: usize = i;
    while k < j
        invariant
            i <= k <= j <= v@.len(),
            r@ == v@.subrange(i as int, k as int),
        decreases j - k,
    {
        r.push(v[k]);
        assert(v@.subrange(i as int, k + 1) =~= v@.subrange(i as int, k as int).push(v@[k as int]));
        k += 1;
    }
    r
}

/// Whether `c` is trimmed as whitespace.
pub fn is_wspace_char(c: char) -> (r: bool)
    ensures
        r == is_wspace(c),
{
    c == ' ' || c == '\t' || c == '\r' || c == '\n'
}

/// Remove whitespace from both ends of `v`.
pub fn trim_chars(v: &[char]) -> (r: Vec<char>)
    ensures
        r@ == spec_trim(v@),
{
    let n = v.len();
    let mut i: usize = 0;
    while i < n && is_wspace_char(v[i])
        invariant
            0 <= i <= n,
            n == v@.len(),
            forall|k: int| 0 <= k < i ==> is_wspace(v@[k]),
        decreases n - i,
    {
        i += 1;
    }
    proof {
        lemma_trim_front_at(v@, i as int);
    }
    let ghost f = v@.subrange(i as int, n as int);
    let mut j: usize = n;
    while j > i && is_wspace_char(v[j - 1])
        invariant
            i <= j <= n,
            n == v@.len(),
            forall|k: int| j <= k < n ==> is_wspace(v@[k]),
        decreases j,
    {
        j -= 1;
    }
    proof {
        assert(forall|k: int| j - i <= k < f.len() ==> is_wspace(f[k]));
        lemma_trim_back_at(f, j - i);
        assert(f.subrange(0, j - i) =~= v@.subrange(i as int, j as int));
    }
    slice_range(v, i, j)
}

/// Index of the first occurrence of `sep` in `s`; `s.len()` if absent.
pub open spec fn first_idx(s: Seq<char>, sep: char) -> int
    decreases s.len(),
{
    if s.len() == 0 {
        0
    } else if s[0] == sep {
        0
    } else {
        1 + first_idx(s.drop_first(), sep)
    }
}

pub proof fn lemma_first_idx_is(s: Seq<char>, sep: char, i: int)
    requires
        0 <= i <= s.len(),
        forall|k: int| 0 <= k < i ==> s[k] != sep,
        i < s.len() ==> s[i] == sep,
    ensures
        first_idx(s, sep) == i,
    decreases i,
{
    if s.len() == 0 {
    } else if i == 0 {
    } else {
        assert(s[0] != sep);
        let t = s.drop_first();
        assert(forall|k: int| 0 <= k < i - 1 ==> t[k] != sep);
        lemma_first_idx_is(t, sep, i - 1);
    }
}

/// `s` split on `sep`; the separators are not kept.
pub open spec fn spec_split(s: Seq<char>, sep: char) -> Seq<Seq<char>>
    decreases s.len(),
{
    let i = first_idx(s, sep);
    if 0 <= i < s.len() {
        seq![s.subrange(0, i)] + spec_split(s.subrange(i + 1, s.len() as int), sep)
    } else {
        seq![s]
    }
}

/// Split `v` on `sep`.
pub fn split_char(v: &[char], sep: char) -> (r: Vec<Vec<char>>)
    ensures
        r@.map_values(|e: Vec<char>| e@) == spec_split(v@, sep),
{
    let mut r: Vec<Vec<char>> = Vec::new();
    let mut start: usize = 0;
    let mut i: usize = 0;
    let n = v.len();
    proof {
        assert(v@.subrange(0, n as int) =~= v@);
        assert(r@.map_values(|e: Vec<char>| e@) =~= Seq::<Seq<char>>::empty());
    }
    while i < n
        invariant
            0 <= start <= i <= n,
            n == v@.len(),
            forall|k: int| start <= k < i ==> v@[k] != sep,
            spec_split(v@, sep) == r@.map_values(|e: Vec<char>| e@) + spec_split(
                v@.subrange(start as int, n as int),
                sep,
            ),
        decreases n - i,
    {
        if v[i] == sep {
            let piece = slice_range(v, start, i);
            proof {
                let rest = v@.subrange(start as int, n as int);
                assert(forall|k: int|
                    0 <= k < i - start ==> rest[k] == v@[start + k] && rest[k] != sep);
                assert(rest[i - start] == sep);
                lemma_first_idx_is(rest, sep, i - start);
                assert(rest.subrange(0, i - start) =~= v@.subrange(start as int, i as int));
                assert(rest.subrange(i - start + 1, rest.len() as int) =~= v@.subrange(
                    i + 1,
                    n as int,
                ));
                let old_r = r@.map_values(|e: Vec<char>| e@);
                assert(spec_split(rest, sep) == seq![piece@] + spec_split(
                    v@.subrange(i + 1, n as int),
                    sep,
                ));
                assert(r@.push(piece).map_values(|e: Vec<char>| e@) =~= old_r.push(piece@));
                assert(old_r + (seq![piece@] + spec_split(v@.subrange(i + 1, n as int), sep))
                    =~= old_r.push(piece@) + spec_split(v@.subrange(i + 1, n as int), sep));
            }
            r.push(piece);
            start = i + 1;
        }
        i += 1;
    }
    proof {
        let rest = v@.subrange(start as int, n as int);
        assert(forall|k: int| 0 <= k < rest.len() ==> rest[k] == v@[start + k] && rest[k] != sep);
        lemma_first_idx_is(rest, sep, rest.len() as int);
        assert(spec_split(rest, sep) == seq![rest]);
    }
    let last = slice_range(v, start, n);
    proof {
        let old_r = r@.map_values(|e: Vec<char>| e@);
        assert(r@.push(last).map_values(|e: Vec<char>| e@) =~= old_r.push(last@));
        assert(old_r + seq![last@] =~= old_r.push(last@));
    }
    r.push(last);
    r
}

/// Whether `n` occurs as a contiguous substring of `h`.
pub open spec fn spec_contains(h: Seq<char>, n: Seq<char>) -> bool {
    exists|i: int| 0 <= i && i + n.len() <= h.len() && #[trigger] h.subrange(i, i + n.len()) == n
}

fn matches_at(h: &[char], n: &[char], i: usize) -> (r: bool)
    requires
        i + n@.len() <= h@.len(),
    ensures
        r == (h@.subrange(i as int, i + n@.len()) == n@),
{
    let m = n.len();
    let hn = h.len();
    let mut j: usize = 0;
    while j < m
        invariant
            0 <= j <= m,
            m == n@.len(),
            hn == h@.len(),
            i + m <= hn,
            forall|k: int| 0 <= k < j ==> h@[i + k] == n@[k],
        decreases m - j,
    {
        if h[i + j] != n[j] {
            proof {
                assert(h@.subrange(i as int, i + n@.len())[j as int] == h@[i + j]);
            }
            return false;
        }
        j += 1;
    }
    proof {
        assert(h@.subrange(i as int, i + n@.len()) =~= n@);
    }
    true
}

/// Substring search: does `h` contain `n`?
pub fn contains_sub(h: &[char], n: &[char]) -> (r: bool)
    ensures
        r == spec_contains(h@, n@),
{
    let hl = h.len();
    let nl = n.len();
    if nl > hl {
        return false;
    }
    if nl == 0 {
        proof {
            assert(h@.subrange(0, 0 + n@.len() as int) =~= n@);
        }
        return true;
    }
    let mut i: usize = 0;
    while i <= hl - nl
        invariant
            1 <= nl <= hl,
            hl == h@.len(),
            nl == n@.len(),
            0 <= i <= hl - nl + 1,
            forall|k: int| 0 <= k < i ==> #[trigger] h@.subrange(k, k + n@.len()) != n@,
        decreases hl - nl - i + 1,
    {
        if matches_at(h, n, i) {
            return true;
        }
        i += 1;
    }
    false
}

/// Index of the first `sep` in `v`, if any.
pub fn find_char(v: &[char], sep: char) -> (r: Option<usize>)
    ensures
        match r {
            Some(i) => 0 <= i < v@.len() && v@[i as int] == sep && forall|k: int|
                0 <= k < i ==> v@[k] != sep,
            None => forall|k: int| 0 <= k < v@.len() ==> v@[k] != sep,
        },
{
    let n = v.len();
    let mut i: usize = 0;
    while i < n
        invariant
            0 <= i <= n,
            n == v@.len(),
            forall|k: int| 0 <= k < i ==> v@[k] != sep,
        decreases n - i,
    {
        if v[i] == sep {
            return Some(i);
        }
        i += 1;
    }
    None
}

/// Equality of two character slices.
pub fn eq_chars(a: &[char], b: &[char]) -> (r: bool)
    ensures
        r == (a@ == b@),
{
    if a.len() != b.len() {
        return false;
    }
    let n = a.len();
    let mut i: usize = 0;
    while i < n
        invariant
            0 <= i <= n,
            n == a@.len(),
            n == b@.len(),
            forall|k: int| 0 <= k < i ==> a@[k] == b@[k],
        decreases n - i,
    {
        if a[i] != b[i] {
            return false;
        }
        i += 1;
    }
    proof {
        assert(a@ =~= b@);
    }
    true
}

/// The characters of `s`, in order.
pub fn chars_vec(s: &str) -> (r: Vec<char>)
    ensures
        r@ == s@,
{
    let n = s.unicode_len();
    let mut r: Vec<char> = Vec::new();
    let mut i: usize = 0;
    while i < n
        invariant
            0 <= i <= n,
            n == s@.len(),
            r@ == s@.subrange(0, i as int),
        decreases n - i,
    {
        let c = s.get_char(i);
        r.push(c);
        proof {
            assert(s@.subrange(0, i + 1) =~= s@.subrange(0, i as int).push(s@[i as int]));
        }
        i += 1;
    }
    proof {
        assert(s@.subrange(0, n as int) =~= s@);
    }
    r
}

/// Equality of two string slices, by their characters.
pub fn str_eq(a: &str, b: &str) -> (r: bool)
    ensures
        r == (a@ == b@),
{
    let av = chars_vec(a);
    let bv = chars_vec(b);
    eq_chars(av.as_slice(), bv.as_slice())
}

/// Relies on std's `FromIterator` for `String`: collecting characters
/// concatenates them in order.
#[verifier::external_body]
pub fn string_from_chars(v: &[char]) -> (r: String)
    ensures
        r@ == v@,
{
    v.iter().collect()
}

} // verus!
