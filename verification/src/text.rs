//! Character-level helpers over `Vec<char>` windows: whitespace, trimming,
//! searching and comparing against string literals.
use vstd::prelude::*;

verus! {

/// The Unicode `White_Space` property, the notion of whitespace that
/// `char::is_whitespace` and `str::trim` use.
pub open spec fn is_white_space(c: char) -> bool {
    let u = c as u32;
    ||| 0x09 <= u <= 0x0D
    ||| u == 0x20
    ||| u == 0x85
    ||| u == 0xA0
    ||| u == 0x1680
    ||| 0x2000 <= u <= 0x200A
    ||| u == 0x2028
    ||| u == 0x2029
    ||| u == 0x202F
    ||| u == 0x205F
    ||| u == 0x3000
}

/// Index of the first non-whitespace character at or after `i` (or `s.len()`).
pub open spec fn skip_white_from(s: Seq<char>, i: int) -> int
    decreases s.len() - i,
{
    if 0 <= i < s.len() && is_white_space(s[i]) {
        skip_white_from(s, i + 1)
    } else {
        i
    }
}

/// One past the last non-whitespace character before `j` (or `0`).
pub open spec fn skip_white_back(s: Seq<char>, j: int) -> int
    decreases j,
{
    if 0 < j <= s.len() && is_white_space(s[j - 1]) {
        skip_white_back(s, j - 1)
    } else {
        j
    }
}

/// `s` without its leading and trailing whitespace.
pub open spec fn trim(s: Seq<char>) -> Seq<char> {
    let a = skip_white_from(s, 0);
    let b = skip_white_back(s, s.len() as int);
    if a < b {
        s.subrange(a, b)
    } else {
        Seq::empty()
    }
}

/// Position of the first `c` in `s` at or after `i`, or `-1`.
pub open spec fn index_from(s: Seq<char>, c: char, i: int) -> int
    decreases s.len() - i,
{
    if i < 0 || i >= s.len() {
        -1
    } else if s[i] == c {
        i
    } else {
        index_from(s, c, i + 1)
    }
}

/// Position of the first `c` in `s`, or `-1`.
pub open spec fn index_of(s: Seq<char>, c: char) -> int {
    index_from(s, c, 0)
}

/// The text before and after the first `c`, if `s` holds one.
pub open spec fn split_once(s: Seq<char>, c: char) -> Option<(Seq<char>, Seq<char>)> {
    let i = index_of(s, c);
    if i < 0 {
        None
    } else {
        Some((s.subrange(0, i), s.subrange(i + 1, s.len() as int)))
    }
}

pub open spec fn starts_with(s: Seq<char>, p: Seq<char>) -> bool {
    p.len() <= s.len() && s.subrange(0, p.len() as int) == p
}

pub proof fn lemma_skip_white_back_le(s: Seq<char>, j: int)
    ensures
        skip_white_back(s, j) <= j,
        0 <= j ==> 0 <= skip_white_back(s, j),
    decreases j,
{
    if 0 < j <= s.len() && is_white_space(s[j - 1]) {
        lemma_skip_white_back_le(s, j - 1);
    }
}

pub proof fn lemma_index_from_bounds(s: Seq<char>, c: char, i: int)
    ensures
        index_from(s, c, i) == -1 || (i <= index_from(s, c, i) < s.len() && s[index_from(
            s,
            c,
            i,
        )] == c),
        0 <= i ==> forall|k: int| i <= k < s.len() && (index_from(s, c, i) == -1 || k < index_from(s, c, i)) ==> s[k] != c,
    decreases s.len() - i,
{
    if 0 <= i < s.len() && s[i] != c {
        lemma_index_from_bounds(s, c, i + 1);
    }
}

/// Whether `c` has the Unicode `White_Space` property.
pub fn is_whitespace(c: char) -> (r: bool)
    ensures
        r == is_white_space(c),
{
    let u = c as u32;
    (0x09 <= u && u <= 0x0D) || u == 0x20 || u == 0x85 || u == 0xA0 || u == 0x1680 || (0x2000
        <= u && u <= 0x200A) || u == 0x2028 || u == 0x2029 || u == 0x202F || u == 0x205F || u
        == 0x3000
}

/// Bounds of the trimmed part of the window `text[lo..hi]`.
pub fn trim_bounds(text: &Vec<char>, lo: usize, hi: usize) -> (r: (usize, usize))
    requires
        lo <= hi <= text.len(),
    ensures
        lo <= r.0 <= r.1 <= hi,
        text@.subrange(r.0 as int, r.1 as int) == trim(text@.subrange(lo as int, hi as int)),
{
    let ghost s = text@.subrange(lo as int, hi as int);
    let mut a = lo;
    while a < hi && is_whitespace(text[a])
        invariant
            lo <= a <= hi <= text.len(),
            s == text@.subrange(lo as int, hi as int),
            skip_white_from(s, 0) == skip_white_from(s, a - lo),
        decreases hi - a,
    {
        a = a + 1;
    }
    assert(skip_white_from(s, 0) == a - lo);
    let mut b = hi;
    while b > a && is_whitespace(text[b - 1])
        invariant
            lo <= a <= b <= hi <= text.len(),
            s == text@.subrange(lo as int, hi as int),
            skip_white_back(s, s.len() as int) == skip_white_back(s, b - lo),
        decreases b,
    {
        b = b - 1;
    }
    proof {
        lemma_skip_white_back_le(s, b - lo);
        if b > a {
            assert(skip_white_back(s, s.len() as int) == b - lo);
            assert(text@.subrange(a as int, b as int) =~= s.subrange(a - lo, b - lo));
        } else {
            assert(text@.subrange(a as int, b as int) =~= Seq::<char>::empty());
        }
    }
    (a, b)
}

/// Position of the first `c` in the window `text[lo..hi]`.
pub fn find_char(text: &Vec<char>, lo: usize, hi: usize, c: char) -> (r: Option<usize>)
    requires
        lo <= hi <= text.len(),
    ensures
        ({
            let i = index_of(text@.subrange(lo as int, hi as int), c);
            match r {
                Some(k) => i >= 0 && k == lo + i,
                None => i < 0,
            }
        }),
{
    let ghost s = text@.subrange(lo as int, hi as int);
    let mut k = lo;
    while k < hi
        invariant
            lo <= k <= hi <= text.len(),
            s == text@.subrange(lo as int, hi as int),
            index_of(s, c) == index_from(s, c, k - lo),
        decreases hi - k,
    {
        if text[k] == c {
            return Some(k);
        }
        k = k + 1;
    }
    None
}

/// Position of the first `c` in `text` at or after `pos`.
pub fn find_char_from(text: &Vec<char>, pos: usize, c: char) -> (r: Option<usize>)
    requires
        pos <= text.len(),
    ensures
        match r {
            Some(k) => k == index_from(text@, c, pos as int) && k < text.len(),
            None => index_from(text@, c, pos as int) == -1,
        },
{
    let mut k = pos;
    while k < text.len()
        invariant
            pos <= k <= text.len(),
            index_from(text@, c, pos as int) == index_from(text@, c, k as int),
        decreases text.len() - k,
    {
        if text[k] == c {
            return Some(k);
        }
        k = k + 1;
    }
    None
}

/// Whether the window `text[lo..hi]` begins with the characters of `p`.
pub fn window_starts_with(text: &Vec<char>, lo: usize, hi: usize, p: &str) -> (r: bool)
    requires
        lo <= hi <= text.len(),
    ensures
        r == starts_with(text@.subrange(lo as int, hi as int), p@),
{
    let ghost s = text@.subrange(lo as int, hi as int);
    let n = p.unicode_len();
    if n > hi - lo {
        return false;
    }
    let mut k: usize = 0;
    while k < n
        invariant
            k <= n == p@.len(),
            n <= hi - lo,
            lo <= hi <= text.len(),
            s == text@.subrange(lo as int, hi as int),
            forall|m: int| 0 <= m < k ==> s[m] == p@[m],
        decreases n - k,
    {
        if text[lo + k] != p.get_char(k) {
            return false;
        }
        k = k + 1;
    }
    assert(s.subrange(0, p@.len() as int) =~= p@);
    true
}

/// Whether the window `text[lo..hi]` consists exactly of the characters of `p`.
pub fn window_equals(text: &Vec<char>, lo: usize, hi: usize, p: &str) -> (r: bool)
    requires
        lo <= hi <= text.len(),
    ensures
        r == (text@.subrange(lo as int, hi as int) == p@),
{
    let ghost s = text@.subrange(lo as int, hi as int);
    if p.unicode_len() != hi - lo {
        return false;
    }
    let r = window_starts_with(text, lo, hi, p);
    assert(s.subrange(0, s.len() as int) =~= s);
    r
}

/// A copy of the window `text[lo..hi]`.
pub fn copy_window(text: &Vec<char>, lo: usize, hi: usize) -> (r: Vec<char>)
    requires
        lo <= hi <= text.len(),
    ensures
        r@ == text@.subrange(lo as int, hi as int),
{
    let mut r: Vec<char> = Vec::new();
    let mut k = lo;
    while k < hi
        invariant
            lo <= k <= hi <= text.len(),
            r@ == text@.subrange(lo as int, k as int),
        decreases hi - k,
    {
        r.push(text[k]);
        assert(r@ =~= text@.subrange(lo as int, k + 1));
        k = k + 1;
    }
    r
}

/// The first `c` in `s` is at `i` when `s[i] == c` and no earlier character is `c`.
pub proof fn lemma_index_of_at(s: Seq<char>, c: char, i: int)
    requires
        0 <= i < s.len(),
        s[i] == c,
        forall|k: int| 0 <= k < i ==> s[k] != c,
    ensures
        index_of(s, c) == i,
{
    lemma_index_from_upto(s, c, i, 0);
}

proof fn lemma_index_from_upto(s: Seq<char>, c: char, i: int, j: int)
    requires
        0 <= j <= i < s.len(),
        s[i] == c,
        forall|k: int| 0 <= k < i ==> s[k] != c,
    ensures
        index_from(s, c, j) == i,
    decreases i - j,
{
    if j < i {
        lemma_index_from_upto(s, c, i, j + 1);
    }
}

/// A text without `c` has no first `c`.
pub proof fn lemma_index_of_none(s: Seq<char>, c: char)
    requires
        forall|k: int| 0 <= k < s.len() ==> s[k] != c,
    ensures
        index_of(s, c) == -1,
{
    lemma_index_from_none(s, c, 0);
}

proof fn lemma_index_from_none(s: Seq<char>, c: char, j: int)
    requires
        0 <= j,
        forall|k: int| 0 <= k < s.len() ==> s[k] != c,
    ensures
        index_from(s, c, j) == -1,
    decreases s.len() - j,
{
    if j < s.len() {
        lemma_index_from_none(s, c, j + 1);
    }
}

proof fn lemma_skip_from_shape(s: Seq<char>, i: int)
    requires
        0 <= i <= s.len(),
    ensures
        i <= skip_white_from(s, i) <= s.len(),
        forall|k: int| i <= k < skip_white_from(s, i) ==> is_white_space(#[trigger] s[k]),
        skip_white_from(s, i) < s.len() ==> !is_white_space(s[skip_white_from(s, i)]),
    decreases s.len() - i,
{
    if i < s.len() && is_white_space(s[i]) {
        lemma_skip_from_shape(s, i + 1);
    }
}

proof fn lemma_skip_back_shape(s: Seq<char>, j: int)
    requires
        0 <= j <= s.len(),
    ensures
        0 <= skip_white_back(s, j) <= j,
        forall|k: int| skip_white_back(s, j) <= k < j ==> is_white_space(#[trigger] s[k]),
        0 < skip_white_back(s, j) ==> !is_white_space(s[skip_white_back(s, j) - 1]),
    decreases j,
{
    if 0 < j && is_white_space(s[j - 1]) {
        lemma_skip_back_shape(s, j - 1);
    }
}

proof fn lemma_skip_from_is(s: Seq<char>, i: int, p: int)
    requires
        0 <= i <= p <= s.len(),
        forall|k: int| i <= k < p ==> is_white_space(#[trigger] s[k]),
        p == s.len() || !is_white_space(s[p]),
    ensures
        skip_white_from(s, i) == p,
    decreases p - i,
{
    if i < p {
        lemma_skip_from_is(s, i + 1, p);
    }
}

proof fn lemma_skip_back_is(s: Seq<char>, j: int, q: int)
    requires
        0 <= q <= j <= s.len(),
        forall|k: int| q <= k < j ==> is_white_space(#[trigger] s[k]),
        q == 0 || !is_white_space(s[q - 1]),
    ensures
        skip_white_back(s, j) == q,
    decreases j - q,
{
    if q < j {
        lemma_skip_back_is(s, j - 1, q);
    }
}

/// `trim(s)` is `s[p..q]`, where only whitespace stands before `p` and from
/// `q` on; when `p < q` the characters at both ends are not whitespace, and
/// when `p == q` all of `s` is whitespace.
pub proof fn lemma_trim_shape(s: Seq<char>) -> (r: (int, int))
    ensures
        0 <= r.0 <= r.1 <= s.len(),
        trim(s) == s.subrange(r.0, r.1),
        forall|k: int| 0 <= k < r.0 ==> is_white_space(#[trigger] s[k]),
        forall|k: int| r.1 <= k < s.len() ==> is_white_space(#[trigger] s[k]),
        r.0 < r.1 ==> !is_white_space(s[r.0]) && !is_white_space(s[r.1 - 1]),
{
    lemma_skip_from_shape(s, 0);
    lemma_skip_back_shape(s, s.len() as int);
    let p = skip_white_from(s, 0);
    let q = skip_white_back(s, s.len() as int);
    if p < q {
        (p, q)
    } else {
        if p < s.len() {
            assert(is_white_space(s[p]));
        }
        assert(trim(s) =~= s.subrange(s.len() as int, s.len() as int));
        (s.len() as int, s.len() as int)
    }
}

/// `trim(s)` is `s[p..q]` when only whitespace stands outside `p..q` and the
/// characters at its ends are not whitespace.
pub proof fn lemma_trim_is(s: Seq<char>, p: int, q: int)
    requires
        0 <= p < q <= s.len(),
        forall|k: int| 0 <= k < p ==> is_white_space(#[trigger] s[k]),
        forall|k: int| q <= k < s.len() ==> is_white_space(#[trigger] s[k]),
        !is_white_space(s[p]),
        !is_white_space(s[q - 1]),
    ensures
        trim(s) == s.subrange(p, q),
{
    lemma_skip_from_is(s, 0, p);
    lemma_skip_back_is(s, s.len() as int, q);
}

} // verus!
