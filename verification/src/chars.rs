//! Character classification and conversion between strings and character
//! vectors, the representation the scoping engine works on.

use vstd::prelude::*;
use vstd::string::StrSliceExecFns;

verus! {

/// Whether `c` has the Unicode `White_Space` property: exactly the characters
/// that `char::is_whitespace` accepts.
pub open spec fn is_space_char(c: char) -> bool {
    c == ' ' || c == '\t' || c == '\n' || c == '\u{b}' || c == '\u{c}' || c == '\r'
        || c == '\u{85}' || c == '\u{a0}' || c == '\u{1680}'
        || ('\u{2000}' <= c && c <= '\u{200a}')
        || c == '\u{2028}' || c == '\u{2029}' || c == '\u{202f}' || c == '\u{205f}'
        || c == '\u{3000}'
}

/// Whether `char::is_alphanumeric` accepts `c`, for `c` outside ASCII.
pub uninterp spec fn alnum_beyond_ascii(c: char) -> bool;

/// Whether `char::is_alphabetic` accepts `c`, for `c` outside ASCII.
pub uninterp spec fn alpha_beyond_ascii(c: char) -> bool;

/// The characters `char::is_alphanumeric` accepts. Within ASCII these are
/// exactly the digits and letters.
pub open spec fn is_alnum_char(c: char) -> bool {
    if c <= '\u{7f}' {
        ('0' <= c && c <= '9') || ('a' <= c && c <= 'z') || ('A' <= c && c <= 'Z')
    } else {
        alnum_beyond_ascii(c)
    }
}

/// The characters `char::is_alphabetic` accepts. Within ASCII these are
/// exactly the letters.
pub open spec fn is_alpha_char(c: char) -> bool {
    if c <= '\u{7f}' {
        ('a' <= c && c <= 'z') || ('A' <= c && c <= 'Z')
    } else {
        alpha_beyond_ascii(c)
    }
}

/// Whether `c` is whitespace, deciding it exactly as `char::is_whitespace`
/// does: by membership in the Unicode `White_Space` set.
pub fn is_space(c: char) -> (r: bool)
    ensures
        r == is_space_char(c),
{
    c == ' ' || c == '\t' || c == '\n' || c == '\u{b}' || c == '\u{c}' || c == '\r'
        || c == '\u{85}' || c == '\u{a0}' || c == '\u{1680}' || ('\u{2000}' <= c && c
        <= '\u{200a}') || c == '\u{2028}' || c == '\u{2029}' || c == '\u{202f}' || c == '\u{205f}'
        || c == '\u{3000}'
}

/// Relies on `char::is_alphanumeric`: within ASCII it accepts exactly the
/// digits and letters.
#[verifier::external_body]
pub fn is_alnum(c: char) -> (r: bool)
    ensures
        r == is_alnum_char(c),
        c > '\u{7f}' ==> r == alnum_beyond_ascii(c),
{
    c.is_alphanumeric()
}

/// Relies on `char::is_alphabetic`: within ASCII it accepts exactly the
/// letters.
#[verifier::external_body]
pub fn is_alpha(c: char) -> (r: bool)
    ensures
        r == is_alpha_char(c),
        c > '\u{7f}' ==> r == alpha_beyond_ascii(c),
{
    c.is_alphabetic()
}

/// The characters of `s`, in order.
pub fn chars_of(s: &str) -> (r: Vec<char>)
    ensures
        r@ == s@,
{
    let n = s.unicode_len();
    let mut v: Vec<char> = Vec::new();
    let mut i: usize = 0;
    while i < n
        invariant
            n == s@.len(),
            i <= n,
            v@ == s@.subrange(0, i as int),
        decreases n - i,
    {
        let c = s.get_char(i);
        v.push(c);
        i = i + 1;
        proof {
            assert(v@ =~= s@.subrange(0, i as int));
        }
    }
    proof {
        assert(v@ =~= s@);
    }
    v
}

/// Relies on `String`'s `FromIterator` over `char`: collecting characters
/// yields the string made of exactly those characters.
#[verifier::external_body]
pub fn string_from_chars(v: &Vec<char>) -> (r: String)
    ensures
        r@ == v@,
{
    v.iter().collect()
}

/// `s` with its leading whitespace removed.
pub open spec fn trim_left_spec(s: Seq<char>) -> Seq<char>
    decreases s.len(),
{
    if s.len() > 0 && is_space_char(s[0]) {
        trim_left_spec(s.subrange(1, s.len() as int))
    } else {
        s
    }
}

/// `s` with its trailing whitespace removed.
pub open spec fn trim_right_spec(s: Seq<char>) -> Seq<char>
    decreases s.len(),
{
    if s.len() > 0 && is_space_char(s[s.len() - 1]) {
        trim_right_spec(s.subrange(0, s.len() - 1))
    } else {
        s
    }
}

/// `s` with whitespace removed from both ends, as `str::trim` leaves it.
pub open spec fn trim_spec(s: Seq<char>) -> Seq<char> {
    trim_right_spec(trim_left_spec(s))
}

proof fn lemma_trim_left_skip(s: Seq<char>, lo: int)
    requires
        0 <= lo <= s.len(),
        forall|j: int| 0 <= j < lo ==> is_space_char(s[j]),
        lo == s.len() || !is_space_char(s[lo]),
    ensures
        trim_left_spec(s) == s.subrange(lo, s.len() as int),
    decreases lo,
{
    if lo == 0 {
        if s.len() > 0 && is_space_char(s[0]) {
            assert(false);
        }
        assert(trim_left_spec(s) == s);
        assert(s =~= s.subrange(0, s.len() as int));
    } else {
        let t = s.subrange(1, s.len() as int);
        lemma_trim_left_skip(t, lo - 1);
        assert(t.subrange(lo - 1, t.len() as int) =~= s.subrange(lo, s.len() as int));
    }
}

proof fn lemma_trim_right_keep(s: Seq<char>, hi: int)
    requires
        0 <= hi <= s.len(),
        forall|j: int| hi <= j < s.len() ==> is_space_char(s[j]),
        hi == 0 || !is_space_char(s[hi - 1]),
    ensures
        trim_right_spec(s) == s.subrange(0, hi),
    decreases s.len() - hi,
{
    if hi == s.len() {
        if s.len() > 0 && is_space_char(s[s.len() - 1]) {
            assert(false);
        }
        assert(s =~= s.subrange(0, s.len() as int));
    } else {
        let t = s.subrange(0, s.len() - 1);
        lemma_trim_right_keep(t, hi);
        assert(t.subrange(0, hi) =~= s.subrange(0, hi));
    }
}

/// `str::trim`'s result, computed over a character vector.
pub fn trim_chars(v: &Vec<char>) -> (r: Vec<char>)
    ensures
        r@ == trim_spec(v@),
{
    let n = v.len();
    let mut lo: usize = 0;
    while lo < n && is_space(v[lo])
        invariant
            n == v@.len(),
            lo <= n,
            forall|j: int| 0 <= j < lo ==> is_space_char(v@[j]),
        decreases n - lo,
    {
        lo = lo + 1;
    }
    proof {
        lemma_trim_left_skip(v@, lo as int);
    }
    if lo == n {
        let r: Vec<char> = Vec::new();
        proof {
            assert(v@.subrange(lo as int, n as int) =~= Seq::<char>::empty());
            assert(trim_right_spec(Seq::<char>::empty()) == Seq::<char>::empty());
            assert(r@ =~= trim_spec(v@));
        }
        return r;
    }
    let mut hi: usize = n;
    while hi > lo && is_space(v[hi - 1])
        invariant
            n == v@.len(),
            lo <= hi <= n,
            forall|j: int| hi <= j < n ==> is_space_char(v@[j]),
        decreases hi,
    {
        hi = hi - 1;
    }
    proof {
        let left = v@.subrange(lo as int, n as int);
        if hi == lo {
            assert(!is_space_char(v@[lo as int]));
            assert(is_space_char(v@[lo as int]));
        }
        assert(forall|j: int| hi - lo <= j < left.len() ==> is_space_char(left[j]));
        assert(!is_space_char(left[hi - lo - 1]));
        lemma_trim_right_keep(left, hi - lo);
        assert(left.subrange(0, hi - lo) =~= v@.subrange(lo as int, hi as int));
    }
    let mut r: Vec<char> = Vec::new();
    let mut i: usize = lo;
    while i < hi
        invariant
            n == v@.len(),
            lo <= i <= hi <= n,
            r@ == v@.subrange(lo as int, i as int),
        decreases hi - i,
    {
        let c = v[i];
        r.push(c);
        i = i + 1;
        proof {
            assert(r@ =~= v@.subrange(lo as int, i as int));
        }
    }
    r
}

proof fn lemma_trim_left_keeps_last(s: Seq<char>)
    requires
        s.len() > 0,
        !is_space_char(s[s.len() - 1]),
    ensures
        trim_left_spec(s).len() > 0,
        trim_left_spec(s)[trim_left_spec(s).len() - 1] == s[s.len() - 1],
    decreases s.len(),
{
    if is_space_char(s[0]) {
        let t = s.subrange(1, s.len() as int);
        lemma_trim_left_keeps_last(t);
    }
}

/// Trimming a sequence that ends with a non-whitespace character keeps it
/// nonempty and keeps its last character.
pub proof fn lemma_trim_keeps_last(s: Seq<char>)
    requires
        s.len() > 0,
        !is_space_char(s[s.len() - 1]),
    ensures
        trim_spec(s).len() > 0,
        trim_spec(s)[trim_spec(s).len() - 1] == s[s.len() - 1],
{
    lemma_trim_left_keeps_last(s);
}

/// How many times `c` occurs in `s`.
pub open spec fn count_char(s: Seq<char>, c: char) -> int
    decreases s.len(),
{
    if s.len() == 0 {
        0
    } else {
        (if s[0] == c {
            1int
        } else {
            0int
        }) + count_char(s.subrange(1, s.len() as int), c)
    }
}

pub proof fn lemma_count_concat(a: Seq<char>, b: Seq<char>, c: char)
    ensures
        count_char(a + b, c) == count_char(a, c) + count_char(b, c),
    decreases a.len(),
{
    if a.len() == 0 {
        assert(a + b =~= b);
    } else {
        let t = a.subrange(1, a.len() as int);
        lemma_count_concat(t, b, c);
        assert((a + b).subrange(1, (a + b).len() as int) =~= t + b);
    }
}

pub proof fn lemma_count_one(x: char, c: char)
    ensures
        count_char(seq![x], c) == if x == c {
            1int
        } else {
            0int
        },
{
    let s = seq![x];
    assert(s.len() == 1 && s[0] == x);
    assert(s.subrange(1, 1) =~= Seq::<char>::empty());
    assert(count_char(s.subrange(1, 1), c) == 0);
}

pub proof fn lemma_count_push(s: Seq<char>, x: char, c: char)
    ensures
        count_char(s.push(x), c) == count_char(s, c) + if x == c {
            1int
        } else {
            0int
        },
{
    assert(s.push(x) =~= s + seq![x]);
    lemma_count_concat(s, seq![x], c);
    lemma_count_one(x, c);
}

/// A character that never occurs in `s` has count zero.
pub proof fn lemma_count_absent(s: Seq<char>, c: char)
    requires
        forall|j: int| 0 <= j < s.len() ==> s[j] != c,
    ensures
        count_char(s, c) == 0,
    decreases s.len(),
{
    if s.len() > 0 {
        lemma_count_absent(s.subrange(1, s.len() as int), c);
    }
}

pub proof fn lemma_count_nonneg(s: Seq<char>, c: char)
    ensures
        count_char(s, c) >= 0,
    decreases s.len(),
{
    if s.len() > 0 {
        lemma_count_nonneg(s.subrange(1, s.len() as int), c);
    }
}

/// Trimming never changes the count of a non-whitespace character.
pub proof fn lemma_count_trim(s: Seq<char>, c: char)
    requires
        !is_space_char(c),
    ensures
        count_char(trim_spec(s), c) == count_char(s, c),
{
    lemma_count_trim_left(s, c);
    lemma_count_trim_right(trim_left_spec(s), c);
}

proof fn lemma_count_trim_left(s: Seq<char>, c: char)
    requires
        !is_space_char(c),
    ensures
        count_char(trim_left_spec(s), c) == count_char(s, c),
    decreases s.len(),
{
    if s.len() > 0 && is_space_char(s[0]) {
        lemma_count_trim_left(s.subrange(1, s.len() as int), c);
    }
}

proof fn lemma_count_trim_right(s: Seq<char>, c: char)
    requires
        !is_space_char(c),
    ensures
        count_char(trim_right_spec(s), c) == count_char(s, c),
    decreases s.len(),
{
    if s.len() > 0 && is_space_char(s[s.len() - 1]) {
        let t = s.subrange(0, s.len() - 1);
        lemma_count_trim_right(t, c);
        assert(s =~= t + seq![s[s.len() - 1]]);
        lemma_count_concat(t, seq![s[s.len() - 1]], c);
        lemma_count_one(s[s.len() - 1], c);
    }
}

/// Appends every character of `xs` to `out`.
pub fn append_chars(out: &mut Vec<char>, xs: &Vec<char>)
    ensures
        final(out)@ == old(out)@ + xs@,
{
    let n = xs.len();
    let mut k: usize = 0;
    while k < n
        invariant
            n == xs@.len(),
            k <= n,
            out@ == old(out)@ + xs@.subrange(0, k as int),
        decreases n - k,
    {
        let c = xs[k];
        out.push(c);
        k = k + 1;
        proof {
            assert(out@ =~= old(out)@ + xs@.subrange(0, k as int));
        }
    }
    proof {
        assert(out@ =~= old(out)@ + xs@);
    }
}

/// Appends every character of `s` to `out`.
pub fn append_str(out: &mut Vec<char>, s: &str)
    ensures
        final(out)@ == old(out)@ + s@,
{
    let cs = chars_of(s);
    append_chars(out, &cs);
}

/// The characters of `src` between `from` and `to`, as a fresh vector.
pub fn copy_range(src: &Vec<char>, from: usize, to: usize) -> (r: Vec<char>)
    requires
        from <= to <= src@.len(),
    ensures
        r@ == src@.subrange(from as int, to as int),
{
    let mut r: Vec<char> = Vec::new();
    let mut k: usize = from;
    while k < to
        invariant
            from <= k <= to <= src@.len(),
            r@ == src@.subrange(from as int, k as int),
        decreases to - k,
    {
        let c = src[k];
        r.push(c);
        k = k + 1;
        proof {
            assert(r@ =~= src@.subrange(from as int, k as int));
        }
    }
    r
}

/// Whether two strings hold the same characters.
pub fn str_eq(a: &str, b: &str) -> (r: bool)
    ensures
        r == (a@ == b@),
{
    let av = chars_of(a);
    let bv = chars_of(b);
    if av.len() != bv.len() {
        proof {
            if a@ == b@ {
                assert(false);
            }
        }
        return false;
    }
    let n = av.len();
    let mut k: usize = 0;
    while k < n
        invariant
            av@ == a@,
            bv@ == b@,
            n == av@.len(),
            n == bv@.len(),
            k <= n,
            forall|j: int| 0 <= j < k ==> a@[j] == b@[j],
        decreases n - k,
    {
        if av[k] != bv[k] {
            proof {
                if a@ == b@ {
                    assert(a@[k as int] == b@[k as int]);
                }
            }
            return false;
        }
        k = k + 1;
    }
    proof {
        assert(a@ =~= b@);
    }
    true
}

/// Whether `c` occurs in `s`.
pub open spec fn contains_char(s: Seq<char>, c: char) -> bool {
    exists|i: int| 0 <= i < s.len() && s[i] == c
}

/// The first position at or after `i` where `c` occurs in `s`, or `s.len()`
/// when there is none.
pub open spec fn index_of_from(s: Seq<char>, c: char, i: int) -> int
    decreases s.len() - i,
{
    if !(0 <= i < s.len()) {
        i
    } else if s[i] == c {
        i
    } else {
        index_of_from(s, c, i + 1)
    }
}

pub proof fn lemma_index_of_from(s: Seq<char>, c: char, i: int)
    requires
        0 <= i <= s.len(),
    ensures
        i <= index_of_from(s, c, i) <= s.len(),
        index_of_from(s, c, i) < s.len() ==> s[index_of_from(s, c, i)] == c,
        forall|k: int| i <= k < index_of_from(s, c, i) ==> s[k] != c,
    decreases s.len() - i,
{
    if i < s.len() && s[i] != c {
        lemma_index_of_from(s, c, i + 1);
    }
}

pub proof fn lemma_index_of_eq(s: Seq<char>, c: char, i: int, j: int)
    requires
        0 <= i <= j <= s.len(),
        forall|k: int| i <= k < j ==> s[k] != c,
        j == s.len() || s[j] == c,
    ensures
        index_of_from(s, c, i) == j,
    decreases j - i,
{
    if i < j {
        lemma_index_of_eq(s, c, i + 1, j);
    }
}

/// The last position at or before `i` where `c` occurs in `s`, or `-1` when
/// there is none.
pub open spec fn last_index_of(s: Seq<char>, c: char, i: int) -> int
    decreases i + 1,
{
    if !(0 <= i < s.len()) {
        -1
    } else if s[i] == c {
        i
    } else {
        last_index_of(s, c, i - 1)
    }
}

pub proof fn lemma_last_index_of(s: Seq<char>, c: char, i: int)
    requires
        -1 <= i < s.len(),
    ensures
        -1 <= last_index_of(s, c, i) <= i,
        last_index_of(s, c, i) >= 0 ==> s[last_index_of(s, c, i)] == c,
        forall|k: int| last_index_of(s, c, i) < k <= i ==> s[k] != c,
    decreases i + 1,
{
    if 0 <= i && s[i] != c {
        lemma_last_index_of(s, c, i - 1);
    }
}

pub proof fn lemma_last_index_eq(s: Seq<char>, c: char, i: int, e: int)
    requires
        -1 <= i < s.len(),
        0 <= e <= i + 1,
        forall|k: int| e <= k <= i ==> s[k] != c,
        e == 0 || s[e - 1] == c,
    ensures
        last_index_of(s, c, i) == e - 1,
    decreases i + 1,
{
    if i >= e {
        lemma_last_index_eq(s, c, i - 1, e);
    }
}

/// The set of distinct string contents held by `v`.
pub open spec fn view_set(v: Seq<String>) -> Set<Seq<char>> {
    Set::new(|t: Seq<char>| exists|i: int| 0 <= i < v.len() && v[i]@ == t)
}

/// No two strings of `v` have the same contents.
pub open spec fn distinct_views(v: Seq<String>) -> bool {
    forall|i: int, j: int| 0 <= i < j < v.len() ==> v[i]@ != v[j]@
}

} // verus!
