//! Small text helpers shared by the selector parser and the cache keys.

use vstd::prelude::*;

verus! {

/// The characters `str::trim` strips: the Unicode white-space set.
pub open spec fn is_space_char(c: char) -> bool {
    ||| c == ' '
    ||| c == '\t'
    ||| c == '\n'
    ||| c == '\r'
    ||| c == '\u{000B}'
    ||| c == '\u{000C}'
    ||| c == '\u{0085}'
    ||| c == '\u{00A0}'
    ||| c == '\u{1680}'
    ||| c == '\u{2000}'
    ||| c == '\u{2001}'
    ||| c == '\u{2002}'
    ||| c == '\u{2003}'
    ||| c == '\u{2004}'
    ||| c == '\u{2005}'
    ||| c == '\u{2006}'
    ||| c == '\u{2007}'
    ||| c == '\u{2008}'
    ||| c == '\u{2009}'
    ||| c == '\u{200A}'
    ||| c == '\u{2028}'
    ||| c == '\u{2029}'
    ||| c == '\u{202F}'
    ||| c == '\u{205F}'
    ||| c == '\u{3000}'
}

pub fn is_space(c: char) -> (r: bool)
    ensures
        r == is_space_char(c),
{
    c == ' ' || c == '\t' || c == '\n' || c == '\r' || c == '\u{000B}' || c == '\u{000C}'
        || c == '\u{0085}' || c == '\u{00A0}' || c == '\u{1680}' || c == '\u{2000}'
        || c == '\u{2001}' || c == '\u{2002}' || c == '\u{2003}' || c == '\u{2004}'
        || c == '\u{2005}' || c == '\u{2006}' || c == '\u{2007}' || c == '\u{2008}'
        || c == '\u{2009}' || c == '\u{200A}' || c == '\u{2028}' || c == '\u{2029}'
        || c == '\u{202F}' || c == '\u{205F}' || c == '\u{3000}'
}

/// Copies the characters of a string into a vector for positional access.
pub fn to_chars(s: &str) -> (r: Vec<char>)
    ensures
        r@ == s@,
{
    let n = s.unicode_len();
    let mut out: Vec<char> = Vec::new();
    let mut i: usize = 0;
    while i < n
        invariant
            0 <= i <= n,
            n == s@.len(),
            out@ == s@.take(i as int),
        decreases n - i,
    {
        let c = s.get_char(i);
        out.push(c);
        proof {
            assert(out@ =~= s@.take(i + 1));
        }
        i = i + 1;
    }
    proof {
        assert(out@ =~= s@);
    }
    out
}

/// Whether two string slices hold the same characters.
pub fn str_eq(a: &str, b: &str) -> (r: bool)
    ensures
        r == (a@ == b@),
{
    let x = a.to_owned();
    let y = b.to_owned();
    x == y
}

/// The characters of `s` with leading white space dropped.
pub open spec fn trim_front(s: Seq<char>) -> Seq<char>
    decreases s.len(),
{
    if s.len() > 0 && is_space_char(s[0]) {
        trim_front(s.drop_first())
    } else {
        s
    }
}

/// The characters of `s` with trailing white space dropped.
pub open spec fn trim_back(s: Seq<char>) -> Seq<char>
    decreases s.len(),
{
    if s.len() > 0 && is_space_char(s.last()) {
        trim_back(s.drop_last())
    } else {
        s
    }
}

/// What `str::trim` leaves of `s`.
pub open spec fn trim_spec(s: Seq<char>) -> Seq<char> {
    trim_back(trim_front(s))
}

pub proof fn lemma_trim_front_skip(s: Seq<char>, k: int)
    requires
        0 <= k <= s.len(),
        forall|i: int| 0 <= i < k ==> is_space_char(s[i]),
        k < s.len() ==> !is_space_char(s[k]),
    ensures
        trim_front(s) == s.skip(k),
    decreases k,
{
    if k == 0 {
        assert(s.skip(0) =~= s);
    } else {
        let t = s.drop_first();
        assert(t =~= s.skip(1));
        assert(forall|i: int| 0 <= i < k - 1 ==> is_space_char(#[trigger] t[i]));
        lemma_trim_front_skip(t, k - 1);
        assert(t.skip(k - 1) =~= s.skip(k));
    }
}

pub proof fn lemma_trim_back_take(s: Seq<char>, k: int)
    requires
        0 <= k <= s.len(),
        forall|i: int| k <= i < s.len() ==> is_space_char(s[i]),
        k > 0 ==> !is_space_char(s[k - 1]),
    ensures
        trim_back(s) == s.take(k),
    decreases s.len(),
{
    if k == s.len() {
        assert(s.take(k) =~= s);
    } else {
        let t = s.drop_last();
        lemma_trim_back_take(t, k);
        assert(t.take(k) =~= s.take(k));
    }
}

/// The bounds of the trimmed middle of `v[lo..hi]`.
pub fn trim_bounds(v: &Vec<char>, lo: usize, hi: usize) -> (r: (usize, usize))
    requires
        lo <= hi <= v@.len(),
    ensures
        lo <= r.0 <= r.1 <= hi,
        v@.subrange(r.0 as int, r.1 as int) == trim_spec(v@.subrange(lo as int, hi as int)),
{
    let ghost s = v@.subrange(lo as int, hi as int);
    let mut a: usize = lo;
    while a < hi && is_space(v[a])
        invariant
            lo <= a <= hi <= v@.len(),
            s == v@.subrange(lo as int, hi as int),
            forall|i: int| 0 <= i < a - lo ==> is_space_char(s[i]),
        decreases hi - a,
    {
        a = a + 1;
    }
    proof {
        lemma_trim_front_skip(s, a - lo);
    }
    let ghost f = trim_front(s);
    let mut b: usize = hi;
    while b > a && is_space(v[b - 1])
        invariant
            a <= b <= hi,
            lo <= a <= hi <= v@.len(),
            s == v@.subrange(lo as int, hi as int),
            f == s.skip(a - lo),
            forall|i: int| b - a <= i < f.len() ==> is_space_char(f[i]),
        decreases b,
    {
        proof {
            assert(f[b - 1 - a] == s[b - 1 - lo]);
        }
        b = b - 1;
    }
    proof {
        if b > a {
            assert(f[b - 1 - a] == s[b - 1 - lo]);
        }
        lemma_trim_back_take(f, b - a);
        assert(f.take(b - a) =~= v@.subrange(a as int, b as int));
    }
    (a, b)
}

/// Whether `pat` occurs in `s` starting at position `i`.
pub open spec fn is_match_at(s: Seq<char>, pat: Seq<char>, i: int) -> bool {
    0 <= i && i + pat.len() <= s.len() && s.subrange(i, i + pat.len()) == pat
}

/// The first position at or after `i` where `pat` occurs in `s`.
pub open spec fn find_from(s: Seq<char>, pat: Seq<char>, i: int) -> Option<int>
    decreases s.len() + 1 - i,
    when 0 <= i
{
    if i < 0 || i + pat.len() > s.len() {
        None
    } else if is_match_at(s, pat, i) {
        Some(i)
    } else {
        find_from(s, pat, i + 1)
    }
}

/// The first position where `pat` occurs in `s`.
pub open spec fn find_sub(s: Seq<char>, pat: Seq<char>) -> Option<int> {
    find_from(s, pat, 0)
}

pub open spec fn contains_sub(s: Seq<char>, pat: Seq<char>) -> bool {
    find_sub(s, pat) is Some
}

pub proof fn lemma_find_found(s: Seq<char>, pat: Seq<char>, i: int, k: int)
    requires
        0 <= i <= k,
        is_match_at(s, pat, k),
        forall|t: int| i <= t < k ==> !is_match_at(s, pat, t),
    ensures
        find_from(s, pat, i) == Some(k),
    decreases k - i,
{
    if i < k {
        lemma_find_found(s, pat, i + 1, k);
    }
}

pub proof fn lemma_find_none(s: Seq<char>, pat: Seq<char>, i: int)
    requires
        0 <= i,
        forall|t: int| i <= t ==> !is_match_at(s, pat, t),
    ensures
        find_from(s, pat, i) is None,
    decreases s.len() + 1 - i,
{
    if i + pat.len() <= s.len() {
        lemma_find_none(s, pat, i + 1);
    }
}

/// Whether the characters of `v` starting at `at` equal `pat`.
fn match_range(v: &Vec<char>, at: usize, pat: &Vec<char>) -> (r: bool)
    requires
        at + pat@.len() <= v@.len(),
    ensures
        r == (v@.subrange(at as int, at + pat@.len()) == pat@),
{
    let n = v.len();
    let m = pat.len();
    let mut t: usize = 0;
    while t < m
        invariant
            0 <= t <= m,
            m == pat@.len(),
            n == v@.len(),
            at + m <= n,
            forall|u: int| 0 <= u < t ==> v@[at + u] == pat@[u],
        decreases m - t,
    {
        if v[at + t] != pat[t] {
            proof {
                assert(v@.subrange(at as int, at + pat@.len())[t as int] != pat@[t as int]);
            }
            return false;
        }
        t = t + 1;
    }
    proof {
        assert(v@.subrange(at as int, at + pat@.len()) =~= pat@);
    }
    true
}

/// The first occurrence of `pat` inside `v[lo..hi]`, as an absolute
/// position, searching left to right.
pub fn find_in_range(v: &Vec<char>, lo: usize, hi: usize, pat: &Vec<char>) -> (r: Option<usize>)
    requires
        lo <= hi <= v@.len(),
        pat@.len() > 0,
    ensures
        ({
            let e = v@.subrange(lo as int, hi as int);
            match r {
                Some(p) => lo <= p && find_sub(e, pat@) == Some(p - lo),
                None => find_sub(e, pat@) is None,
            }
        }),
{
    let ghost e = v@.subrange(lo as int, hi as int);
    let m = pat.len();
    if m > hi - lo {
        proof {
            assert forall|t: int| 0 <= t implies !is_match_at(e, pat@, t) by {}
            lemma_find_none(e, pat@, 0);
        }
        return None;
    }
    let mut i: usize = lo;
    let limit: usize = hi - m;
    while i <= limit
        invariant
            lo <= i <= limit + 1,
            limit == hi - m,
            1 <= m,
            m == pat@.len(),
            lo <= hi <= v@.len(),
            m <= hi - lo,
            e == v@.subrange(lo as int, hi as int),
            forall|t: int| 0 <= t < i - lo ==> !is_match_at(e, pat@, t),
        decreases limit + 1 - i,
    {
        proof {
            assert(e.subrange(i - lo, i - lo + m as int) =~= v@.subrange(i as int, i + m));
        }
        if match_range(v, i, pat) {
            proof {
                assert(is_match_at(e, pat@, i - lo));
                lemma_find_found(e, pat@, 0, i - lo);
            }
            return Some(i);
        }
        proof {
            assert(!is_match_at(e, pat@, i - lo));
        }
        i = i + 1;
    }
    proof {
        assert forall|t: int| 0 <= t implies !is_match_at(e, pat@, t) by {
            if t + pat@.len() <= e.len() {
                assert(t <= limit - lo);
                assert(t < i - lo);
            }
        }
        lemma_find_none(e, pat@, 0);
    }
    None
}

} // verus!
