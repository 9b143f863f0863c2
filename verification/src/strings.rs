//! String helpers for identifier classification and location matching:
//! substring search and extraction of the last `/`-separated path segment.

use vstd::prelude::*;

verus! {

/// The pattern `p` occurs as a contiguous substring of `s`.
pub open spec fn contains_seq(s: Seq<char>, p: Seq<char>) -> bool {
    exists|k: int| 0 <= k && k + p.len() <= s.len() && #[trigger] s.subrange(k, k + p.len()) == p
}

/// The suffix of `s` after its last `/`, or all of `s` when it has no `/`.
pub open spec fn last_segment(s: Seq<char>) -> Seq<char>
    decreases s.len(),
{
    if s.len() == 0 {
        s
    } else if s.last() == '/' {
        Seq::empty()
    } else {
        last_segment(s.drop_last()).push(s.last())
    }
}

/// When every character of `s` past position `k` differs from `/`, and `k`
/// is either just before the start or holds a `/`, the last segment of `s`
/// is exactly the suffix starting after `k`.
proof fn lemma_last_segment_subrange(s: Seq<char>, k: int)
    requires
        -1 <= k < s.len(),
        k >= 0 ==> s[k] == '/',
        forall|j: int| k < j < s.len() ==> s[j] != '/',
    ensures
        last_segment(s) =~= s.subrange(k + 1, s.len() as int),
    decreases s.len(),
{
    if s.len() == 0 {
    } else if k == s.len() - 1 {
    } else {
        lemma_last_segment_subrange(s.drop_last(), k);
        assert(s.drop_last().subrange(k + 1, s.len() - 1) =~= s.subrange(k + 1, s.len() - 1));
    }
}

/// Whether `p@` occurs as a substring of `s@`, by direct scan.
pub fn str_contains(s: &str, p: &str) -> (r: bool)
    ensures
        r == contains_seq(s@, p@),
{
    let n = s.unicode_len();
    let m = p.unicode_len();
    if m > n {
        return false;
    }
    if m == 0 {
        assert(contains_seq(s@, p@)) by {
            assert(s@.subrange(0, 0 + p@.len() as int) =~= p@);
        }
        return true;
    }
    let mut k: usize = 0;
    while k <= n - m
        invariant
            1 <= m <= n == s@.len(),
            m == p@.len(),
            k <= n - m + 1,
            forall|k2: int| 0 <= k2 < k ==> #[trigger] s@.subrange(k2, k2 + m) != p@,
        decreases n - m + 1 - k,
    {
        let mut j: usize = 0;
        let mut matched = true;
        while j < m && matched
            invariant
                m <= n == s@.len(),
                m == p@.len(),
                k <= n - m,
                j <= m,
                matched ==> forall|j2: int| 0 <= j2 < j ==> s@[k + j2] == p@[j2],
                !matched ==> s@.subrange(k as int, k + m) != p@,
            decreases m - j + (if matched { 1int } else { 0int }),
        {
            if s.get_char(k + j) == p.get_char(j) {
                j = j + 1;
            } else {
                assert(s@.subrange(k as int, k + m)[j as int] != p@[j as int]);
                matched = false;
            }
        }
        if matched {
            assert(s@.subrange(k as int, k + m) =~= p@);
            return true;
        }
        k = k + 1;
    }
    assert forall|k2: int| 0 <= k2 && k2 + p@.len() <= s@.len() implies #[trigger] s@.subrange(
        k2,
        k2 + p@.len(),
    ) != p@ by {
        assert(k2 < k);
    }
    false
}

/// The last `/`-separated segment of `s`, as an owned string.
pub fn last_segment_of(s: &str) -> (r: String)
    ensures
        r@ == last_segment(s@),
{
    let n = s.unicode_len();
    let mut start: usize = 0;
    let mut i: usize = 0;
    while i < n
        invariant
            n == s@.len(),
            start <= i <= n,
            start >= 1 ==> s@[start - 1] == '/',
            forall|j: int| start <= j < i ==> s@[j] != '/',
        decreases n - i,
    {
        if s.get_char(i) == '/' {
            start = i + 1;
        }
        i = i + 1;
    }
    proof {
        lemma_last_segment_subrange(s@, start - 1);
    }
    let seg = s.substring_char(start, n);
    seg.to_owned()
}

} // verus!
