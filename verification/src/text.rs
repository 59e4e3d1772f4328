//! Character-level text scanning shared by the URL splitter and the HTTP
//! parser: first occurrence of a pattern, first occurrence of a single
//! character, and the lemmas that pin those down.

use vstd::prelude::*;
use vstd::string::StrSliceExecFns;

verus! {

/// `pat` occurs in `s` starting at position `i`.
pub open spec fn is_at(s: Seq<char>, pat: Seq<char>, i: int) -> bool {
    0 <= i && i + pat.len() <= s.len() && s.subrange(i, i + pat.len() as int) == pat
}

/// The first position at or after `i` where `pat` occurs in `s`, if any.
pub open spec fn find_from(s: Seq<char>, pat: Seq<char>, i: int) -> Option<int>
    decreases s.len() - i,
    via find_from_dec
{
    if i + pat.len() > s.len() {
        None
    } else if is_at(s, pat, i) {
        Some(i)
    } else {
        find_from(s, pat, i + 1)
    }
}

#[via_fn]
proof fn find_from_dec(s: Seq<char>, pat: Seq<char>, i: int) {
    if i + pat.len() <= s.len() && !is_at(s, pat, i) && pat.len() == 0 && 0 <= i {
        assert(s.subrange(i, i) =~= pat);
    }
}

/// A found position is an occurrence, comes at or after the start, and is
/// the first one there.
pub proof fn lemma_find_from_some(s: Seq<char>, pat: Seq<char>, i: int, j: int)
    requires
        0 <= i,
        find_from(s, pat, i) == Some(j),
    ensures
        i <= j,
        is_at(s, pat, j),
        forall|k: int| i <= k < j ==> !is_at(s, pat, k),
    decreases s.len() - i,
{
    if i + pat.len() > s.len() {
    } else if is_at(s, pat, i) {
    } else {
        if pat.len() == 0 {
            assert(s.subrange(i, i) =~= pat);
        }
        lemma_find_from_some(s, pat, i + 1, j);
    }
}

/// An occurrence with none before it is exactly what the search finds.
pub proof fn lemma_find_from_exact(s: Seq<char>, pat: Seq<char>, a: int, j: int)
    requires
        0 <= a <= j,
        is_at(s, pat, j),
        forall|k: int| a <= k < j ==> !is_at(s, pat, k),
    ensures
        find_from(s, pat, a) == Some(j),
    decreases j - a,
{
    if a == j {
    } else {
        lemma_find_from_exact(s, pat, a + 1, j);
    }
}

/// Length of the run of characters before the first `c` in `s`, or all of
/// `s` when it has none.
pub open spec fn run_to(s: Seq<char>, c: char) -> int
    decreases s.len(),
{
    if s.len() == 0 {
        0
    } else if s[0] == c {
        0
    } else {
        1 + run_to(s.drop_first(), c)
    }
}

/// The run before the first `c` never leaves the text.
pub proof fn lemma_run_to_bounds(s: Seq<char>, c: char)
    ensures
        0 <= run_to(s, c) <= s.len(),
    decreases s.len(),
{
    if s.len() == 0 {
    } else if s[0] == c {
    } else {
        lemma_run_to_bounds(s.drop_first(), c);
    }
}

/// A position with no `c` before it and `c` (or the end) at it is where the
/// run stops.
pub proof fn lemma_run_to_at(s: Seq<char>, c: char, n: int)
    requires
        0 <= n <= s.len(),
        forall|k: int| 0 <= k < n ==> s[k] != c,
        n == s.len() || s[n] == c,
    ensures
        run_to(s, c) == n,
    decreases n,
{
    if s.len() == 0 {
    } else if s[0] == c {
        assert(n == 0);
    } else {
        assert(n >= 1);
        let t = s.drop_first();
        assert(forall|k: int| 0 <= k < n - 1 ==> t[k] == s[k + 1] && t[k] != c);
        lemma_run_to_at(t, c, n - 1);
    }
}

/// Whether `pat` occurs in `s` at position `at`.
pub fn match_at(s: &str, pat: &str, at: usize) -> (r: bool)
    requires
        at + pat@.len() <= s@.len(),
    ensures
        r == is_at(s@, pat@, at as int),
{
    let n = s.unicode_len();
    let m = pat.unicode_len();
    let mut k: usize = 0;
    while k < m
        invariant
            0 <= k <= m,
            m == pat@.len(),
            n == s@.len(),
            at + m <= n,
            forall|q: int| 0 <= q < k ==> s@[at + q] == pat@[q],
        decreases m - k,
    {
        if s.get_char(at + k) != pat.get_char(k) {
            assert(s@.subrange(at as int, at + m as int)[k as int] != pat@[k as int]);
            return false;
        }
        k += 1;
    }
    proof {
        assert(s@.subrange(at as int, at + m as int) =~= pat@);
    }
    true
}

/// The first occurrence of `pat` in `s` at or after `from`.
pub fn find_pat(s: &str, pat: &str, from: usize) -> (r: Option<usize>)
    requires
        from <= s@.len(),
    ensures
        match r {
            Some(j) => find_from(s@, pat@, from as int) == Some(j as int),
            None => find_from(s@, pat@, from as int) is None,
        },
{
    let n = s.unicode_len();
    let m = pat.unicode_len();
    if m == 0 {
        proof {
            assert(s@.subrange(from as int, from as int) =~= pat@);
        }
        return Some(from);
    }
    if m > n {
        return None;
    }
    let limit = n - m;
    if from > limit {
        return None;
    }
    let mut j = from;
    while j <= limit
        invariant
            from <= j <= limit + 1,
            limit == n - m,
            1 <= m <= n,
            n == s@.len(),
            m == pat@.len(),
            find_from(s@, pat@, from as int) == find_from(s@, pat@, j as int),
        decreases limit + 1 - j,
    {
        if match_at(s, pat, j) {
            return Some(j);
        }
        j += 1;
    }
    None
}

/// The first position at or after `from` holding character `c`, or the text's
/// length when there is none.
pub fn find_char(s: &str, c: char, from: usize) -> (j: usize)
    requires
        from <= s@.len(),
    ensures
        from <= j <= s@.len(),
        forall|k: int| from <= k < j ==> s@[k] != c,
        j == s@.len() || s@[j as int] == c,
{
    let n = s.unicode_len();
    let mut j = from;
    while j < n
        invariant
            from <= j <= n,
            n == s@.len(),
            forall|k: int| from <= k < j ==> s@[k] != c,
        decreases n - j,
    {
        if s.get_char(j) == c {
            return j;
        }
        j += 1;
    }
    j
}

} // verus!
