//! Scanner: finds the first (lowest) occurrence of a compiled pattern in a
//! byte buffer holding one contiguous module image.

use vstd::prelude::*;

use crate::pattern::{Matcher, Pattern};

verus! {

/// One matcher accepts one buffer byte.
pub open spec fn matcher_hits(m: Matcher, b: u8) -> bool {
    match m {
        Matcher::Exact(x) => b == x,
        Matcher::Wildcard => true,
    }
}

/// The pattern matches the buffer at start index `i`: every exact matcher
/// agrees with the byte under it, wildcards are ignored.
pub open spec fn matches_at(buf: Seq<u8>, pat: Seq<Matcher>, i: int) -> bool {
    &&& 0 <= i
    &&& i + pat.len() <= buf.len()
    &&& forall|j: int| 0 <= j < pat.len() ==> matcher_hits(#[trigger] pat[j], buf[i + j])
}

/// Index of the first match at or after `i`, if any.
pub open spec fn first_match_from(buf: Seq<u8>, pat: Seq<Matcher>, i: int) -> Option<int>
    decreases buf.len() - i,
{
    if i < 0 || i + pat.len() > buf.len() {
        None
    } else if matches_at(buf, pat, i) {
        Some(i)
    } else {
        first_match_from(buf, pat, i + 1)
    }
}

/// Index of the first (lowest-address) match of the pattern, if any.
pub open spec fn first_match(buf: Seq<u8>, pat: Seq<Matcher>) -> Option<int> {
    first_match_from(buf, pat, 0)
}

/// Whether the window starting at `i` matches.
fn window_matches(pat: &Pattern, buf: &[u8], i: usize) -> (r: bool)
    requires
        i + pat@.len() <= buf@.len(),
    ensures
        r == matches_at(buf@, pat@, i as int),
{
    let plen = pat.matchers.len();
    let blen = buf.len();
    let mut j: usize = 0;
    while j < plen
        invariant
            0 <= j <= plen,
            plen == pat@.len(),
            blen == buf@.len(),
            i + plen <= blen,
            forall|t: int| 0 <= t < j ==> matcher_hits(#[trigger] pat@[t], buf@[i + t]),
        decreases plen - j,
    {
        let hit = match pat.matchers[j] {
            Matcher::Exact(x) => buf[i + j] == x,
            Matcher::Wildcard => true,
        };
        if !hit {
            proof {
                assert(!matcher_hits(pat@[j as int], buf@[i + j]));
            }
            return false;
        }
        j = j + 1;
    }
    true
}

/// Search the buffer for the first occurrence of the pattern.
///
/// Returns the lowest index at which every exact matcher agrees with the
/// buffer; a buffer with no matching window yields `None`, never a spurious
/// index. The result is a pure function of buffer and pattern, so it is
/// reproducible across runs on the same memory snapshot.
pub fn find_match(pat: &Pattern, buf: &[u8]) -> (r: Option<usize>)
    ensures
        match r {
            Some(k) => {
                &&& matches_at(buf@, pat@, k as int)
                &&& forall|i: int| 0 <= i < k ==> !matches_at(buf@, pat@, i)
                &&& first_match(buf@, pat@) == Some(k as int)
            },
            None => {
                &&& forall|i: int| !matches_at(buf@, pat@, i)
                &&& first_match(buf@, pat@) is None
            },
        },
{
    let plen = pat.matchers.len();
    let blen = buf.len();
    if plen > blen {
        proof {
            assert(forall|i: int| !matches_at(buf@, pat@, i));
        }
        return None;
    }
    let mut i: usize = 0;
    while i <= blen - plen
        invariant
            plen == pat@.len(),
            blen == buf@.len(),
            plen <= blen,
            0 <= i <= blen - plen + 1,
            forall|t: int| 0 <= t < i ==> !matches_at(buf@, pat@, t),
            first_match(buf@, pat@) == first_match_from(buf@, pat@, i as int),
        decreases blen - plen + 1 - i,
    {
        if window_matches(pat, buf, i) {
            return Some(i);
        }
        i = i + 1;
    }
    proof {
        assert(first_match_from(buf@, pat@, i as int) is None);
        assert(forall|t: int| t >= i ==> !matches_at(buf@, pat@, t));
    }
    None
}

/// If a buffer contains the pattern at position `k` and at no earlier
/// position, the scanner returns `k`.
pub proof fn lemma_scanner_finds_first(buf: Seq<u8>, pat: Seq<Matcher>, k: int)
    requires
        matches_at(buf, pat, k),
        forall|i: int| 0 <= i < k ==> !matches_at(buf, pat, i),
    ensures
        first_match(buf, pat) == Some(k),
{
    lemma_first_match_from_reaches(buf, pat, 0, k);
}

proof fn lemma_first_match_from_reaches(buf: Seq<u8>, pat: Seq<Matcher>, i: int, k: int)
    requires
        0 <= i <= k,
        matches_at(buf, pat, k),
        forall|t: int| i <= t < k ==> !matches_at(buf, pat, t),
    ensures
        first_match_from(buf, pat, i) == Some(k),
    decreases k - i,
{
    if i < k {
        lemma_first_match_from_reaches(buf, pat, i + 1, k);
    }
}

/// A buffer with no matching subsequence yields no match — never a
/// spurious index.
pub proof fn lemma_scanner_no_match(buf: Seq<u8>, pat: Seq<Matcher>)
    requires
        forall|i: int| !matches_at(buf, pat, i),
    ensures
        first_match(buf, pat) is None,
{
    lemma_first_match_from_none(buf, pat, 0);
}

proof fn lemma_first_match_from_none(buf: Seq<u8>, pat: Seq<Matcher>, i: int)
    requires
        forall|t: int| !matches_at(buf, pat, t),
    ensures
        first_match_from(buf, pat, i) is None,
    decreases buf.len() - i,
{
    if !(i < 0 || i + pat.len() > buf.len()) {
        lemma_first_match_from_none(buf, pat, i + 1);
    }
}

/// Mutating a buffer byte under a position that every window alignment can
/// only reach through a wildcard matcher never changes the match result:
/// neither whether the pattern matches at any index, nor which index the
/// scanner reports first.
pub proof fn lemma_wildcard_mutation(buf: Seq<u8>, pat: Seq<Matcher>, p: int, x: u8)
    requires
        0 <= p < buf.len(),
        forall|i: int| 0 <= p - i < pat.len() ==> #[trigger] pat[p - i] is Wildcard,
    ensures
        forall|i: int| matches_at(buf.update(p, x), pat, i) == matches_at(buf, pat, i),
        first_match(buf.update(p, x), pat) == first_match(buf, pat),
{
    let buf2 = buf.update(p, x);
    assert forall|i: int| matches_at(buf2, pat, i) == matches_at(buf, pat, i) by {
        lemma_wildcard_window(buf, pat, p, x, i);
    }
    lemma_first_match_same(buf, buf2, pat, 0);
}

/// One window is insensitive to a byte it can only see through a wildcard.
proof fn lemma_wildcard_window(buf: Seq<u8>, pat: Seq<Matcher>, p: int, x: u8, i: int)
    requires
        0 <= p < buf.len(),
        0 <= p - i < pat.len() ==> pat[p - i] is Wildcard,
    ensures
        matches_at(buf.update(p, x), pat, i) == matches_at(buf, pat, i),
{
    let buf2 = buf.update(p, x);
    if matches_at(buf, pat, i) {
        assert forall|j: int| 0 <= j < pat.len() implies matcher_hits(
            #[trigger] pat[j],
            buf2[i + j],
        ) by {
            if i + j != p {
                assert(buf2[i + j] == buf[i + j]);
            }
        }
    }
    if matches_at(buf2, pat, i) {
        assert forall|j: int| 0 <= j < pat.len() implies matcher_hits(
            #[trigger] pat[j],
            buf[i + j],
        ) by {
            if i + j != p {
                assert(buf2[i + j] == buf[i + j]);
            }
        }
    }
}

/// Two buffers on which every window agrees have the same first match.
proof fn lemma_first_match_same(b1: Seq<u8>, b2: Seq<u8>, pat: Seq<Matcher>, i: int)
    requires
        b1.len() == b2.len(),
        forall|t: int| matches_at(b1, pat, t) == matches_at(b2, pat, t),
    ensures
        first_match_from(b1, pat, i) == first_match_from(b2, pat, i),
    decreases b1.len() - i,
{
    if !(i < 0 || i + pat.len() > b1.len()) {
        if !matches_at(b1, pat, i) {
            lemma_first_match_same(b1, b2, pat, i + 1);
        }
    }
}

} // verus!
