//! Pattern compiler: turns textual byte patterns ("55 8B ?? 10") into an
//! ordered sequence of exact/wildcard matchers.
//!
//! The text is a sequence of tokens separated by spaces. A token is either a
//! wildcard marker (`?` or `??`) or exactly two hex digits. An empty token
//! list and an all-wildcard pattern are rejected: neither can disambiguate a
//! location.

use vstd::prelude::*;

use crate::types::ScanError;

verus! {

/// One position of a compiled pattern: match a specific byte, or any byte.
#[derive(Clone, Copy, PartialEq, Eq, Structural, Debug)]
pub enum Matcher {
    Exact(u8),
    Wildcard,
}

/// A compiled pattern: at least one matcher, at least one of them exact.
#[derive(Debug)]
pub struct Pattern {
    pub matchers: Vec<Matcher>,
}

impl View for Pattern {
    type V = Seq<Matcher>;

    open spec fn view(&self) -> Seq<Matcher> {
        self.matchers@
    }
}

impl Pattern {
    /// A usable pattern is non-empty and pins at least one byte exactly.
    pub open spec fn wf(self) -> bool {
        self@.len() >= 1 && exists|j: int| 0 <= j < self@.len() && self@[j] is Exact
    }
}

/// ASCII space, the token separator.
pub open spec fn spec_space() -> u8 {
    0x20
}

/// ASCII `?`, the wildcard marker.
pub open spec fn spec_question() -> u8 {
    0x3f
}

/// `c` is an ASCII hex digit (either case).
pub open spec fn is_hex_digit(c: u8) -> bool {
    (0x30 <= c && c <= 0x39) || (0x41 <= c && c <= 0x46) || (0x61 <= c && c <= 0x66)
}

/// Numeric value of an ASCII hex digit.
pub open spec fn hex_val(c: u8) -> u8 {
    if 0x30 <= c && c <= 0x39 {
        (c - 0x30) as u8
    } else if 0x41 <= c && c <= 0x46 {
        ((c - 0x41) + 10) as u8
    } else {
        ((c - 0x61) + 10) as u8
    }
}

/// A wildcard token: `?` or `??`.
pub open spec fn is_wildcard_token(t: Seq<u8>) -> bool {
    ||| (t.len() == 1 && t[0] == spec_question())
    ||| (t.len() == 2 && t[0] == spec_question() && t[1] == spec_question())
}

/// An exact token: two hex digits.
pub open spec fn is_exact_token(t: Seq<u8>) -> bool {
    t.len() == 2 && is_hex_digit(t[0]) && is_hex_digit(t[1])
}

pub open spec fn is_valid_token(t: Seq<u8>) -> bool {
    is_wildcard_token(t) || is_exact_token(t)
}

/// The matcher a valid token denotes.
pub open spec fn token_matcher(t: Seq<u8>) -> Matcher {
    if is_wildcard_token(t) {
        Matcher::Wildcard
    } else {
        Matcher::Exact((16 * hex_val(t[0]) + hex_val(t[1])) as u8)
    }
}

/// End of the token that starts at `i`: the first index `>= i` holding a
/// space, or the end of the text.
pub open spec fn tok_end(s: Seq<u8>, i: int) -> int
    decreases s.len() - i,
{
    if i < 0 || i >= s.len() || s[i] == spec_space() {
        i
    } else {
        tok_end(s, i + 1)
    }
}

pub proof fn lemma_tok_end_bounds(s: Seq<u8>, i: int)
    requires
        0 <= i <= s.len(),
    ensures
        i <= tok_end(s, i) <= s.len(),
    decreases s.len() - i,
{
    if i < s.len() && s[i] != spec_space() {
        lemma_tok_end_bounds(s, i + 1);
    }
}

/// The tokens of `s` from position `i` on: maximal runs of non-space bytes.
pub open spec fn tokens_from(s: Seq<u8>, i: int) -> Seq<Seq<u8>>
    decreases s.len() - i,
        via tokens_from_decreases
{
    if i < 0 || i >= s.len() {
        Seq::empty()
    } else if s[i] == spec_space() {
        tokens_from(s, i + 1)
    } else {
        seq![s.subrange(i, tok_end(s, i))] + tokens_from(s, tok_end(s, i))
    }
}

#[via_fn]
proof fn tokens_from_decreases(s: Seq<u8>, i: int) {
    if 0 <= i < s.len() && s[i] != spec_space() {
        lemma_tok_end_bounds(s, i + 1);
    }
}

/// All tokens of the whole text.
pub open spec fn tokens_of(s: Seq<u8>) -> Seq<Seq<u8>> {
    tokens_from(s, 0)
}

pub open spec fn all_tokens_valid(ts: Seq<Seq<u8>>) -> bool {
    forall|k: int| 0 <= k < ts.len() ==> is_valid_token(#[trigger] ts[k])
}

pub open spec fn has_exact_token(ts: Seq<Seq<u8>>) -> bool {
    exists|k: int| 0 <= k < ts.len() && is_exact_token(#[trigger] ts[k])
}

/// The text compiles: at least one token, every token valid, at least one
/// exact byte.
pub open spec fn valid_pattern_text(s: Seq<u8>) -> bool {
    let ts = tokens_of(s);
    ts.len() >= 1 && all_tokens_valid(ts) && has_exact_token(ts)
}

/// The matchers a valid token list denotes.
pub open spec fn matchers_of(ts: Seq<Seq<u8>>) -> Seq<Matcher> {
    ts.map_values(|t: Seq<u8>| token_matcher(t))
}

/// Value of an ASCII hex digit, or `None` if `c` is no hex digit.
fn hex_digit_val(c: u8) -> (r: Option<u8>)
    ensures
        match r {
            Some(v) => is_hex_digit(c) && v == hex_val(c) && v < 16,
            None => !is_hex_digit(c),
        },
{
    if 0x30 <= c && c <= 0x39 {
        Some(c - 0x30)
    } else if 0x41 <= c && c <= 0x46 {
        Some(c - 0x41 + 10)
    } else if 0x61 <= c && c <= 0x66 {
        Some(c - 0x61 + 10)
    } else {
        None
    }
}

/// Compile pattern text into a `Pattern`.
///
/// Returns `ParseError` exactly on malformed text: an invalid token, no
/// token at all, or a pattern of nothing but wildcards.
pub fn compile_pattern(text: &[u8]) -> (r: Result<Pattern, ScanError>)
    ensures
        match r {
            Ok(p) => valid_pattern_text(text@) && p@ == matchers_of(tokens_of(text@)) && p.wf(),
            Err(e) => e == ScanError::ParseError && !valid_pattern_text(text@),
        },
{
    let n = text.len();
    let mut ms: Vec<Matcher> = Vec::new();
    let mut saw_exact = false;
    let mut i: usize = 0;
    let ghost mut done: Seq<Seq<u8>> = Seq::empty();

    while i < n
        invariant
            n == text@.len(),
            0 <= i <= n,
            tokens_of(text@) == done + tokens_from(text@, i as int),
            ms@ == matchers_of(done),
            all_tokens_valid(done),
            saw_exact == has_exact_token(done),
        decreases n - i,
    {
        if text[i] == 0x20 {
            i = i + 1;
        } else {
            let ghost prev_done = done;
            let start = i;
            while i < n && text[i] != 0x20
                invariant
                    n == text@.len(),
                    start <= i <= n,
                    tok_end(text@, start as int) == tok_end(text@, i as int),
                decreases n - i,
            {
                i = i + 1;
            }
            proof {
                // the inner loop stopped at a space or the end, so tok_end is i
                assert(tok_end(text@, i as int) == i as int);
            }
            let ghost tok = text@.subrange(start as int, i as int);
            proof {
                assert(tokens_from(text@, start as int) =~= seq![tok] + tokens_from(
                    text@,
                    i as int,
                ));
            }
            let len = i - start;
            let m: Matcher;
            if len == 1 && text[start] == 0x3f {
                m = Matcher::Wildcard;
            } else if len == 2 && text[start] == 0x3f && text[start + 1] == 0x3f {
                m = Matcher::Wildcard;
            } else if len == 2 {
                let hi = hex_digit_val(text[start]);
                let lo = hex_digit_val(text[start + 1]);
                match (hi, lo) {
                    (Some(h), Some(l)) => {
                        m = Matcher::Exact(16 * h + l);
                        saw_exact = true;
                    },
                    _ => {
                        proof {
                            lemma_invalid_token_rejects(text@, done, tok, i as int);
                        }
                        return Err(ScanError::ParseError);
                    },
                }
            } else {
                proof {
                    lemma_invalid_token_rejects(text@, done, tok, i as int);
                }
                return Err(ScanError::ParseError);
            }
            proof {
                assert(is_valid_token(tok));
                assert(token_matcher(tok) == m);
                done = done + seq![tok];
                assert(matchers_of(done) =~= matchers_of(prev_done) + seq![m]);
                assert(tokens_of(text@) =~= done + tokens_from(text@, i as int));
                if is_exact_token(tok) {
                    assert(done[done.len() - 1] == tok);
                    assert(has_exact_token(done));
                } else {
                    assert(has_exact_token(done) == has_exact_token(prev_done)) by {
                        if has_exact_token(prev_done) {
                            let k = choose|k: int|
                                0 <= k < prev_done.len() && is_exact_token(
                                    #[trigger] prev_done[k],
                                );
                            assert(done[k] == prev_done[k]);
                        }
                        if has_exact_token(done) {
                            let k = choose|k: int|
                                0 <= k < done.len() && is_exact_token(#[trigger] done[k]);
                            if k < prev_done.len() {
                                assert(prev_done[k] == done[k]);
                            } else {
                                assert(done[k] == tok);
                            }
                        }
                    }
                }
            }
            ms.push(m);
        }
    }
    proof {
        assert(tokens_from(text@, n as int) =~= Seq::<Seq<u8>>::empty());
        assert(tokens_of(text@) =~= done);
    }
    if ms.len() == 0 {
        return Err(ScanError::ParseError);
    }
    if !saw_exact {
        return Err(ScanError::ParseError);
    }
    proof {
        let ts = tokens_of(text@);
        let k = choose|k: int| 0 <= k < ts.len() && is_exact_token(#[trigger] ts[k]);
        assert(matchers_of(ts)[k] is Exact);
    }
    Ok(Pattern { matchers: ms })
}

/// If the token starting the remaining text is invalid, the whole text is
/// invalid.
proof fn lemma_invalid_token_rejects(s: Seq<u8>, done: Seq<Seq<u8>>, tok: Seq<u8>, e: int)
    requires
        tokens_of(s) == done + (seq![tok] + tokens_from(s, e)),
        !is_valid_token(tok),
    ensures
        !valid_pattern_text(s),
{
    let ts = tokens_of(s);
    assert(ts[done.len() as int] == tok);
}

} // verus!
