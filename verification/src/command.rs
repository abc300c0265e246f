//! Splitting a build command line into its tokens.
//!
//! The command is given as one string; the program name and its arguments
//! are the fields between single spaces. Splitting keeps empty fields, as
//! splitting on a single-byte separator does: two spaces in a row yield an
//! empty token, and the whole of an empty command line is one empty token.

use vstd::prelude::*;

verus! {

/// The position of the first space at or after `i`, or the end of `s`.
pub open spec fn token_end(s: Seq<u8>, i: int) -> int
    decreases s.len() - i,
{
    if 0 <= i < s.len() && s[i] != crate::directive::SPACE {
        token_end(s, i + 1)
    } else {
        i
    }
}

/// The tokens of `s` from position `i` on, split on single spaces.
pub open spec fn split_from(s: Seq<u8>, i: int) -> Seq<Seq<u8>>
    decreases s.len() - i,
        via split_from_decreases
{
    if i < 0 || i > s.len() {
        Seq::empty()
    } else {
        let j = token_end(s, i);
        if j < s.len() {
            seq![s.subrange(i, j)] + split_from(s, j + 1)
        } else {
            seq![s.subrange(i, s.len() as int)]
        }
    }
}

#[via_fn]
proof fn split_from_decreases(s: Seq<u8>, i: int) {
    if 0 <= i <= s.len() {
        lemma_token_end(s, i);
    }
}

/// All the tokens of `s`.
pub open spec fn split_all(s: Seq<u8>) -> Seq<Seq<u8>> {
    split_from(s, 0)
}

proof fn lemma_token_end(s: Seq<u8>, i: int)
    requires
        0 <= i <= s.len(),
    ensures
        i <= token_end(s, i) <= s.len(),
        forall|t: int| i <= t < token_end(s, i) ==> s[t] != crate::directive::SPACE,
        token_end(s, i) < s.len() ==> s[token_end(s, i)] == crate::directive::SPACE,
    decreases s.len() - i,
{
    if i < s.len() && s[i] != crate::directive::SPACE {
        lemma_token_end(s, i + 1);
    }
}

/// Split a command line on single spaces. At least one token always comes
/// back; the first is the program to run, the rest are its arguments.
pub fn split_tokens(s: &Vec<u8>) -> (r: Vec<Vec<u8>>)
    ensures
        r@.map_values(|v: Vec<u8>| v@) == split_all(s@),
        r.len() >= 1,
{
    let ghost all: Seq<Seq<u8>> = split_all(s@);
    let mut r: Vec<Vec<u8>> = Vec::new();
    let mut i: usize = 0;
    let mut done = false;
    while !done
        invariant
            i <= s.len(),
            !done ==> all == r@.map_values(|v: Vec<u8>| v@) + split_from(s@, i as int),
            done ==> all == r@.map_values(|v: Vec<u8>| v@),
            done ==> r.len() >= 1,
        decreases s.len() - i + (if done { 0int } else { 1int }),
    {
        let mut j = i;
        while j < s.len() && s[j] != crate::directive::SPACE
            invariant
                i <= j <= s.len(),
                token_end(s@, i as int) == token_end(s@, j as int),
            decreases s.len() - j,
        {
            j += 1;
        }
        proof {
            assert(token_end(s@, i as int) == j);
        }
        let mut tok: Vec<u8> = Vec::new();
        let mut k = i;
        while k < j
            invariant
                i <= k <= j,
                j <= s.len(),
                tok@ == s@.subrange(i as int, k as int),
            decreases j - k,
        {
            tok.push(s[k]);
            proof {
                assert(tok@ =~= s@.subrange(i as int, k + 1));
            }
            k += 1;
        }
        let ghost r_old: Seq<Seq<u8>> = r@.map_values(|v: Vec<u8>| v@);
        r.push(tok);
        proof {
            assert(r@.map_values(|v: Vec<u8>| v@) =~= r_old + seq![s@.subrange(i as int, j as int)]);
        }
        if j < s.len() {
            proof {
                assert(split_from(s@, i as int) == seq![s@.subrange(i as int, j as int)]
                    + split_from(s@, j + 1));
                assert(all =~= r@.map_values(|v: Vec<u8>| v@) + split_from(s@, j + 1));
            }
            i = j + 1;
        } else {
            proof {
                assert(split_from(s@, i as int) == seq![s@.subrange(i as int, s@.len() as int)]);
                assert(all =~= r@.map_values(|v: Vec<u8>| v@));
            }
            done = true;
        }
    }
    r
}

} // verus!
