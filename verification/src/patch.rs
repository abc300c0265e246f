//! Rewriting the limit directive in a source file.
//!
//! The patcher scans the file's bytes left to right; wherever a directive
//! starts it emits a freshly formatted directive carrying the new digit run
//! and continues one byte past the old directive's closing quote; every
//! other byte is copied unchanged. The file is never created and nothing is
//! appended: a file without a directive comes back byte-identical.

use vstd::prelude::*;

use crate::directive::{
    directive_digits_at, has_directive_at, key_byte, key_seq, lemma_directive_bounds, match_end,
    EQUALS, QUOTE, SPACE,
};

verus! {

/// The directive text the patcher writes: the key, one space each side of
/// `=`, and the digit run `d` in quotes.
pub open spec fn replacement(d: Seq<u8>) -> Seq<u8> {
    key_seq() + seq![SPACE, EQUALS, SPACE, QUOTE] + d + seq![QUOTE]
}

/// The patched tail of `s` from position `i` on: directives are replaced,
/// all other bytes copied.
pub open spec fn patched_from(s: Seq<u8>, d: Seq<u8>, i: int) -> Seq<u8>
    decreases s.len() - i,
        via patched_from_decreases
{
    if i < 0 || i >= s.len() {
        Seq::empty()
    } else if has_directive_at(s, i) {
        replacement(d) + patched_from(s, d, match_end(s, i))
    } else {
        seq![s[i]] + patched_from(s, d, i + 1)
    }
}

#[via_fn]
proof fn patched_from_decreases(s: Seq<u8>, d: Seq<u8>, i: int) {
    if 0 <= i < s.len() && has_directive_at(s, i) {
        lemma_directive_bounds(s, i);
    }
}

/// The whole of `s` with every directive's value replaced by `d`.
pub open spec fn patched(s: Seq<u8>, d: Seq<u8>) -> Seq<u8> {
    patched_from(s, d, 0)
}

fn push_key(out: &mut Vec<u8>)
    ensures
        final(out)@ == old(out)@ + key_seq(),
{
    let ghost orig: Seq<u8> = out@;
    let mut t: usize = 0;
    while t < 17
        invariant
            t <= 17,
            out@ == orig + key_seq().take(t as int),
        decreases 17 - t,
    {
        out.push(key_byte(t));
        proof {
            assert(out@ =~= orig + key_seq().take(t + 1));
        }
        t += 1;
    }
    proof {
        assert(out@ =~= orig + key_seq());
    }
}

fn push_replacement(out: &mut Vec<u8>, d: &Vec<u8>)
    ensures
        final(out)@ == old(out)@ + replacement(d@),
{
    let ghost orig: Seq<u8> = out@;
    push_key(out);
    out.push(SPACE);
    out.push(EQUALS);
    out.push(SPACE);
    out.push(QUOTE);
    let ghost mid: Seq<u8> = out@;
    let mut j: usize = 0;
    while j < d.len()
        invariant
            j <= d.len(),
            out@ == mid + d@.take(j as int),
        decreases d.len() - j,
    {
        out.push(d[j]);
        proof {
            assert(out@ =~= mid + d@.take(j + 1));
        }
        j += 1;
    }
    out.push(QUOTE);
    proof {
        assert(d@.take(d@.len() as int) =~= d@);
        assert(out@ =~= orig + replacement(d@));
    }
}

/// Rewrite every directive in `src` to carry the digit run `new_limit`,
/// leaving all surrounding bytes unchanged.
pub fn patch_limit(src: &Vec<u8>, new_limit: &Vec<u8>) -> (out: Vec<u8>)
    ensures
        out@ == patched(src@, new_limit@),
{
    let mut out: Vec<u8> = Vec::new();
    let mut i: usize = 0;
    while i < src.len()
        invariant
            i <= src.len(),
            patched(src@, new_limit@) == out@ + patched_from(src@, new_limit@, i as int),
        decreases src.len() - i,
    {
        match directive_digits_at(src, i) {
            Some((_ds, de)) => {
                proof {
                    lemma_directive_bounds(src@, i as int);
                }
                let ghost before: Seq<u8> = out@;
                push_replacement(&mut out, new_limit);
                proof {
                    assert(patched_from(src@, new_limit@, i as int) == replacement(new_limit@)
                        + patched_from(src@, new_limit@, de + 1));
                    assert(before + patched_from(src@, new_limit@, i as int) =~= out@
                        + patched_from(src@, new_limit@, de + 1));
                }
                i = de + 1;
            },
            None => {
                let ghost before: Seq<u8> = out@;
                out.push(src[i]);
                proof {
                    assert(before + patched_from(src@, new_limit@, i as int) =~= out@
                        + patched_from(src@, new_limit@, i + 1));
                }
                i += 1;
            },
        }
    }
    proof {
        assert(out@ + patched_from(src@, new_limit@, i as int) =~= out@);
    }
    out
}

} // verus!
