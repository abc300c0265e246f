//! Laws relating extraction and patching.
//!
//! Proved here: a file without a directive is left byte-identical by the
//! patcher; the value the patcher writes is exactly the extracted digit
//! run, digit for digit; and patching twice with the same value gives the
//! same bytes as patching once.

use vstd::prelude::*;

use crate::directive::{
    digits_at, digits_end, digits_start, eq_pos, extracted_limit, first_directive_from,
    has_directive_at, is_digit_byte, is_digit_run, key_at, key_byte_at, key_seq,
    lemma_directive_bounds, lemma_skip_digits, lemma_skip_spaces, match_end, quote_pos,
    skip_digits, skip_spaces, EQUALS, QUOTE, SPACE,
};
use crate::patch::{patched, patched_from, replacement};

verus! {

// --- first_directive_from as the leftmost directive ---

/// A found first directive is a directive, and nothing before it is one.
pub proof fn lemma_first_directive_some(s: Seq<u8>, i: int, m: int)
    requires
        0 <= i,
        first_directive_from(s, i) == Some(m),
    ensures
        i <= m < s.len(),
        has_directive_at(s, m),
        forall|p: int| i <= p < m ==> !has_directive_at(s, p),
    decreases s.len() - i,
{
    if i < s.len() && !has_directive_at(s, i) {
        lemma_first_directive_some(s, i + 1, m);
    }
}

/// When no first directive is found, no position holds one.
pub proof fn lemma_first_directive_none(s: Seq<u8>, i: int)
    requires
        0 <= i,
        first_directive_from(s, i) is None,
    ensures
        forall|p: int| i <= p ==> !has_directive_at(s, p),
    decreases s.len() - i,
{
    if i < s.len() {
        lemma_first_directive_none(s, i + 1);
    }
}

/// A directive preceded by none from `i` on is the first from `i`.
proof fn lemma_first_directive_found(s: Seq<u8>, i: int, m: int)
    requires
        0 <= i <= m < s.len(),
        has_directive_at(s, m),
        forall|p: int| i <= p < m ==> !has_directive_at(s, p),
    ensures
        first_directive_from(s, i) == Some(m),
    decreases m - i,
{
    if i < m {
        lemma_first_directive_found(s, i + 1, m);
    }
}

/// When nothing from `i` on is a directive, none is found from `i`.
proof fn lemma_first_directive_none_intro(s: Seq<u8>, i: int)
    requires
        0 <= i,
        forall|p: int| i <= p ==> !has_directive_at(s, p),
    ensures
        first_directive_from(s, i) is None,
    decreases s.len() - i,
{
    if i < s.len() {
        lemma_first_directive_none_intro(s, i + 1);
    }
}

/// An extracted limit is a nonempty run of decimal digits.
pub proof fn lemma_extracted_digits(stderr: Seq<u8>, d: Seq<u8>)
    requires
        extracted_limit(stderr) == Some(d),
    ensures
        d.len() >= 1,
        is_digit_run(d),
{
    match first_directive_from(stderr, 0) {
        Some(m) => {
            lemma_first_directive_some(stderr, 0, m);
            lemma_directive_bounds(stderr, m);
            lemma_skip_digits(stderr, digits_start(stderr, m));
            assert(d =~= digits_at(stderr, m));
            assert forall|t: int| 0 <= t < d.len() implies is_digit_byte(d[t]) by {
                assert(d[t] == stderr[digits_start(stderr, m) + t]);
            }
        },
        None => {
            assert(false);
        },
    }
}

// --- directive matching looks only forward: shifting off a prefix ---

proof fn lemma_skip_spaces_shift(a: Seq<u8>, b: Seq<u8>, j: int)
    requires
        0 <= j <= b.len(),
    ensures
        skip_spaces(a + b, a.len() + j) == a.len() + skip_spaces(b, j),
    decreases b.len() - j,
{
    if j < b.len() && b[j] == SPACE {
        assert((a + b)[a.len() + j] == b[j]);
        lemma_skip_spaces_shift(a, b, j + 1);
    }
}

proof fn lemma_skip_digits_shift(a: Seq<u8>, b: Seq<u8>, j: int)
    requires
        0 <= j <= b.len(),
    ensures
        skip_digits(a + b, a.len() + j) == a.len() + skip_digits(b, j),
    decreases b.len() - j,
{
    if j < b.len() && is_digit_byte(b[j]) {
        assert((a + b)[a.len() + j] == b[j]);
        lemma_skip_digits_shift(a, b, j + 1);
    }
}

/// A directive in `a + b` at a position inside `b` is a directive in `b`,
/// with all its positions shifted by `a.len()`.
proof fn lemma_directive_shift(a: Seq<u8>, b: Seq<u8>, j: int)
    requires
        0 <= j <= b.len(),
    ensures
        has_directive_at(a + b, a.len() + j) == has_directive_at(b, j),
        has_directive_at(b, j) ==> digits_start(a + b, a.len() + j) == a.len() + digits_start(
            b,
            j,
        ),
        has_directive_at(b, j) ==> digits_end(a + b, a.len() + j) == a.len() + digits_end(b, j),
        has_directive_at(b, j) ==> match_end(a + b, a.len() + j) == a.len() + match_end(b, j),
        has_directive_at(b, j) ==> digits_at(a + b, a.len() + j) == digits_at(b, j),
{
    let o = a + b;
    if j + 17 > b.len() {
        assert(!key_at(b, j));
        assert(!key_at(o, a.len() + j));
    } else {
        assert(key_at(o, a.len() + j) == key_at(b, j)) by {
            if key_at(b, j) {
                assert forall|t: int| 0 <= t < 17 implies o[a.len() + j + t] == key_byte_at(t) by {
                    assert(o[a.len() + j + t] == b[j + t]);
                }
            }
            if key_at(o, a.len() + j) {
                assert forall|t: int| 0 <= t < 17 implies b[j + t] == key_byte_at(t) by {
                    assert(o[a.len() + j + t] == b[j + t]);
                }
            }
        }
        if key_at(b, j) {
            lemma_skip_spaces_shift(a, b, j + 17);
            lemma_skip_spaces(b, j + 17);
            let e = eq_pos(b, j);
            assert(eq_pos(o, a.len() + j) == a.len() + e);
            if e < b.len() {
                assert(o[a.len() + e] == b[e]);
            }
            if e < b.len() && b[e] == EQUALS {
                lemma_skip_spaces_shift(a, b, e + 1);
                lemma_skip_spaces(b, e + 1);
                let q = quote_pos(b, j);
                assert(quote_pos(o, a.len() + j) == a.len() + q);
                if q < b.len() {
                    assert(o[a.len() + q] == b[q]);
                }
                if q < b.len() && b[q] == QUOTE {
                    lemma_skip_digits_shift(a, b, q + 1);
                    lemma_skip_digits(b, q + 1);
                    let de = digits_end(b, j);
                    assert(digits_end(o, a.len() + j) == a.len() + de);
                    if de < b.len() {
                        assert(o[a.len() + de] == b[de]);
                    }
                    if has_directive_at(b, j) {
                        assert(digits_at(o, a.len() + j) =~= digits_at(b, j));
                    }
                }
            }
        }
    }
}

/// Patching from a position inside `b` ignores the prefix `a`.
proof fn lemma_patched_from_shift(a: Seq<u8>, b: Seq<u8>, d: Seq<u8>, j: int)
    requires
        0 <= j <= b.len(),
    ensures
        patched_from(a + b, d, a.len() + j) == patched_from(b, d, j),
    decreases b.len() - j,
{
    lemma_directive_shift(a, b, j);
    if j == b.len() {
    } else if has_directive_at(b, j) {
        lemma_directive_bounds(b, j);
        lemma_patched_from_shift(a, b, d, match_end(b, j));
    } else {
        assert((a + b)[a.len() + j] == b[j]);
        lemma_patched_from_shift(a, b, d, j + 1);
    }
}

// --- a run with no directive is copied unchanged ---

proof fn lemma_patched_copy_run(s: Seq<u8>, d: Seq<u8>, i: int, m: int)
    requires
        0 <= i <= m <= s.len(),
        forall|p: int| i <= p < m ==> !has_directive_at(s, p),
    ensures
        patched_from(s, d, i) == s.subrange(i, m) + patched_from(s, d, m),
    decreases m - i,
{
    if i < m {
        lemma_patched_copy_run(s, d, i + 1, m);
        assert(patched_from(s, d, i) =~= s.subrange(i, m) + patched_from(s, d, m));
    } else {
        assert(patched_from(s, d, i) =~= s.subrange(i, m) + patched_from(s, d, m));
    }
}

// --- the text the patcher writes is itself a directive, value exactly d ---

proof fn lemma_skip_digits_run(s: Seq<u8>, j: int, e: int)
    requires
        0 <= j <= e <= s.len(),
        forall|t: int| j <= t < e ==> is_digit_byte(s[t]),
        e < s.len() ==> !is_digit_byte(s[e]),
    ensures
        skip_digits(s, j) == e,
    decreases e - j,
{
    if j < e {
        lemma_skip_digits_run(s, j + 1, e);
    }
}

/// No byte of the directive key is a space, an equals sign, a quote or a
/// digit.
proof fn lemma_key_bytes(t: int)
    ensures
        key_byte_at(t) != SPACE,
        key_byte_at(t) != EQUALS,
        key_byte_at(t) != QUOTE,
        !is_digit_byte(key_byte_at(t)),
{
}

/// The replacement text, wherever it stands, begins a directive whose
/// digit run is exactly `d`; the match spans the whole replacement.
proof fn lemma_replacement_directive(d: Seq<u8>, rest: Seq<u8>)
    requires
        d.len() >= 1,
        is_digit_run(d),
    ensures
        has_directive_at(replacement(d) + rest, 0),
        digits_start(replacement(d) + rest, 0) == 21,
        digits_end(replacement(d) + rest, 0) == 21 + d.len(),
        digits_at(replacement(d) + rest, 0) == d,
        match_end(replacement(d) + rest, 0) == replacement(d).len(),
{
    let o = replacement(d) + rest;
    let n = d.len() as int;
    assert(replacement(d).len() == 22 + n);
    assert forall|t: int| 0 <= t < 17 implies o[t] == key_byte_at(t) by {
        assert(o[t] == key_seq()[t]);
    }
    assert(key_at(o, 0));
    assert(o[17] == SPACE);
    assert(o[18] == EQUALS);
    assert(o[19] == SPACE);
    assert(o[20] == QUOTE);
    assert forall|t: int| 21 <= t < 21 + n implies is_digit_byte(o[t]) by {
        assert(o[t] == d[t - 21]);
    }
    assert(o[21 + n] == QUOTE);
    assert(skip_spaces(o, 18) == 18);
    assert(skip_spaces(o, 17) == 18);
    assert(eq_pos(o, 0) == 18);
    assert(skip_spaces(o, 20) == 20);
    assert(skip_spaces(o, 19) == 20);
    assert(quote_pos(o, 0) == 20);
    lemma_skip_digits_run(o, 21, 21 + n);
    assert(digits_end(o, 0) == 21 + n);
    assert(digits_at(o, 0) =~= d);
}

// --- no directive begins in copied text short of the next real one ---

proof fn lemma_skip_spaces_agree(u: Seq<u8>, v: Seq<u8>, j: int, k: int)
    requires
        0 <= j <= k,
        k < u.len(),
        k < v.len(),
        forall|t: int| j <= t <= k ==> u[t] == v[t],
        u[k] != SPACE,
    ensures
        skip_spaces(u, j) == skip_spaces(v, j),
        skip_spaces(u, j) <= k,
    decreases k - j,
{
    if u[j] == SPACE {
        lemma_skip_spaces_agree(u, v, j + 1, k);
    }
}

proof fn lemma_skip_digits_agree(u: Seq<u8>, v: Seq<u8>, j: int, k: int)
    requires
        0 <= j <= k,
        k < u.len(),
        k < v.len(),
        forall|t: int| j <= t <= k ==> u[t] == v[t],
        !is_digit_byte(u[k]),
    ensures
        skip_digits(u, j) == skip_digits(v, j),
        skip_digits(u, j) <= k,
    decreases k - j,
{
    if is_digit_byte(u[j]) {
        lemma_skip_digits_agree(u, v, j + 1, k);
    }
}

/// Two texts that agree up to a key-initial byte at `k` agree on whether a
/// directive starts at 0: the whole decision stays left of `k`, because
/// the key's first byte can stand nowhere in a directive after its key.
proof fn lemma_directive_agree(u: Seq<u8>, v: Seq<u8>, k: int)
    requires
        17 <= k,
        k < u.len(),
        k < v.len(),
        forall|t: int| 0 <= t <= k ==> u[t] == v[t],
        u[k] == key_byte_at(0),
    ensures
        has_directive_at(u, 0) == has_directive_at(v, 0),
{
    lemma_key_bytes(0);
    assert(key_at(u, 0) == key_at(v, 0)) by {
        if key_at(u, 0) {
            assert forall|t: int| 0 <= t < 17 implies v[t] == key_byte_at(t) by {
                assert(u[t] == v[t]);
            }
        }
        if key_at(v, 0) {
            assert forall|t: int| 0 <= t < 17 implies u[t] == key_byte_at(t) by {
                assert(u[t] == v[t]);
            }
        }
    }
    if key_at(u, 0) {
        lemma_skip_spaces_agree(u, v, 17, k);
        lemma_skip_spaces(u, 17);
        let e = eq_pos(u, 0);
        assert(eq_pos(v, 0) == e);
        assert(17 <= e <= k);
        assert(u[e] == v[e]);
        if u[e] == EQUALS {
            assert(e < k);
            lemma_skip_spaces_agree(u, v, e + 1, k);
            lemma_skip_spaces(u, e + 1);
            let q = quote_pos(u, 0);
            assert(quote_pos(v, 0) == q);
            assert(e < q <= k);
            assert(u[q] == v[q]);
            if u[q] == QUOTE {
                assert(q < k);
                lemma_skip_digits_agree(u, v, q + 1, k);
                lemma_skip_digits(u, q + 1);
                let de = digits_end(u, 0);
                assert(digits_end(v, 0) == de);
                assert(q < de <= k);
                assert(u[de] == v[de]);
            }
        }
    }
}

/// Copied original bytes followed by replacement text begin no directive:
/// the original held none there, and the replacement's own first bytes are
/// the key's, whose letters can stand nowhere in a directive after its key.
proof fn lemma_no_directive_in_copy(s: Seq<u8>, i: int, m: int, tail: Seq<u8>)
    requires
        0 <= i < m < s.len(),
        !has_directive_at(s, i),
        s[m] == key_byte_at(0),
        tail.len() >= 17,
        forall|j: int| 0 <= j < 17 ==> tail[j] == key_byte_at(j),
    ensures
        !has_directive_at(s.subrange(i, m) + tail, 0),
{
    let o = s.subrange(i, m) + tail;
    let k = m - i;
    if k >= 17 {
        let v = s.subrange(i, s.len() as int);
        assert forall|t: int| 0 <= t <= k implies o[t] == v[t] by {
            if t < k {
                assert(o[t] == s[i + t]);
                assert(v[t] == s[i + t]);
            } else {
                assert(o[k] == tail[0]);
                assert(v[k] == s[m]);
            }
        }
        lemma_directive_agree(o, v, k);
        assert(s.subrange(0, i) + v =~= s);
        lemma_directive_shift(s.subrange(0, i), v, 0);
        assert(!has_directive_at(v, 0));
    } else {
        if key_at(o, 0) {
            assert(o[17] == tail[17 - k]);
            assert(o[17] == key_byte_at(17 - k));
            lemma_key_bytes(17 - k);
            assert(skip_spaces(o, 17) == 17);
            assert(o[eq_pos(o, 0)] != EQUALS);
        }
    }
}

/// No directive begins strictly inside the replacement text: past its key,
/// the replacement holds only spaces, `=`, quotes and digits, and the key
/// cannot overlap itself there.
proof fn lemma_no_directive_inside_replacement(d: Seq<u8>, rest: Seq<u8>, p: int)
    requires
        d.len() >= 1,
        is_digit_run(d),
        1 <= p < replacement(d).len(),
    ensures
        !has_directive_at(replacement(d) + rest, p),
{
    let o = replacement(d) + rest;
    let n = d.len() as int;
    assert(replacement(d).len() == 22 + n);
    assert forall|t: int| 0 <= t < 17 implies o[t] == key_byte_at(t) by {
        assert(o[t] == key_seq()[t]);
    }
    assert(o[17] == SPACE);
    assert(o[18] == EQUALS);
    assert(o[19] == SPACE);
    assert(o[20] == QUOTE);
    assert forall|t: int| 21 <= t < 21 + n implies is_digit_byte(o[t]) by {
        assert(o[t] == d[t - 21]);
    }
    assert(o[21 + n] == QUOTE);
    if key_at(o, p) {
        if p <= 16 {
            // the key would have to repeat the space at offset 17 of the
            // replacement, and it holds no space
            assert(o[p + (17 - p)] == key_byte_at(17 - p));
            lemma_key_bytes(17 - p);
            assert(false);
        } else {
            // every byte past the key is a space, `=`, a quote or a digit,
            // never the key's first byte
            assert(o[p + 0] == key_byte_at(0));
            lemma_key_bytes(0);
            assert(false);
        }
    }
}

/// Every directive standing anywhere in the patched text carries exactly
/// the digit run `d`.
proof fn lemma_all_directives_from(s: Seq<u8>, d: Seq<u8>, i: int, p: int)
    requires
        0 <= i <= s.len(),
        d.len() >= 1,
        is_digit_run(d),
        has_directive_at(patched_from(s, d, i), p),
    ensures
        digits_at(patched_from(s, d, i), p) == d,
    decreases s.len() - i,
{
    let o = patched_from(s, d, i);
    assert(0 <= p && p + 17 <= o.len());
    match first_directive_from(s, i) {
        None => {
            lemma_first_directive_none(s, i);
            lemma_patched_from_no_match(s, d, i);
            assert(s.subrange(0, i) + o =~= s);
            lemma_directive_shift(s.subrange(0, i), o, p);
            assert(false);
        },
        Some(m) => {
            lemma_first_directive_some(s, i, m);
            lemma_directive_bounds(s, m);
            let k = m - i;
            let n = d.len() as int;
            let tail = patched_from(s, d, m);
            let rest2 = patched_from(s, d, match_end(s, m));
            assert(tail == replacement(d) + rest2);
            lemma_patched_copy_run(s, d, i, m);
            assert(o == s.subrange(i, m) + tail);
            assert forall|j: int| 0 <= j < 17 implies tail[j] == key_byte_at(j) by {
                assert(tail[j] == replacement(d)[j]);
                assert(replacement(d)[j] == key_seq()[j]);
            }
            assert(s[m] == key_byte_at(0)) by {
                assert(s[m + 0] == key_byte_at(0));
            }
            if p < k {
                let u = s.subrange(i + p, m) + tail;
                assert(o.subrange(0, p) + u =~= o);
                lemma_directive_shift(o.subrange(0, p), u, 0);
                lemma_no_directive_in_copy(s, i + p, m, tail);
                assert(false);
            } else if p == k {
                lemma_replacement_directive(d, rest2);
                lemma_directive_shift(s.subrange(i, m), tail, 0);
                assert(digits_at(o, p) == d);
            } else if p < k + 22 + n {
                lemma_directive_shift(s.subrange(i, m), tail, p - k);
                lemma_no_directive_inside_replacement(d, rest2, p - k);
                assert(false);
            } else {
                let front = o.subrange(0, k + 22 + n);
                assert(front + rest2 =~= o);
                lemma_directive_shift(front, rest2, p - (k + 22 + n));
                lemma_all_directives_from(s, d, match_end(s, m), p - (k + 22 + n));
            }
        },
    }
}

/// Law: after a patch with the digit run `d`, every directive in the file
/// carries exactly `d`, digit for digit.
pub proof fn lemma_patched_directives_all_carry_value(s: Seq<u8>, d: Seq<u8>)
    requires
        d.len() >= 1,
        is_digit_run(d),
    ensures
        forall|p: int|
            has_directive_at(patched(s, d), p) ==> digits_at(patched(s, d), p) == d,
{
    assert forall|p: int|
        has_directive_at(patched(s, d), p) implies digits_at(patched(s, d), p) == d by {
        lemma_all_directives_from(s, d, 0, p);
    }
}

// --- the idempotence law and the exact-value law ---

proof fn lemma_idempotent_from(s: Seq<u8>, d: Seq<u8>, i: int)
    requires
        0 <= i <= s.len(),
        d.len() >= 1,
        is_digit_run(d),
    ensures
        patched_from(patched_from(s, d, i), d, 0) == patched_from(s, d, i),
    decreases s.len() - i,
{
    let o = patched_from(s, d, i);
    match first_directive_from(s, i) {
        None => {
            lemma_first_directive_none(s, i);
            lemma_patched_from_no_match(s, d, i);
            assert forall|p: int| 0 <= p implies !has_directive_at(o, p) by {
                if p < o.len() {
                    assert(s.subrange(0, i) + o =~= s);
                    lemma_directive_shift(s.subrange(0, i), o, p);
                }
            }
            lemma_first_directive_none_intro(o, 0);
            lemma_patched_from_no_match(o, d, 0);
            assert(patched_from(o, d, 0) =~= o);
        },
        Some(m) => {
            lemma_first_directive_some(s, i, m);
            lemma_directive_bounds(s, m);
            let k = m - i;
            let n = d.len() as int;
            let tail = patched_from(s, d, m);
            let rest2 = patched_from(s, d, match_end(s, m));
            assert(tail == replacement(d) + rest2);
            lemma_patched_copy_run(s, d, i, m);
            assert(o == s.subrange(i, m) + tail);
            assert forall|j: int| 0 <= j < 17 implies tail[j] == key_byte_at(j) by {
                assert(tail[j] == replacement(d)[j]);
                assert(replacement(d)[j] == key_seq()[j]);
            }
            assert(s[m] == key_byte_at(0)) by {
                assert(s[m + 0] == key_byte_at(0));
            }
            assert forall|p: int| 0 <= p < k implies !has_directive_at(o, p) by {
                let u = s.subrange(i + p, m) + tail;
                assert(o.subrange(0, p) + u =~= o);
                lemma_directive_shift(o.subrange(0, p), u, 0);
                lemma_no_directive_in_copy(s, i + p, m, tail);
            }
            lemma_replacement_directive(d, rest2);
            lemma_directive_shift(s.subrange(i, m), tail, 0);
            assert(has_directive_at(o, k));
            assert(match_end(o, k) == k + 22 + n);
            lemma_patched_copy_run(o, d, 0, k);
            assert(patched_from(o, d, k) == replacement(d) + patched_from(o, d, k + 22 + n));
            assert(o.subrange(0, k + 22 + n) + rest2 =~= o);
            lemma_patched_from_shift(o.subrange(0, k + 22 + n), rest2, d, 0);
            assert(patched_from(o, d, k + 22 + n) == patched_from(rest2, d, 0));
            lemma_idempotent_from(s, d, match_end(s, m));
            assert(patched_from(o, d, 0) =~= o);
        },
    }
}

/// Law: patching twice with the same value leaves the bytes exactly as one
/// patching does.
pub proof fn lemma_patch_idempotent(s: Seq<u8>, d: Seq<u8>)
    requires
        d.len() >= 1,
        is_digit_run(d),
    ensures
        patched(patched(s, d), d) == patched(s, d),
{
    lemma_idempotent_from(s, d, 0);
}

proof fn lemma_extract_after_patch(s: Seq<u8>, d: Seq<u8>, m: int)
    requires
        first_directive_from(s, 0) == Some(m),
        d.len() >= 1,
        is_digit_run(d),
    ensures
        extracted_limit(patched(s, d)) == Some(d),
{
    lemma_first_directive_some(s, 0, m);
    lemma_directive_bounds(s, m);
    let o = patched(s, d);
    let n = d.len() as int;
    let tail = patched_from(s, d, m);
    let rest2 = patched_from(s, d, match_end(s, m));
    assert(tail == replacement(d) + rest2);
    lemma_patched_copy_run(s, d, 0, m);
    assert(o == s.subrange(0, m) + tail);
    assert forall|j: int| 0 <= j < 17 implies tail[j] == key_byte_at(j) by {
        assert(tail[j] == replacement(d)[j]);
        assert(replacement(d)[j] == key_seq()[j]);
    }
    assert(s[m] == key_byte_at(0)) by {
        assert(s[m + 0] == key_byte_at(0));
    }
    assert forall|p: int| 0 <= p < m implies !has_directive_at(o, p) by {
        let u = s.subrange(p, m) + tail;
        assert(o.subrange(0, p) + u =~= o);
        lemma_directive_shift(o.subrange(0, p), u, 0);
        lemma_no_directive_in_copy(s, p, m, tail);
    }
    lemma_replacement_directive(d, rest2);
    lemma_directive_shift(s.subrange(0, m), tail, 0);
    assert(has_directive_at(o, m));
    assert(digits_at(o, m) == d);
    assert(m < o.len());
    lemma_first_directive_found(o, 0, m);
}

/// Law: the value standing in the patched file's directive is exactly the
/// digit run extracted from the diagnostic, byte for byte.
pub proof fn lemma_patched_value_is_extracted(stderr: Seq<u8>, file: Seq<u8>, d: Seq<u8>)
    requires
        extracted_limit(stderr) == Some(d),
        first_directive_from(file, 0) is Some,
    ensures
        extracted_limit(patched(file, d)) == Some(d),
{
    lemma_extracted_digits(stderr, d);
    match first_directive_from(file, 0) {
        Some(m) => {
            lemma_extract_after_patch(file, d, m);
        },
        None => {
            assert(false);
        },
    }
}

// --- the no-op law: a file without a directive is untouched ---

proof fn lemma_patched_from_no_match(s: Seq<u8>, d: Seq<u8>, i: int)
    requires
        0 <= i <= s.len(),
        forall|p: int| i <= p ==> !has_directive_at(s, p),
    ensures
        patched_from(s, d, i) == s.subrange(i, s.len() as int),
    decreases s.len() - i,
{
    if i < s.len() {
        lemma_patched_from_no_match(s, d, i + 1);
        assert(patched_from(s, d, i) =~= s.subrange(i, s.len() as int));
    } else {
        assert(patched_from(s, d, i) =~= s.subrange(i, s.len() as int));
    }
}

/// Law: patching a file that holds no directive leaves its bytes exactly
/// as they were.
pub proof fn lemma_patch_without_directive_is_noop(s: Seq<u8>, d: Seq<u8>)
    requires
        first_directive_from(s, 0) is None,
    ensures
        patched(s, d) == s,
{
    lemma_first_directive_none(s, 0);
    lemma_patched_from_no_match(s, d, 0);
    assert(s.subrange(0, s.len() as int) =~= s);
}

} // verus!
