//! The grammar of the limit directive and the extraction of a suggested
//! limit value from build error output.
//!
//! A directive is the literal key `type_length_limit`, any number of spaces,
//! `=`, any number of spaces, and a double-quoted nonempty run of decimal
//! digits. The same shape appears both in the source file being patched and
//! in the compiler diagnostic that suggests a new value, so one grammar
//! serves the extractor and the patcher.

use vstd::prelude::*;

verus! {

/// ASCII space.
pub const SPACE: u8 = 32;

/// ASCII `=`.
pub const EQUALS: u8 = 61;

/// ASCII `"`.
pub const QUOTE: u8 = 34;

/// ASCII `0`.
pub const DIGIT_LO: u8 = 48;

/// ASCII `9`.
pub const DIGIT_HI: u8 = 57;

/// The byte at offset `t` of the directive key `type_length_limit`.
pub open spec fn key_byte_at(t: int) -> u8 {
    if t == 0 {
        116
    } else if t == 1 {
        121
    } else if t == 2 {
        112
    } else if t == 3 {
        101
    } else if t == 4 {
        95
    } else if t == 5 {
        108
    } else if t == 6 {
        101
    } else if t == 7 {
        110
    } else if t == 8 {
        103
    } else if t == 9 {
        116
    } else if t == 10 {
        104
    } else if t == 11 {
        95
    } else if t == 12 {
        108
    } else if t == 13 {
        105
    } else if t == 14 {
        109
    } else if t == 15 {
        105
    } else {
        116
    }
}

/// The directive key as a byte sequence.
pub open spec fn key_seq() -> Seq<u8> {
    Seq::new(17, |t: int| key_byte_at(t))
}

pub open spec fn is_digit_byte(b: u8) -> bool {
    DIGIT_LO <= b && b <= DIGIT_HI
}

/// Every byte of `d` is a decimal digit: the shape of a limit value.
pub open spec fn is_digit_run(d: Seq<u8>) -> bool {
    forall|t: int| 0 <= t < d.len() ==> is_digit_byte(d[t])
}

/// The directive key occurs in `s` starting at position `i`.
pub open spec fn key_at(s: Seq<u8>, i: int) -> bool {
    &&& 0 <= i
    &&& i + 17 <= s.len()
    &&& forall|t: int| 0 <= t < 17 ==> s[i + t] == key_byte_at(t)
}

/// The first position at or after `i` holding no space, or the end of `s`.
pub open spec fn skip_spaces(s: Seq<u8>, i: int) -> int
    decreases s.len() - i,
{
    if 0 <= i < s.len() && s[i] == SPACE {
        skip_spaces(s, i + 1)
    } else {
        i
    }
}

/// The first position at or after `i` holding no decimal digit, or the end
/// of `s`.
pub open spec fn skip_digits(s: Seq<u8>, i: int) -> int
    decreases s.len() - i,
{
    if 0 <= i < s.len() && is_digit_byte(s[i]) {
        skip_digits(s, i + 1)
    } else {
        i
    }
}

/// Position of the byte required to be `=` in a directive starting at `i`.
pub open spec fn eq_pos(s: Seq<u8>, i: int) -> int {
    skip_spaces(s, i + 17)
}

/// Position of the byte required to be the opening quote.
pub open spec fn quote_pos(s: Seq<u8>, i: int) -> int {
    skip_spaces(s, eq_pos(s, i) + 1)
}

/// First position of the quoted digit run.
pub open spec fn digits_start(s: Seq<u8>, i: int) -> int {
    quote_pos(s, i) + 1
}

/// Position one past the quoted digit run; the closing quote must stand here.
pub open spec fn digits_end(s: Seq<u8>, i: int) -> int {
    skip_digits(s, digits_start(s, i))
}

/// A full directive occurs in `s` starting at position `i`.
pub open spec fn has_directive_at(s: Seq<u8>, i: int) -> bool {
    &&& key_at(s, i)
    &&& eq_pos(s, i) < s.len() && s[eq_pos(s, i)] == EQUALS
    &&& quote_pos(s, i) < s.len() && s[quote_pos(s, i)] == QUOTE
    &&& digits_end(s, i) > digits_start(s, i)
    &&& digits_end(s, i) < s.len() && s[digits_end(s, i)] == QUOTE
}

/// Position one past a directive that starts at `i` (past its closing quote).
pub open spec fn match_end(s: Seq<u8>, i: int) -> int {
    digits_end(s, i) + 1
}

/// The digit run of a directive that starts at `i`.
pub open spec fn digits_at(s: Seq<u8>, i: int) -> Seq<u8> {
    s.subrange(digits_start(s, i), digits_end(s, i))
}

/// The first position at or after `i` where a directive starts, if any.
pub open spec fn first_directive_from(s: Seq<u8>, i: int) -> Option<int>
    decreases s.len() - i,
{
    if i < 0 || i >= s.len() {
        None
    } else if has_directive_at(s, i) {
        Some(i)
    } else {
        first_directive_from(s, i + 1)
    }
}

/// The digit run of the first directive in `s`, if `s` holds one: the value
/// a diagnostic in `s` suggests.
pub open spec fn extracted_limit(s: Seq<u8>) -> Option<Seq<u8>> {
    match first_directive_from(s, 0) {
        Some(i) => Some(digits_at(s, i)),
        None => None,
    }
}

pub proof fn lemma_skip_spaces(s: Seq<u8>, i: int)
    requires
        0 <= i <= s.len(),
    ensures
        i <= skip_spaces(s, i) <= s.len(),
        forall|t: int| i <= t < skip_spaces(s, i) ==> s[t] == SPACE,
        skip_spaces(s, i) < s.len() ==> s[skip_spaces(s, i)] != SPACE,
    decreases s.len() - i,
{
    if i < s.len() && s[i] == SPACE {
        lemma_skip_spaces(s, i + 1);
    }
}

pub proof fn lemma_skip_digits(s: Seq<u8>, i: int)
    requires
        0 <= i <= s.len(),
    ensures
        i <= skip_digits(s, i) <= s.len(),
        forall|t: int| i <= t < skip_digits(s, i) ==> is_digit_byte(s[t]),
        skip_digits(s, i) < s.len() ==> !is_digit_byte(s[skip_digits(s, i)]),
    decreases s.len() - i,
{
    if i < s.len() && is_digit_byte(s[i]) {
        lemma_skip_digits(s, i + 1);
    }
}

/// The layout of a directive: its parts stand in order and the whole match
/// lies within `s`.
pub proof fn lemma_directive_bounds(s: Seq<u8>, i: int)
    requires
        has_directive_at(s, i),
    ensures
        0 <= i,
        i + 17 <= eq_pos(s, i),
        eq_pos(s, i) + 1 <= quote_pos(s, i),
        quote_pos(s, i) + 2 <= digits_end(s, i),
        digits_end(s, i) < s.len(),
        i + 21 <= match_end(s, i) <= s.len(),
{
    lemma_skip_spaces(s, i + 17);
    lemma_skip_spaces(s, eq_pos(s, i) + 1);
    lemma_skip_digits(s, digits_start(s, i));
}

pub(crate) fn key_byte(t: usize) -> (b: u8)
    requires
        t < 17,
    ensures
        b == key_byte_at(t as int),
{
    match t {
        0 => 116,
        1 => 121,
        2 => 112,
        3 => 101,
        4 => 95,
        5 => 108,
        6 => 101,
        7 => 110,
        8 => 103,
        9 => 116,
        10 => 104,
        11 => 95,
        12 => 108,
        13 => 105,
        14 => 109,
        15 => 105,
        _ => 116,
    }
}

fn check_key_at(s: &Vec<u8>, i: usize) -> (r: bool)
    requires
        i <= s.len(),
    ensures
        r == key_at(s@, i as int),
{
    if s.len() < 17 || i > s.len() - 17 {
        return false;
    }
    let mut t: usize = 0;
    while t < 17
        invariant
            t <= 17,
            i + 17 <= s.len(),
            forall|u: int| 0 <= u < t ==> s@[i + u] == key_byte_at(u),
        decreases 17 - t,
    {
        if s[i + t] != key_byte(t) {
            return false;
        }
        t += 1;
    }
    true
}

fn scan_spaces(s: &Vec<u8>, from: usize) -> (r: usize)
    requires
        from <= s.len(),
    ensures
        r == skip_spaces(s@, from as int),
        from <= r <= s.len(),
{
    let mut j = from;
    while j < s.len() && s[j] == SPACE
        invariant
            from <= j <= s.len(),
            skip_spaces(s@, from as int) == skip_spaces(s@, j as int),
        decreases s.len() - j,
    {
        j += 1;
    }
    j
}

fn scan_digits(s: &Vec<u8>, from: usize) -> (r: usize)
    requires
        from <= s.len(),
    ensures
        r == skip_digits(s@, from as int),
        from <= r <= s.len(),
{
    let mut j = from;
    while j < s.len() && DIGIT_LO <= s[j] && s[j] <= DIGIT_HI
        invariant
            from <= j <= s.len(),
            skip_digits(s@, from as int) == skip_digits(s@, j as int),
        decreases s.len() - j,
    {
        j += 1;
    }
    j
}

/// Whether a directive starts at position `i`, and if so where its digit
/// run stands: `Some((start, end))` bounds the digits, and the match ends
/// one byte past `end`.
pub fn directive_digits_at(s: &Vec<u8>, i: usize) -> (r: Option<(usize, usize)>)
    requires
        i <= s.len(),
    ensures
        r is Some <==> has_directive_at(s@, i as int),
        r matches Some(p) ==> p.0 == digits_start(s@, i as int) && p.1 == digits_end(
            s@,
            i as int,
        ),
{
    if !check_key_at(s, i) {
        return None;
    }
    let a = scan_spaces(s, i + 17);
    if a >= s.len() || s[a] != EQUALS {
        return None;
    }
    let q = scan_spaces(s, a + 1);
    if q >= s.len() || s[q] != QUOTE {
        return None;
    }
    let e = scan_digits(s, q + 1);
    if e == q + 1 || e >= s.len() || s[e] != QUOTE {
        return None;
    }
    Some((q + 1, e))
}

/// Scan error output for the compiler's suggested-fix directive and hand
/// back the digit run of the first one found, byte for byte.
pub fn extract_limit(stderr: &Vec<u8>) -> (r: Option<Vec<u8>>)
    ensures
        r is Some <==> extracted_limit(stderr@) is Some,
        r matches Some(v) ==> Some(v@) == extracted_limit(stderr@),
{
    let mut i: usize = 0;
    while i < stderr.len()
        invariant
            i <= stderr.len(),
            first_directive_from(stderr@, 0) == first_directive_from(stderr@, i as int),
        decreases stderr.len() - i,
    {
        match directive_digits_at(stderr, i) {
            Some((ds, de)) => {
                proof {
                    lemma_directive_bounds(stderr@, i as int);
                }
                let mut v: Vec<u8> = Vec::new();
                let mut j = ds;
                while j < de
                    invariant
                        ds <= j <= de,
                        de <= stderr.len(),
                        v@ == stderr@.subrange(ds as int, j as int),
                    decreases de - j,
                {
                    v.push(stderr[j]);
                    proof {
                        assert(v@ =~= stderr@.subrange(ds as int, j + 1));
                    }
                    j += 1;
                }
                proof {
                    assert(first_directive_from(stderr@, i as int) == Some(i as int));
                    assert(v@ =~= digits_at(stderr@, i as int));
                }
                return Some(v);
            },
            None => {
                i += 1;
            },
        }
    }
    None
}

} // verus!
