//! Reading numbers from text: integers as `str::parse` reads them for the
//! integer types, and decimal numbers as it reads them for floating-point
//! types, kept as written: sign, significant digits (the first `MAX_DIGITS`,
//! with a mark for a non-zero digit after them) and power of ten; see
//! `parse_decimal_spec`.
use vstd::prelude::*;

verus! {

/// The largest value up to which the integer readers work.
pub const MAX_MANTISSA: u128 = 0x0fff_ffff_ffff_ffff_ffff_ffff_ffff_ffffu128;

/// How many significant digits of a decimal number are held. Every number
/// halfway between two neighbouring `f64` (or `f32`) values has at most 767
/// significant digits, so the first 768 digits, and whether a non-zero digit
/// follows them, decide how any decimal text rounds to `f32` or `f64`.
pub const MAX_DIGITS: usize = 768;

/// The largest power of ten a decimal number is given; beyond it, with at
/// most `MAX_DIGITS` digits, every number is far outside the range of `f64`
/// (or far below its smallest step), so it rounds the same either way.
pub const EXPONENT_BOUND: i64 = 1_000_000_000_000;

/// The value from which a written exponent is read as that value.
pub const EXPONENT_SATURATION: u128 = 0x1_0000_0000_0000_0000_0000u128;

/// A number as a decimal text gives it. `Finite` holds the first
/// `digit_count` significant digits (each 0 to 9, the rest of the array 0)
/// as the integer `D`; the number is `(-1)^negative * D * 10^exponent`,
/// increased by less than `10^exponent` when `truncated` says that a
/// non-zero digit followed the ones held.
#[derive(Clone, Copy, Debug, PartialEq, Eq)]
pub enum DecimalNumber {
    Finite { negative: bool, digits: [u8; 768], digit_count: usize, truncated: bool, exponent: i64 },
    Infinite { negative: bool },
    NotANumber,
}

/// The digits `ds` followed by zeros, `MAX_DIGITS` in all.
pub open spec fn padded(ds: Seq<u8>) -> Seq<u8> {
    Seq::new(MAX_DIGITS as nat, |i: int| if i < ds.len() { ds[i] } else { 0u8 })
}

/// The digit array that holds `ds`.
pub open spec fn digit_array(ds: Seq<u8>) -> [u8; 768] {
    choose|a: [u8; 768]| a@ == padded(ds)
}

/// The finite number with the digits `ds`.
pub open spec fn finite_number(negative: bool, ds: Seq<u8>, truncated: bool, exponent: i64) -> DecimalNumber {
    DecimalNumber::Finite {
        negative,
        digits: digit_array(ds),
        digit_count: ds.len() as usize,
        truncated,
        exponent,
    }
}

/// An array that holds `ds` is the digit array of `ds`.
pub proof fn lemma_digit_array(a: [u8; 768], ds: Seq<u8>)
    requires
        a@ == padded(ds),
    ensures
        a == digit_array(ds),
{
    broadcast use vstd::array::group_array_axioms;

    let c = digit_array(ds);
    assert(c@ == padded(ds));
    assert(a@ =~= c@);
}

impl DecimalNumber {
    /// The finite number whose significant digits are `ds`.
    pub fn from_digits(negative: bool, ds: &Vec<u8>, truncated: bool, exponent: i64) -> (r: DecimalNumber)
        requires
            ds@.len() <= MAX_DIGITS,
        ensures
            r == finite_number(negative, ds@, truncated, exponent),
    {
        broadcast use vstd::array::group_array_axioms;

        let mut a = [0u8; 768];
        let mut i: usize = 0;
        assert(a@ =~= Seq::new(768, |k: int| 0u8));
        while i < ds.len()
            invariant
                ds@.len() <= MAX_DIGITS,
                i <= ds@.len(),
                a@.len() == 768,
                forall|k: int| 0 <= k < i ==> a@[k] == ds@[k],
                forall|k: int| i <= k < 768 ==> a@[k] == 0u8,
            decreases ds@.len() - i,
        {
            a[i] = ds[i];
            i = i + 1;
        }
        proof {
            assert(a@ =~= padded(ds@));
            lemma_digit_array(a, ds@);
        }
        DecimalNumber::Finite { negative, digits: a, digit_count: ds.len(), truncated, exponent }
    }
}

pub open spec fn is_digit(c: char) -> bool {
    '0' <= c && c <= '9'
}

pub open spec fn digit_value(c: char) -> int {
    (c as int) - ('0' as int)
}

pub open spec fn all_digits(d: Seq<char>) -> bool {
    forall|i: int| 0 <= i < d.len() ==> #[trigger] is_digit(d[i])
}

/// The value of a string of decimal digits, most significant first.
pub open spec fn digits_value(d: Seq<char>) -> int
    decreases d.len(),
{
    if d.len() == 0 {
        0
    } else {
        10 * digits_value(d.drop_last()) + digit_value(d.last())
    }
}

/// A non-empty string of digits whose value is at most `limit`.
pub open spec fn digits_within(d: Seq<char>, limit: int) -> bool {
    d.len() > 0 && all_digits(d) && digits_value(d) <= limit
}

/// The value of an integer text: an optional `+` (or `-`, for a signed
/// type) and then one or more digits.
pub open spec fn int_text_value(s: Seq<char>, signed: bool) -> Option<int> {
    let neg = signed && s.len() > 0 && s[0] == '-';
    let d = if s.len() > 0 && (s[0] == '+' || neg) {
        s.drop_first()
    } else {
        s
    };
    if d.len() > 0 && all_digits(d) {
        Some(if neg {
            -digits_value(d)
        } else {
            digits_value(d)
        })
    } else {
        None
    }
}

/// What `str::parse` gives for an integer type whose values are `min..=max`.
pub open spec fn parse_int_spec(s: Seq<char>, signed: bool, min: int, max: int) -> Option<int> {
    match int_text_value(s, signed) {
        Some(v) => if min <= v <= max {
            Some(v)
        } else {
            None
        },
        None => None,
    }
}

/// The number of sign characters (`+` or `-`) at the start of a number text.
pub open spec fn sign_len(s: Seq<char>) -> int {
    if s.len() > 0 && (s[0] == '+' || s[0] == '-') {
        1
    } else {
        0
    }
}

pub open spec fn starts_negative(s: Seq<char>) -> bool {
    s.len() > 0 && s[0] == '-'
}

/// The end of the run of digits that starts at `i`.
pub open spec fn digits_end(s: Seq<char>, i: int) -> int
    decreases s.len() - i,
{
    if 0 <= i < s.len() && is_digit(s[i]) {
        digits_end(s, i + 1)
    } else {
        i
    }
}

/// `s` is the word written `lower` in lower case and `upper` in upper case,
/// with each letter in either case.
pub open spec fn word_ignoring_case(s: Seq<char>, lower: Seq<char>, upper: Seq<char>) -> bool {
    &&& s.len() == lower.len()
    &&& s.len() == upper.len()
    &&& forall|i: int| 0 <= i < s.len() ==> #[trigger] s[i] == lower[i] || s[i] == upper[i]
}

/// The exponent part of a number text: empty, or `e`/`E`, an optional sign
/// and one or more digits.
pub open spec fn exponent_value(rest: Seq<char>) -> Option<int> {
    if rest.len() == 0 {
        Some(0)
    } else if rest[0] == 'e' || rest[0] == 'E' {
        let t = rest.drop_first();
        let d = t.skip(sign_len(t));
        if d.len() > 0 && all_digits(d) {
            Some(
                if starts_negative(t) {
                    -digits_value(d)
                } else {
                    digits_value(d)
                },
            )
        } else {
            None
        }
    } else {
        None
    }
}

/// `10` to the power `n`.
pub open spec fn pow10(n: nat) -> nat
    decreases n,
{
    if n == 0 {
        1
    } else {
        10 * pow10((n - 1) as nat)
    }
}

/// How many `0` digits a digit string starts with.
pub open spec fn leading_zeros(d: Seq<char>) -> int
    decreases d.len(),
{
    if d.len() == 0 {
        0
    } else {
        let z = leading_zeros(d.drop_last());
        if z == d.len() - 1 && d.last() == '0' {
            d.len() as int
        } else {
            z
        }
    }
}

/// A digit string without its leading zeros.
pub open spec fn significant_digits(d: Seq<char>) -> Seq<char> {
    d.skip(leading_zeros(d))
}

/// The significant digits that a decimal number holds: the first
/// `MAX_DIGITS` of them.
pub open spec fn kept_digits(d: Seq<char>) -> Seq<char> {
    let s = significant_digits(d);
    if s.len() <= MAX_DIGITS {
        s
    } else {
        s.take(MAX_DIGITS as int)
    }
}

/// The values of the digit characters.
pub open spec fn digit_values(k: Seq<char>) -> Seq<u8> {
    k.map_values(|c: char| digit_value(c) as u8)
}

/// Whether a non-zero digit follows the held ones.
pub open spec fn dropped_nonzero(d: Seq<char>) -> bool {
    exists|i: int|
        MAX_DIGITS <= i < significant_digits(d).len() && #[trigger] significant_digits(d)[i] != '0'
}

/// How many significant digits are dropped after the kept ones.
pub open spec fn dropped_digits(d: Seq<char>) -> int {
    significant_digits(d).len() - kept_digits(d).len()
}

/// An exponent held within `-EXPONENT_BOUND..=EXPONENT_BOUND`.
pub open spec fn clamp_exponent(e: int) -> int {
    if e > EXPONENT_BOUND {
        EXPONENT_BOUND as int
    } else if e < -EXPONENT_BOUND {
        -EXPONENT_BOUND
    } else {
        e
    }
}

/// What a floating-point `str::parse` reads from `s`. It is `Some` exactly
/// when `s` follows that parser's grammar: an optional sign, then `inf`,
/// `infinity` or `nan` in any case, or digits with an optional `.` and
/// fraction digits (at least one digit in all) and an optional exponent
/// (`e` or `E`, an optional sign, one or more digits). A finite number keeps
/// its sign; the first `MAX_DIGITS` significant digits of its digit string
/// (without the point), and whether a non-zero digit follows them; and as
/// the exponent the written exponent, less the number of fraction digits,
/// plus the number of digits that follow the held ones, held within
/// `EXPONENT_BOUND`.
pub open spec fn parse_decimal_spec(s: Seq<char>) -> Option<DecimalNumber> {
    let neg = starts_negative(s);
    let b = s.skip(sign_len(s));
    if word_ignoring_case(b, seq!['i', 'n', 'f'], seq!['I', 'N', 'F']) || word_ignoring_case(
        b,
        seq!['i', 'n', 'f', 'i', 'n', 'i', 't', 'y'],
        seq!['I', 'N', 'F', 'I', 'N', 'I', 'T', 'Y'],
    ) {
        Some(DecimalNumber::Infinite { negative: neg })
    } else if word_ignoring_case(b, seq!['n', 'a', 'n'], seq!['N', 'A', 'N']) {
        Some(DecimalNumber::NotANumber)
    } else {
        finite_decimal_spec(b, neg)
    }
}

/// A finite number text without its sign, as `parse_decimal_spec` reads it.
pub open spec fn finite_decimal_spec(b: Seq<char>, neg: bool) -> Option<DecimalNumber> {
    let p = digits_end(b, 0);
    let has_point = p < b.len() && b[p] == '.';
    let q = if has_point {
        digits_end(b, p + 1)
    } else {
        p
    };
    let int_part = b.subrange(0, p);
    let frac = if has_point {
        b.subrange(p + 1, q)
    } else {
        Seq::empty()
    };
    if int_part.len() + frac.len() == 0 {
        None
    } else {
        match exponent_value(b.skip(q)) {
            Some(e) => {
                let d = int_part + frac;
                Some(
                    finite_number(
                        neg,
                        digit_values(kept_digits(d)),
                        dropped_nonzero(d),
                        clamp_exponent(e - frac.len() + dropped_digits(d)) as i64,
                    ),
                )
            },
            None => None,
        }
    }
}

/// A string of digits is worth at least nothing.
pub proof fn lemma_digits_value_nonneg(d: Seq<char>)
    requires
        all_digits(d),
    ensures
        digits_value(d) >= 0,
    decreases d.len(),
{
    if d.len() > 0 {
        assert(is_digit(d[d.len() - 1]));
        assert(all_digits(d.drop_last())) by {
            assert forall|i: int| 0 <= i < d.drop_last().len() implies #[trigger] is_digit(
                d.drop_last()[i],
            ) by {
                assert(is_digit(d[i]));
            }
        }
        lemma_digits_value_nonneg(d.drop_last());
    }
}

/// The value of the digits `s[lo..hi]`, if there is at least one, they are
/// all digits and their value is at most `limit`.
pub fn digits_in_range(s: &Vec<char>, lo: usize, hi: usize, limit: u128) -> (r: Option<u128>)
    requires
        lo <= hi <= s@.len(),
        limit <= MAX_MANTISSA,
    ensures
        match r {
            Some(v) => digits_within(s@.subrange(lo as int, hi as int), limit as int)
                && v == digits_value(s@.subrange(lo as int, hi as int)),
            None => !digits_within(s@.subrange(lo as int, hi as int), limit as int),
        },
{
    if lo == hi {
        return None;
    }
    let mut acc: u128 = 0;
    let mut over = false;
    let mut i = lo;
    while i < hi
        invariant
            lo <= i <= hi <= s@.len(),
            limit <= MAX_MANTISSA,
            all_digits(s@.subrange(lo as int, i as int)),
            digits_value(s@.subrange(lo as int, i as int)) >= 0,
            over ==> digits_value(s@.subrange(lo as int, i as int)) > limit,
            !over ==> acc == digits_value(s@.subrange(lo as int, i as int)) && acc <= limit,
        decreases hi - i,
    {
        let c = s[i];
        let ghost prev = s@.subrange(lo as int, i as int);
        let ghost next = s@.subrange(lo as int, i + 1);
        assert(next.drop_last() =~= prev);
        if !('0' <= c && c <= '9') {
            assert(!is_digit(next[i - lo]));
            return None;
        }
        assert(all_digits(next)) by {
            assert forall|j: int| 0 <= j < next.len() implies #[trigger] is_digit(next[j]) by {
                if j < prev.len() {
                    assert(next[j] == prev[j]);
                }
            }
        }
        let dv = (c as u32) - ('0' as u32);
        assert(dv == digit_value(c));
        if !over {
            acc = acc * 10 + (dv as u128);
            if acc > limit {
                over = true;
            }
        }
        i = i + 1;
    }
    if over {
        None
    } else {
        Some(acc)
    }
}

/// An integer read from `s[lo..hi]` as `str::parse` reads it for a type whose
/// values are `-neg_limit..=pos_limit` (signed) or `0..=pos_limit` (unsigned).
pub fn parse_int_range(
    s: &Vec<char>,
    lo: usize,
    hi: usize,
    signed: bool,
    pos_limit: u128,
    neg_limit: u128,
) -> (r: Option<i128>)
    requires
        lo <= hi <= s@.len(),
        pos_limit <= MAX_MANTISSA,
        neg_limit <= MAX_MANTISSA,
        !signed ==> neg_limit == 0,
    ensures
        match r {
            Some(v) => parse_int_spec(
                s@.subrange(lo as int, hi as int),
                signed,
                -(neg_limit as int),
                pos_limit as int,
            ) == Some(v as int),
            None => parse_int_spec(
                s@.subrange(lo as int, hi as int),
                signed,
                -(neg_limit as int),
                pos_limit as int,
            ) is None,
        },
{
    let ghost x = s@.subrange(lo as int, hi as int);
    let neg = signed && lo < hi && s[lo] == '-';
    let start = if lo < hi && (s[lo] == '+' || neg) {
        lo + 1
    } else {
        lo
    };
    proof {
        if start == lo + 1 {
            assert(x.drop_first() =~= s@.subrange(start as int, hi as int));
        } else {
            assert(x =~= s@.subrange(start as int, hi as int));
        }
    }
    let limit = if neg {
        neg_limit
    } else {
        pos_limit
    };
    match digits_in_range(s, start, hi, limit) {
        Some(v) => {
            if neg {
                Some(-(v as i128))
            } else {
                Some(v as i128)
            }
        },
        None => {
            proof {
                let d = s@.subrange(start as int, hi as int);
                if d.len() > 0 && all_digits(d) {
                    lemma_digits_value_nonneg(d);
                }
            }
            None
        },
    }
}

/// An `i32` read from `s[lo..hi]` as `str::parse::<i32>` reads it.
pub fn parse_i32_range(s: &Vec<char>, lo: usize, hi: usize) -> (r: Option<i32>)
    requires
        lo <= hi <= s@.len(),
    ensures
        match r {
            Some(v) => parse_int_spec(
                s@.subrange(lo as int, hi as int),
                true,
                i32::MIN as int,
                i32::MAX as int,
            ) == Some(v as int),
            None => parse_int_spec(
                s@.subrange(lo as int, hi as int),
                true,
                i32::MIN as int,
                i32::MAX as int,
            ) is None,
        },
{
    match parse_int_range(s, lo, hi, true, 0x7fff_ffffu128, 0x8000_0000u128) {
        Some(v) => Some(v as i32),
        None => None,
    }
}

/// An unsigned integer of at most `max` read from `s[lo..hi]`, as
/// `str::parse` reads it for an unsigned type whose largest value is `max`.
pub fn parse_unsigned_range(s: &Vec<char>, lo: usize, hi: usize, max: u128) -> (r: Option<u128>)
    requires
        lo <= hi <= s@.len(),
        max <= MAX_MANTISSA,
    ensures
        match r {
            Some(v) => parse_int_spec(s@.subrange(lo as int, hi as int), false, 0, max as int)
                == Some(v as int),
            None => parse_int_spec(s@.subrange(lo as int, hi as int), false, 0, max as int) is None,
        },
{
    match parse_int_range(s, lo, hi, false, max, 0) {
        Some(v) => {
            assert(v >= 0);
            Some(v as u128)
        },
        None => None,
    }
}

/// The end of the run of digits in `s[i..hi]` that starts at `i`.
fn digits_end_range(s: &Vec<char>, i: usize, hi: usize, ghost_lo: Ghost<int>) -> (r: usize)
    requires
        ghost_lo@ <= i <= hi <= s@.len(),
        0 <= ghost_lo@,
    ensures
        i <= r <= hi,
        digits_end(s@.subrange(ghost_lo@, hi as int), i - ghost_lo@) == r - ghost_lo@,
        all_digits(s@.subrange(i as int, r as int)),
{
    let ghost b = s@.subrange(ghost_lo@, hi as int);
    let mut j = i;
    while j < hi && '0' <= s[j] && s[j] <= '9'
        invariant
            ghost_lo@ <= i <= j <= hi <= s@.len(),
            0 <= ghost_lo@,
            b == s@.subrange(ghost_lo@, hi as int),
            digits_end(b, i - ghost_lo@) == digits_end(b, j - ghost_lo@),
            all_digits(s@.subrange(i as int, j as int)),
        decreases hi - j,
    {
        assert(b[j - ghost_lo@] == s@[j as int]);
        assert(all_digits(s@.subrange(i as int, j + 1))) by {
            assert forall|k: int| 0 <= k < j + 1 - i implies #[trigger] is_digit(
                s@.subrange(i as int, j + 1)[k],
            ) by {
                if k < j - i {
                    assert(s@.subrange(i as int, j + 1)[k] == s@.subrange(i as int, j as int)[k]);
                }
            }
        }
        j = j + 1;
    }
    if j < hi {
        assert(b[j - ghost_lo@] == s@[j as int]);
    }
    j
}

/// Whether `s[lo..hi]` is the word `lower`/`upper` with each letter in either case.
fn word_ignoring_case_range(s: &Vec<char>, lo: usize, hi: usize, lower: &Vec<char>, upper: &Vec<
    char,
>) -> (r: bool)
    requires
        lo <= hi <= s@.len(),
        lower@.len() == upper@.len(),
    ensures
        r == word_ignoring_case(s@.subrange(lo as int, hi as int), lower@, upper@),
{
    if hi - lo != lower.len() {
        return false;
    }
    let mut k: usize = 0;
    while k < lower.len()
        invariant
            lo <= hi <= s@.len(),
            hi - lo == lower@.len(),
            lower@.len() == upper@.len(),
            k <= lower@.len(),
            forall|j: int| 0 <= j < k ==> s@[lo + j] == lower@[j] || s@[lo + j] == upper@[j],
        decreases lower@.len() - k,
    {
        let c = s[lo + k];
        if !(c == lower[k] || c == upper[k]) {
            assert(s@.subrange(lo as int, hi as int)[k as int] == c);
            return false;
        }
        k = k + 1;
    }
    assert forall|j: int| 0 <= j < hi - lo implies #[trigger] s@.subrange(lo as int, hi as int)[j]
        == lower@[j] || s@.subrange(lo as int, hi as int)[j] == upper@[j] by {
        assert(s@.subrange(lo as int, hi as int)[j] == s@[lo + j]);
    }
    true
}

/// An exponent held within `-EXPONENT_SATURATION..=EXPONENT_SATURATION`.
pub open spec fn saturate(e: int) -> int {
    if e > EXPONENT_SATURATION {
        EXPONENT_SATURATION as int
    } else if e < -EXPONENT_SATURATION {
        -EXPONENT_SATURATION
    } else {
        e
    }
}

/// The value of the digits `s[lo..hi]` held at `EXPONENT_SATURATION`, if
/// there is at least one and they are all digits.
fn saturated_digits_range(s: &Vec<char>, lo: usize, hi: usize) -> (r: Option<u128>)
    requires
        lo <= hi <= s@.len(),
    ensures
        match r {
            Some(v) => hi > lo && all_digits(s@.subrange(lo as int, hi as int)) && v == saturate(
                digits_value(s@.subrange(lo as int, hi as int)),
            ),
            None => !(hi > lo && all_digits(s@.subrange(lo as int, hi as int))),
        },
{
    if lo == hi {
        return None;
    }
    let mut acc: u128 = 0;
    let mut i = lo;
    while i < hi
        invariant
            lo <= i <= hi <= s@.len(),
            all_digits(s@.subrange(lo as int, i as int)),
            digits_value(s@.subrange(lo as int, i as int)) >= 0,
            acc == saturate(digits_value(s@.subrange(lo as int, i as int))),
        decreases hi - i,
    {
        let c = s[i];
        let ghost prev = s@.subrange(lo as int, i as int);
        let ghost next = s@.subrange(lo as int, i + 1);
        assert(next.drop_last() =~= prev);
        if !('0' <= c && c <= '9') {
            assert(!is_digit(next[i - lo]));
            return None;
        }
        assert(all_digits(next)) by {
            assert forall|j: int| 0 <= j < next.len() implies #[trigger] is_digit(next[j]) by {
                if j < prev.len() {
                    assert(next[j] == prev[j]);
                }
            }
        }
        let dv = (c as u32) - ('0' as u32);
        assert(dv == digit_value(c));
        if acc < EXPONENT_SATURATION {
            acc = acc * 10 + (dv as u128);
            if acc > EXPONENT_SATURATION {
                acc = EXPONENT_SATURATION;
            }
        }
        i = i + 1;
    }
    Some(acc)
}

/// The exponent part `s[lo..hi]` of a number text, held at `EXPONENT_SATURATION`.
fn exponent_range(s: &Vec<char>, lo: usize, hi: usize) -> (r: Option<i128>)
    requires
        lo <= hi <= s@.len(),
    ensures
        match r {
            Some(e) => exponent_value(s@.subrange(lo as int, hi as int)) is Some && e == saturate(
                exponent_value(s@.subrange(lo as int, hi as int)).unwrap(),
            ),
            None => exponent_value(s@.subrange(lo as int, hi as int)) is None,
        },
{
    let ghost rest = s@.subrange(lo as int, hi as int);
    if lo == hi {
        return Some(0);
    }
    if !(s[lo] == 'e' || s[lo] == 'E') {
        return None;
    }
    let t_lo = lo + 1;
    let ghost t = rest.drop_first();
    assert(t =~= s@.subrange(t_lo as int, hi as int));
    let negative = t_lo < hi && s[t_lo] == '-';
    let d_lo = if t_lo < hi && (s[t_lo] == '+' || s[t_lo] == '-') {
        t_lo + 1
    } else {
        t_lo
    };
    assert(t.skip(sign_len(t)) =~= s@.subrange(d_lo as int, hi as int));
    match saturated_digits_range(s, d_lo, hi) {
        Some(v) => {
            let e = v as i128;
            if negative {
                Some(-e)
            } else {
                Some(e)
            }
        },
        None => None,
    }
}

/// A decimal number read from `s[lo..hi]` as `parse_decimal_spec` describes.
pub fn parse_decimal_range(s: &Vec<char>, lo: usize, hi: usize) -> (r: Option<DecimalNumber>)
    requires
        lo <= hi <= s@.len(),
    ensures
        r == parse_decimal_spec(s@.subrange(lo as int, hi as int)),
{
    let ghost x = s@.subrange(lo as int, hi as int);
    let negative = lo < hi && s[lo] == '-';
    let b_lo = if lo < hi && (s[lo] == '+' || s[lo] == '-') {
        lo + 1
    } else {
        lo
    };
    assert(x.skip(sign_len(x)) =~= s@.subrange(b_lo as int, hi as int));
    let inf_l = vec!['i', 'n', 'f'];
    let inf_u = vec!['I', 'N', 'F'];
    let infinity_l = vec!['i', 'n', 'f', 'i', 'n', 'i', 't', 'y'];
    let infinity_u = vec!['I', 'N', 'F', 'I', 'N', 'I', 'T', 'Y'];
    let nan_l = vec!['n', 'a', 'n'];
    let nan_u = vec!['N', 'A', 'N'];
    assert(inf_l@ =~= seq!['i', 'n', 'f']);
    assert(inf_u@ =~= seq!['I', 'N', 'F']);
    assert(infinity_l@ =~= seq!['i', 'n', 'f', 'i', 'n', 'i', 't', 'y']);
    assert(infinity_u@ =~= seq!['I', 'N', 'F', 'I', 'N', 'I', 'T', 'Y']);
    assert(nan_l@ =~= seq!['n', 'a', 'n']);
    assert(nan_u@ =~= seq!['N', 'A', 'N']);
    if word_ignoring_case_range(s, b_lo, hi, &inf_l, &inf_u) || word_ignoring_case_range(
        s,
        b_lo,
        hi,
        &infinity_l,
        &infinity_u,
    ) {
        return Some(DecimalNumber::Infinite { negative });
    }
    if word_ignoring_case_range(s, b_lo, hi, &nan_l, &nan_u) {
        return Some(DecimalNumber::NotANumber);
    }
    parse_finite_range(s, b_lo, hi, negative)
}

/// A finite number text `s[lo..hi]`, without its sign, read as
/// `finite_decimal_spec` describes.
fn parse_finite_range(s: &Vec<char>, lo: usize, hi: usize, negative: bool) -> (r: Option<
    DecimalNumber,
>)
    requires
        lo <= hi <= s@.len(),
    ensures
        r == finite_decimal_spec(s@.subrange(lo as int, hi as int), negative),
{
    let ghost b = s@.subrange(lo as int, hi as int);
    let p = digits_end_range(s, lo, hi, Ghost(lo as int));
    let has_point = p < hi && s[p] == '.';
    assert(has_point == (p - lo < b.len() && b[p - lo] == '.'));
    let q = if has_point {
        digits_end_range(s, p + 1, hi, Ghost(lo as int))
    } else {
        p
    };
    let frac_lo = if has_point {
        p + 1
    } else {
        q
    };
    let ghost int_part = b.subrange(0, p - lo);
    let ghost frac = if has_point {
        b.subrange(p - lo + 1, q - lo)
    } else {
        Seq::<char>::empty()
    };
    assert(int_part =~= s@.subrange(lo as int, p as int));
    assert(frac =~= s@.subrange(frac_lo as int, q as int));
    if (p - lo) + (q - frac_lo) == 0 {
        return None;
    }
    assert(b.skip(q - lo) =~= s@.subrange(q as int, hi as int));
    let e = match exponent_range(s, q, hi) {
        Some(e) => e,
        None => {
            return None;
        },
    };
    let (digits, digit_count, truncated, dropped) = kept_digits_value(s, lo, p, frac_lo, q);
    let frac_len = q - frac_lo;
    let total: i128 = e - (frac_len as i128) + (dropped as i128);
    let exponent: i64 = if total > EXPONENT_BOUND as i128 {
        EXPONENT_BOUND
    } else if total < -(EXPONENT_BOUND as i128) {
        -EXPONENT_BOUND
    } else {
        total as i64
    };
    proof {
        let ev = exponent_value(b.skip(q - lo)).unwrap();
        assert(exponent == clamp_exponent(ev - frac.len() + dropped_digits(int_part + frac)));
        lemma_digit_array(digits, digit_values(kept_digits(int_part + frac)));
    }
    Some(DecimalNumber::Finite { negative, digits, digit_count, truncated, exponent })
}

/// A digit string starts with at most as many zeros as it has digits.
proof fn lemma_leading_zeros_bounds(d: Seq<char>)
    ensures
        0 <= leading_zeros(d) <= d.len(),
    decreases d.len(),
{
    if d.len() > 0 {
        lemma_leading_zeros_bounds(d.drop_last());
    }
}

/// Powers of ten grow with the exponent.
proof fn lemma_pow10_monotone(a: nat, b: nat)
    requires
        a <= b,
    ensures
        pow10(a) <= pow10(b),
    decreases b,
{
    if a < b {
        lemma_pow10_monotone(a, (b - 1) as nat);
    }
}

/// What one more digit does to the held and dropped digits.
proof fn lemma_kept_step(p: Seq<char>, c: char)
    requires
        is_digit(c),
    ensures
        ({
            let q = p.push(c);
            let skip = leading_zeros(p) == p.len() && c == '0';
            &&& (leading_zeros(q) < q.len()) == (leading_zeros(p) < p.len() || c != '0')
            &&& significant_digits(q).len() == significant_digits(p).len() + if skip {
                0int
            } else {
                1
            }
            &&& skip ==> kept_digits(q).len() == 0 && dropped_digits(q) == 0 && !dropped_nonzero(q)
            &&& !skip && significant_digits(p).len() < MAX_DIGITS ==> kept_digits(q)
                == kept_digits(p).push(c) && dropped_digits(q) == 0 && !dropped_nonzero(q)
            &&& !skip && significant_digits(p).len() >= MAX_DIGITS ==> kept_digits(q)
                == kept_digits(p) && dropped_digits(q) == dropped_digits(p) + 1 && dropped_nonzero(q)
                == (dropped_nonzero(p) || c != '0')
        }),
{
    let q = p.push(c);
    lemma_leading_zeros_bounds(p);
    assert(q.drop_last() =~= p);
    let z = leading_zeros(p);
    if !(z == p.len() && c == '0') {
        assert(leading_zeros(q) == z);
        assert(q.skip(z) =~= p.skip(z).push(c));
        let sp = p.skip(z);
        let sq = q.skip(z);
        if sp.len() >= MAX_DIGITS {
            assert(sp.push(c).take(MAX_DIGITS as int) =~= sp.take(MAX_DIGITS as int));
            if dropped_nonzero(p) {
                let i = choose|i: int| MAX_DIGITS <= i < sp.len() && #[trigger] sp[i] != '0';
                assert(sq[i] == sp[i]);
            }
            if c != '0' {
                assert(sq[sp.len() as int] == c);
            }
            if dropped_nonzero(q) {
                let i = choose|i: int| MAX_DIGITS <= i < sq.len() && #[trigger] sq[i] != '0';
                if i < sp.len() {
                    assert(sp[i] == sq[i]);
                }
            }
        } else {
            assert(!dropped_nonzero(q));
        }
    } else {
        assert(q.skip(q.len() as int) =~= Seq::<char>::empty());
    }
}

/// The held digits (the first `MAX_DIGITS` significant ones) of the digits
/// `s[a_lo..a_hi]` followed by `s[b_lo..b_hi]`: their array and count,
/// whether a non-zero digit follows them, and how many digits follow them.
fn kept_digits_value(s: &Vec<char>, a_lo: usize, a_hi: usize, b_lo: usize, b_hi: usize) -> (r: (
    [u8; 768],
    usize,
    bool,
    usize,
))
    requires
        a_lo <= a_hi <= b_lo,
        b_lo <= b_hi <= s@.len(),
        all_digits(s@.subrange(a_lo as int, a_hi as int)),
        all_digits(s@.subrange(b_lo as int, b_hi as int)),
    ensures
        ({
            let d = s@.subrange(a_lo as int, a_hi as int) + s@.subrange(b_lo as int, b_hi as int);
            &&& r.0@ == padded(digit_values(kept_digits(d)))
            &&& r.1 == kept_digits(d).len()
            &&& r.2 == dropped_nonzero(d)
            &&& r.3 == dropped_digits(d)
        }),
{
    broadcast use vstd::array::group_array_axioms;

    let ghost a = s@.subrange(a_lo as int, a_hi as int);
    let ghost b = s@.subrange(b_lo as int, b_hi as int);
    let ghost d = a + b;
    assert(all_digits(d)) by {
        assert forall|i: int| 0 <= i < d.len() implies #[trigger] is_digit(d[i]) by {
            if i < a.len() {
                assert(d[i] == a[i]);
            } else {
                assert(d[i] == b[i - a.len()]);
            }
        }
    }
    let la = a_hi - a_lo;
    let n = la + (b_hi - b_lo);
    let mut arr = [0u8; 768];
    let mut kept: usize = 0;
    let mut truncated = false;
    let mut dropped: usize = 0;
    let mut started = false;
    let mut i: usize = 0;
    assert(d.take(0) =~= Seq::<char>::empty());
    assert(d.take(0).skip(0) =~= Seq::<char>::empty());
    assert(arr@ =~= padded(digit_values(Seq::<char>::empty())));
    while i < n
        invariant
            a_lo <= a_hi <= b_lo,
            b_lo <= b_hi <= s@.len(),
            a == s@.subrange(a_lo as int, a_hi as int),
            b == s@.subrange(b_lo as int, b_hi as int),
            d == a + b,
            la == a.len(),
            n == d.len(),
            i <= n,
            all_digits(d),
            started == (leading_zeros(d.take(i as int)) < i),
            kept == kept_digits(d.take(i as int)).len(),
            kept <= MAX_DIGITS,
            kept < MAX_DIGITS ==> kept == significant_digits(d.take(i as int)).len(),
            kept == MAX_DIGITS ==> significant_digits(d.take(i as int)).len() >= MAX_DIGITS,
            arr@ == padded(digit_values(kept_digits(d.take(i as int)))),
            truncated == dropped_nonzero(d.take(i as int)),
            dropped == dropped_digits(d.take(i as int)),
            dropped <= i,
        decreases n - i,
    {
        let c = if i < la {
            s[a_lo + i]
        } else {
            s[b_lo + (i - la)]
        };
        let ghost pre = d.take(i as int);
        assert(c == d[i as int]);
        assert(is_digit(c));
        assert(d.take(i + 1) =~= pre.push(c));
        proof {
            lemma_kept_step(pre, c);
            lemma_leading_zeros_bounds(pre);
        }
        let dv = (c as u32) - ('0' as u32);
        if started || c != '0' {
            started = true;
            if kept < MAX_DIGITS {
                proof {
                    let k = kept_digits(pre);
                    assert(digit_values(k.push(c)) =~= digit_values(k).push(dv as u8));
                    assert(padded(digit_values(k.push(c))) =~= padded(digit_values(k)).update(
                        kept as int,
                        dv as u8,
                    ));
                }
                arr[kept] = dv as u8;
                kept = kept + 1;
            } else {
                if c != '0' {
                    truncated = true;
                }
                dropped = dropped + 1;
            }
        }
        i = i + 1;
    }
    assert(d.take(n as int) =~= d);
    (arr, kept, truncated, dropped)
}

/// Every text that reads as an integer reads as a decimal number of the same
/// value: its significant digits are held, nothing follows them, and the
/// exponent is zero.
pub proof fn law_integer_text_is_decimal(s: Seq<char>, signed: bool, min: int, max: int)
    requires
        parse_int_spec(s, signed, min, max) is Some,
        -(pow10(MAX_DIGITS as nat) as int) < min,
        max < pow10(MAX_DIGITS as nat),
    ensures
        ({
            let b = s.skip(sign_len(s));
            &&& parse_decimal_spec(s) == Some(
                finite_number(starts_negative(s), digit_values(significant_digits(b)), false, 0),
            )
            &&& digits_value(significant_digits(b)) == if starts_negative(s) {
                -parse_int_spec(s, signed, min, max).unwrap()
            } else {
                parse_int_spec(s, signed, min, max).unwrap()
            }
        }),
{
    let neg = signed && s.len() > 0 && s[0] == '-';
    let d = if s.len() > 0 && (s[0] == '+' || neg) {
        s.drop_first()
    } else {
        s
    };
    assert(d.len() > 0 && all_digits(d));
    if s.len() > 0 && s[0] == '-' {
        // An unsigned text cannot start with a minus sign.
        if !signed {
            assert(d == s);
            assert(is_digit(d[0]));
        }
    }
    let b = s.skip(sign_len(s));
    assert(b =~= d);
    assert(is_digit(b[0]));
    assert(!word_ignoring_case(b, seq!['i', 'n', 'f'], seq!['I', 'N', 'F'])) by {
        if b.len() == 3 {
            assert(b[0] == seq!['i', 'n', 'f'][0] || b[0] == seq!['I', 'N', 'F'][0] ==> !is_digit(
                b[0],
            ));
        }
    }
    assert(!word_ignoring_case(
        b,
        seq!['i', 'n', 'f', 'i', 'n', 'i', 't', 'y'],
        seq!['I', 'N', 'F', 'I', 'N', 'I', 'T', 'Y'],
    )) by {
        if b.len() == 8 {
            assert(b[0] == seq!['i', 'n', 'f', 'i', 'n', 'i', 't', 'y'][0] || b[0] == seq![
                'I',
                'N',
                'F',
                'I',
                'N',
                'I',
                'T',
                'Y',
            ][0] ==> !is_digit(b[0]));
        }
    }
    assert(!word_ignoring_case(b, seq!['n', 'a', 'n'], seq!['N', 'A', 'N'])) by {
        if b.len() == 3 {
            assert(b[0] == seq!['n', 'a', 'n'][0] || b[0] == seq!['N', 'A', 'N'][0] ==> !is_digit(
                b[0],
            ));
        }
    }
    assert(b.take(b.len() as int) =~= b);
    lemma_digits_end_prefix(b, b.len() as int);
    lemma_digits_value_nonneg(b);
    assert(b.subrange(0, b.len() as int) + Seq::<char>::empty() =~= b);
    assert(b.skip(b.len() as int) =~= Seq::<char>::empty());
    // At most `MAX_DIGITS` significant digits: all are held.
    lemma_significant_value(b);
    lemma_leading_zeros_bounds(b);
    let sig = significant_digits(b);
    if sig.len() > MAX_DIGITS {
        lemma_first_significant_nonzero(b);
        lemma_all_digits_skip(b, leading_zeros(b));
        lemma_value_lower_bound(sig);
        lemma_pow10_monotone(MAX_DIGITS as nat, (sig.len() - 1) as nat);
    }
    assert(!dropped_nonzero(b));
}

/// A suffix of a digit string is a digit string.
proof fn lemma_all_digits_skip(d: Seq<char>, k: int)
    requires
        all_digits(d),
        0 <= k <= d.len(),
    ensures
        all_digits(d.skip(k)),
{
    assert forall|i: int| 0 <= i < d.skip(k).len() implies #[trigger] is_digit(d.skip(k)[i]) by {
        assert(d.skip(k)[i] == d[k + i]);
    }
}

/// Leading zeros do not change the value of a digit string.
proof fn lemma_significant_value(d: Seq<char>)
    requires
        all_digits(d),
    ensures
        digits_value(significant_digits(d)) == digits_value(d),
    decreases d.len(),
{
    if d.len() > 0 {
        let dl = d.drop_last();
        assert(all_digits(dl)) by {
            assert forall|i: int| 0 <= i < dl.len() implies #[trigger] is_digit(dl[i]) by {
                assert(is_digit(d[i]));
            }
        }
        lemma_significant_value(dl);
        lemma_leading_zeros_bounds(dl);
        let z = leading_zeros(dl);
        if z == dl.len() && d.last() == '0' {
            assert(d.skip(d.len() as int) =~= Seq::<char>::empty());
            assert(dl.skip(z) =~= Seq::<char>::empty());
        } else {
            assert(d.skip(z) =~= dl.skip(z).push(d.last()));
            assert(d.skip(z).drop_last() =~= dl.skip(z));
        }
    }
}

/// The first significant digit of a digit string is not zero.
proof fn lemma_first_significant_nonzero(d: Seq<char>)
    requires
        leading_zeros(d) < d.len(),
    ensures
        d[leading_zeros(d)] != '0',
    decreases d.len(),
{
    let dl = d.drop_last();
    lemma_leading_zeros_bounds(dl);
    if leading_zeros(dl) < dl.len() {
        lemma_first_significant_nonzero(dl);
        assert(d[leading_zeros(dl)] == dl[leading_zeros(dl)]);
    }
}

/// A digit string that does not start with zero is worth at least ten to
/// the power of its length less one.
proof fn lemma_value_lower_bound(s: Seq<char>)
    requires
        all_digits(s),
        s.len() > 0,
        s[0] != '0',
    ensures
        digits_value(s) >= pow10((s.len() - 1) as nat),
    decreases s.len(),
{
    assert(is_digit(s[0]));
    if s.len() > 1 {
        let sl = s.drop_last();
        assert(all_digits(sl)) by {
            assert forall|i: int| 0 <= i < sl.len() implies #[trigger] is_digit(sl[i]) by {
                assert(is_digit(s[i]));
            }
        }
        assert(sl[0] == s[0]);
        lemma_value_lower_bound(sl);
        assert(is_digit(s[s.len() - 1]));
        assert(pow10((s.len() - 1) as nat) == 10 * pow10((s.len() - 2) as nat));
        assert(digits_value(s) == 10 * digits_value(sl) + digit_value(s.last()));
    } else {
        assert(s.drop_last().len() == 0);
        assert(digits_value(s) == 10 * digits_value(s.drop_last()) + digit_value(s[0]));
        assert(pow10(0) == 1);
    }
}

/// A run of digits `d` at the start of `b`, followed by the end of `b` or
/// by a character that is no digit, ends where `d` ends.
proof fn lemma_digits_end_prefix(b: Seq<char>, n: int)
    requires
        0 <= n <= b.len(),
        all_digits(b.take(n)),
        n < b.len() ==> !is_digit(b[n]),
    ensures
        digits_end(b, 0) == n,
{
    lemma_digits_end_from(b, 0, n);
}

proof fn lemma_digits_end_from(b: Seq<char>, i: int, n: int)
    requires
        0 <= i <= n <= b.len(),
        all_digits(b.take(n)),
        n < b.len() ==> !is_digit(b[n]),
    ensures
        digits_end(b, i) == n,
    decreases n - i,
{
    if i < n {
        assert(b.take(n)[i] == b[i]);
        lemma_digits_end_from(b, i + 1, n);
    }
}

/// No digit string is refused for its length or the size of its exponent:
/// digits alone, or digits with an exponent, always read as a number.
pub proof fn law_digit_strings_always_read(d: Seq<char>, x: Seq<char>)
    requires
        d.len() > 0,
        all_digits(d),
    ensures
        parse_decimal_spec(d) is Some,
        x.len() > 0 && all_digits(x) ==> parse_decimal_spec(d + seq!['e'] + x) is Some,
{
    lemma_digits_text_reads(d, Seq::empty());
    if x.len() > 0 && all_digits(x) {
        lemma_digits_text_reads(d, seq!['e'] + x);
        assert(d + seq!['e'] + x =~= d + (seq!['e'] + x));
    }
}

proof fn lemma_digits_text_reads(d: Seq<char>, tail: Seq<char>)
    requires
        d.len() > 0,
        all_digits(d),
        tail.len() == 0 || (tail[0] == 'e' && tail.len() > 1 && all_digits(tail.drop_first())),
    ensures
        parse_decimal_spec(d + tail) is Some,
{
    let b = d + tail;
    assert(is_digit(d[0]));
    assert(b[0] == d[0]);
    assert(sign_len(b) == 0);
    assert(b.skip(0) =~= b);
    assert(!word_ignoring_case(b, seq!['i', 'n', 'f'], seq!['I', 'N', 'F'])) by {
        if b.len() == 3 {
            assert(b[0] == seq!['i', 'n', 'f'][0] || b[0] == seq!['I', 'N', 'F'][0] ==> !is_digit(
                b[0],
            ));
        }
    }
    assert(!word_ignoring_case(
        b,
        seq!['i', 'n', 'f', 'i', 'n', 'i', 't', 'y'],
        seq!['I', 'N', 'F', 'I', 'N', 'I', 'T', 'Y'],
    )) by {
        if b.len() == 8 {
            assert(b[0] == seq!['i', 'n', 'f', 'i', 'n', 'i', 't', 'y'][0] || b[0] == seq![
                'I',
                'N',
                'F',
                'I',
                'N',
                'I',
                'T',
                'Y',
            ][0] ==> !is_digit(b[0]));
        }
    }
    assert(!word_ignoring_case(b, seq!['n', 'a', 'n'], seq!['N', 'A', 'N'])) by {
        if b.len() == 3 {
            assert(b[0] == seq!['n', 'a', 'n'][0] || b[0] == seq!['N', 'A', 'N'][0] ==> !is_digit(
                b[0],
            ));
        }
    }
    assert(b.take(d.len() as int) =~= d);
    if tail.len() > 0 {
        assert(b[d.len() as int] == 'e');
    }
    lemma_digits_end_prefix(b, d.len() as int);
    assert(b.skip(d.len() as int) =~= tail);
    if tail.len() > 0 {
        let t = tail.drop_first();
        assert(sign_len(t) == 0) by {
            assert(is_digit(t[0]));
        }
        assert(t.skip(0) =~= t);
    }
}

/// A string of digits followed by anything but a digit or a point reads as
/// the number with those digits times ten to the power that the rest of the
/// text writes as exponent, and not at all when the rest is no exponent.
pub proof fn law_digits_then_exponent(d: Seq<char>, tail: Seq<char>)
    requires
        d.len() > 0,
        all_digits(d),
        tail.len() > 0 ==> !is_digit(tail[0]) && tail[0] != '.',
    ensures
        parse_decimal_spec(d + tail) == match exponent_value(tail) {
            Some(e) => Some(
                finite_number(
                    false,
                    digit_values(kept_digits(d)),
                    dropped_nonzero(d),
                    clamp_exponent(e + dropped_digits(d)) as i64,
                ),
            ),
            None => None,
        },
{
    let b = d + tail;
    assert(is_digit(d[0]));
    assert(b[0] == d[0]);
    assert(sign_len(b) == 0);
    assert(!starts_negative(b));
    assert(b.skip(0) =~= b);
    assert(!word_ignoring_case(b, seq!['i', 'n', 'f'], seq!['I', 'N', 'F'])) by {
        if b.len() == 3 {
            assert(b[0] == seq!['i', 'n', 'f'][0] || b[0] == seq!['I', 'N', 'F'][0] ==> !is_digit(
                b[0],
            ));
        }
    }
    assert(!word_ignoring_case(
        b,
        seq!['i', 'n', 'f', 'i', 'n', 'i', 't', 'y'],
        seq!['I', 'N', 'F', 'I', 'N', 'I', 'T', 'Y'],
    )) by {
        if b.len() == 8 {
            assert(b[0] == seq!['i', 'n', 'f', 'i', 'n', 'i', 't', 'y'][0] || b[0] == seq![
                'I',
                'N',
                'F',
                'I',
                'N',
                'I',
                'T',
                'Y',
            ][0] ==> !is_digit(b[0]));
        }
    }
    assert(!word_ignoring_case(b, seq!['n', 'a', 'n'], seq!['N', 'A', 'N'])) by {
        if b.len() == 3 {
            assert(b[0] == seq!['n', 'a', 'n'][0] || b[0] == seq!['N', 'A', 'N'][0] ==> !is_digit(
                b[0],
            ));
        }
    }
    assert(b.take(d.len() as int) =~= d);
    if tail.len() > 0 {
        assert(b[d.len() as int] == tail[0]);
    }
    lemma_digits_end_prefix(b, d.len() as int);
    assert(b.skip(d.len() as int) =~= tail);
    assert(b.subrange(0, d.len() as int) =~= d);
    assert(d + Seq::<char>::empty() =~= d);
}

/// The sign of a written exponent is what it says: `e` followed by digits
/// `g`, or by `+` and `g`, is the exponent `g`, and `-` and `g` is minus
/// `g`, in either case of `e`; so `1e+3` and `1e3` are the same number.
pub proof fn law_exponent_sign(d: Seq<char>, g: Seq<char>)
    requires
        g.len() > 0,
        all_digits(g),
    ensures
        digits_value(g) >= 0,
        exponent_value(seq!['e'] + g) == Some(digits_value(g)),
        exponent_value(seq!['E'] + g) == Some(digits_value(g)),
        exponent_value(seq!['e', '+'] + g) == Some(digits_value(g)),
        exponent_value(seq!['E', '+'] + g) == Some(digits_value(g)),
        exponent_value(seq!['e', '-'] + g) == Some(-digits_value(g)),
        exponent_value(seq!['E', '-'] + g) == Some(-digits_value(g)),
        d.len() > 0 && all_digits(d) ==> parse_decimal_spec(d + seq!['e', '+'] + g)
            == parse_decimal_spec(d + seq!['e'] + g),
        d.len() > 0 && all_digits(d) ==> parse_decimal_spec(d + seq!['e'] + g) == Some(
            finite_number(
                false,
                digit_values(kept_digits(d)),
                dropped_nonzero(d),
                clamp_exponent(digits_value(g) + dropped_digits(d)) as i64,
            ),
        ),
{
    lemma_digits_value_nonneg(g);
    assert(is_digit(g[0]));
    assert((seq!['e'] + g).drop_first() =~= g);
    assert((seq!['E'] + g).drop_first() =~= g);
    assert(g.skip(0) =~= g);
    assert((seq!['e', '+'] + g).drop_first() =~= seq!['+'] + g);
    assert((seq!['E', '+'] + g).drop_first() =~= seq!['+'] + g);
    assert((seq!['e', '-'] + g).drop_first() =~= seq!['-'] + g);
    assert((seq!['E', '-'] + g).drop_first() =~= seq!['-'] + g);
    assert((seq!['+'] + g).skip(1) =~= g);
    assert((seq!['-'] + g).skip(1) =~= g);
    if d.len() > 0 && all_digits(d) {
        law_digits_then_exponent(d, seq!['e', '+'] + g);
        law_digits_then_exponent(d, seq!['e'] + g);
        assert(d + seq!['e', '+'] + g =~= d + (seq!['e', '+'] + g));
        assert(d + seq!['e'] + g =~= d + (seq!['e'] + g));
    }
}

/// An integer text is its digits' value, with a `+` making no difference
/// and a `-` negating it for a signed type (and refused for an unsigned
/// one); a value outside the type's range is refused.
pub proof fn law_integer_sign(g: Seq<char>, signed: bool, min: int, max: int)
    requires
        g.len() > 0,
        all_digits(g),
    ensures
        digits_value(g) >= 0,
        parse_int_spec(g, signed, min, max) == if min <= digits_value(g) <= max {
            Some(digits_value(g))
        } else {
            None
        },
        parse_int_spec(seq!['+'] + g, signed, min, max) == parse_int_spec(g, signed, min, max),
        signed ==> parse_int_spec(seq!['-'] + g, signed, min, max) == if min <= -digits_value(g)
            <= max {
            Some(-digits_value(g))
        } else {
            None
        },
        !signed ==> parse_int_spec(seq!['-'] + g, signed, min, max) is None,
{
    lemma_digits_value_nonneg(g);
    assert(is_digit(g[0]));
    assert((seq!['+'] + g).drop_first() =~= g);
    assert((seq!['-'] + g).drop_first() =~= g);
    assert((seq!['-'] + g)[0] == '-');
    assert((seq!['+'] + g)[0] == '+');
    if !signed {
        assert(!is_digit((seq!['-'] + g)[0]));
    }
}

proof fn lemma_digits_run(b: Seq<char>, i: int, n: int)
    requires
        0 <= i <= n <= b.len(),
        forall|j: int| i <= j < n ==> is_digit(#[trigger] b[j]),
        n < b.len() ==> !is_digit(b[n]),
    ensures
        digits_end(b, i) == n,
    decreases n - i,
{
    if i < n {
        lemma_digits_run(b, i + 1, n);
    }
}

/// The number `d.f` (digits `d`, a point, fraction digits `f`) is the
/// number with the digits of `d` and `f` together, times ten to the minus
/// the number of fraction digits.
pub proof fn law_fraction_point(d: Seq<char>, f: Seq<char>)
    requires
        d.len() > 0,
        all_digits(d),
        all_digits(f),
    ensures
        parse_decimal_spec(d + seq!['.'] + f) == Some(
            finite_number(
                false,
                digit_values(kept_digits(d + f)),
                dropped_nonzero(d + f),
                clamp_exponent(dropped_digits(d + f) - f.len()) as i64,
            ),
        ),
{
    let b = d + seq!['.'] + f;
    let p = d.len() as int;
    assert(is_digit(d[0]));
    assert(b[0] == d[0]);
    assert(sign_len(b) == 0);
    assert(!starts_negative(b));
    assert(b.skip(0) =~= b);
    assert(!word_ignoring_case(b, seq!['i', 'n', 'f'], seq!['I', 'N', 'F'])) by {
        if b.len() == 3 {
            assert(b[0] == seq!['i', 'n', 'f'][0] || b[0] == seq!['I', 'N', 'F'][0] ==> !is_digit(
                b[0],
            ));
        }
    }
    assert(!word_ignoring_case(
        b,
        seq!['i', 'n', 'f', 'i', 'n', 'i', 't', 'y'],
        seq!['I', 'N', 'F', 'I', 'N', 'I', 'T', 'Y'],
    )) by {
        if b.len() == 8 {
            assert(b[0] == seq!['i', 'n', 'f', 'i', 'n', 'i', 't', 'y'][0] || b[0] == seq![
                'I',
                'N',
                'F',
                'I',
                'N',
                'I',
                'T',
                'Y',
            ][0] ==> !is_digit(b[0]));
        }
    }
    assert(!word_ignoring_case(b, seq!['n', 'a', 'n'], seq!['N', 'A', 'N'])) by {
        if b.len() == 3 {
            assert(b[0] == seq!['n', 'a', 'n'][0] || b[0] == seq!['N', 'A', 'N'][0] ==> !is_digit(
                b[0],
            ));
        }
    }
    assert forall|j: int| 0 <= j < p implies is_digit(#[trigger] b[j]) by {
        assert(b[j] == d[j]);
    }
    assert(b[p] == '.');
    lemma_digits_run(b, 0, p);
    assert forall|j: int| p + 1 <= j < b.len() implies is_digit(#[trigger] b[j]) by {
        assert(b[j] == f[j - p - 1]);
    }
    lemma_digits_run(b, p + 1, b.len() as int);
    assert(b.subrange(0, p) =~= d);
    assert(b.subrange(p + 1, b.len() as int) =~= f);
    assert(b.skip(b.len() as int) =~= Seq::<char>::empty());
}

/// The number with everything of `d` but its sign negated.
pub open spec fn negated(d: DecimalNumber) -> DecimalNumber {
    match d {
        DecimalNumber::Finite { negative, digits, digit_count, truncated, exponent } => DecimalNumber::Finite {
            negative: !negative,
            digits,
            digit_count,
            truncated,
            exponent,
        },
        DecimalNumber::Infinite { negative } => DecimalNumber::Infinite { negative: !negative },
        DecimalNumber::NotANumber => DecimalNumber::NotANumber,
    }
}

/// A leading `+` changes nothing, and a leading `-` negates the number that
/// the rest of the text reads as (a number text without a sign reads as a
/// number that is not negative).
pub proof fn law_number_sign(t: Seq<char>)
    requires
        t.len() == 0 || (t[0] != '+' && t[0] != '-'),
    ensures
        parse_decimal_spec(seq!['+'] + t) == parse_decimal_spec(t),
        parse_decimal_spec(seq!['-'] + t) == match parse_decimal_spec(t) {
            Some(v) => Some(negated(v)),
            None => None,
        },
        parse_decimal_spec(t) matches Some(v) ==> !(v matches DecimalNumber::Finite { negative, .. }
            && negative) && !(v matches DecimalNumber::Infinite { negative } && negative),
{
    assert(sign_len(t) == 0);
    assert(!starts_negative(t));
    assert(t.skip(0) =~= t);
    assert((seq!['+'] + t).skip(1) =~= t);
    assert((seq!['-'] + t).skip(1) =~= t);
    assert((seq!['+'] + t)[0] == '+');
    assert((seq!['-'] + t)[0] == '-');
}

} // verus!
