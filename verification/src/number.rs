//! Exact decimal reading of JSON numbers.
//!
//! A number is modelled in scientific form: a sign, its significant digits
//! without leading or trailing zeros, and the position of the decimal point.
//! Two numbers are equal when these agree, and order goes by sign, then by the
//! position of the point, then by the digits. No rounding takes place.

use vstd::prelude::*;
use crate::scan::{digits_end, lemma_digits_end_bounds, skip_digits};
use crate::text::{append, bytes_eq, bytes_less, copy_range, digits_value, lex_less, read_digits, all_digits};

verus! {

/// The largest exponent that is read. A number with a larger one is not taken
/// as a number.
pub const MAX_EXPONENT: usize = 1_000_000_000;

/// A decimal number: zero when `digits` is empty, otherwise
/// `0.d1 d2 d3 ... × 10^point` with `d1` not zero and the last digit not zero.
pub struct Decimal {
    pub neg: bool,
    pub digits: Seq<u8>,
    pub point: int,
}

/// A decimal number in executable form.
pub struct Number {
    pub neg: bool,
    pub digits: Vec<u8>,
    pub point: i128,
}

impl View for Number {
    type V = Decimal;

    open spec fn view(&self) -> Decimal {
        Decimal { neg: self.neg, digits: self.digits@, point: self.point as int }
    }
}

/// How many zeros a digit string starts with.
pub open spec fn leading_zeros(s: Seq<u8>, i: int) -> int
    decreases s.len() - i,
{
    if 0 <= i < s.len() && s[i] == 0x30 {
        leading_zeros(s, i + 1)
    } else {
        i
    }
}

/// The length of a digit string once its trailing zeros are dropped, looking
/// at the first `n` bytes only.
pub open spec fn trimmed_len(s: Seq<u8>, n: int) -> int
    decreases n,
{
    if 0 < n <= s.len() && s[n - 1] == 0x30 {
        trimmed_len(s, n - 1)
    } else {
        n
    }
}

/// The parts of a number text: where the integer digits, the fraction digits
/// and the exponent digits stand.
pub struct Layout {
    pub int_lo: int,
    pub int_hi: int,
    pub frac_lo: int,
    pub frac_hi: int,
    pub exp_lo: int,
    pub exp_hi: int,
    pub has_exp: bool,
    pub exp_neg: bool,
}

/// Where the parts of a number text stand.
pub open spec fn layout_of(t: Seq<u8>) -> Layout {
    let a: int = if t.len() > 0 && t[0] == 0x2d { 1 } else { 0 };
    let c = digits_end(t, a);
    let dot = 0 <= c < t.len() && t[c] == 0x2e;
    let frac_lo = if dot { c + 1 } else { c };
    let d = digits_end(t, frac_lo);
    let has_exp = 0 <= d < t.len() && (t[d] == 0x65 || t[d] == 0x45);
    let signed = has_exp && d + 1 < t.len() && (t[d + 1] == 0x2b || t[d + 1] == 0x2d);
    let exp_lo = if signed { d + 2 } else if has_exp { d + 1 } else { d };
    let exp_hi = digits_end(t, exp_lo);
    Layout {
        int_lo: a,
        int_hi: c,
        frac_lo,
        frac_hi: d,
        exp_lo,
        exp_hi,
        has_exp,
        exp_neg: signed && t[d + 1] == 0x2d,
    }
}

/// The text is a number: it has integer digits, an exponent mark is followed
/// by digits that write at most `MAX_EXPONENT`, and nothing is left over.
pub open spec fn well_formed(t: Seq<u8>) -> bool {
    let l = layout_of(t);
    &&& l.int_hi > l.int_lo
    &&& l.exp_hi == t.len()
    &&& l.has_exp ==> l.exp_hi > l.exp_lo
    &&& digits_value(t.subrange(l.exp_lo, l.exp_hi)) <= MAX_EXPONENT
}

/// All digits of the mantissa, the integer ones and then the fraction ones.
pub open spec fn mantissa(t: Seq<u8>) -> Seq<u8> {
    let l = layout_of(t);
    t.subrange(l.int_lo, l.int_hi) + t.subrange(l.frac_lo, l.frac_hi)
}

/// The number that a text writes, or `None` where it is not a number.
pub open spec fn decimal_of(t: Seq<u8>) -> Option<Decimal> {
    if !well_formed(t) {
        None
    } else {
        let l = layout_of(t);
        let all = mantissa(t);
        let lead = leading_zeros(all, 0);
        let end = trimmed_len(all, all.len() as int);
        let e = digits_value(t.subrange(l.exp_lo, l.exp_hi)) as int;
        if lead >= end {
            Some(Decimal { neg: false, digits: Seq::empty(), point: 0 })
        } else {
            Some(
                Decimal {
                    neg: l.int_lo == 1,
                    digits: all.subrange(lead, end),
                    point: (l.int_hi - l.int_lo) - lead + (if l.exp_neg { -e } else { e }),
                },
            )
        }
    }
}

/// Order of magnitudes, signs left aside.
pub open spec fn magnitude_less(x: Decimal, y: Decimal) -> bool {
    if y.digits.len() == 0 {
        false
    } else if x.digits.len() == 0 {
        true
    } else if x.point != y.point {
        x.point < y.point
    } else {
        lex_less(x.digits, y.digits)
    }
}

/// Numeric order.
pub open spec fn decimal_less(x: Decimal, y: Decimal) -> bool {
    if x.neg != y.neg {
        x.neg
    } else if x.neg {
        magnitude_less(y, x)
    } else {
        magnitude_less(x, y)
    }
}

/// Both texts are numbers and write the same number.
pub open spec fn number_equal(a: Seq<u8>, b: Seq<u8>) -> bool {
    decimal_of(a) is Some && decimal_of(b) is Some && decimal_of(a)->0 == decimal_of(b)->0
}

/// Both texts are numbers and the first writes the smaller one.
pub open spec fn number_less(a: Seq<u8>, b: Seq<u8>) -> bool {
    decimal_of(a) is Some && decimal_of(b) is Some && decimal_less(
        decimal_of(a)->0,
        decimal_of(b)->0,
    )
}

/// The text is a number other than zero.
pub open spec fn number_nonzero(a: Seq<u8>) -> bool {
    decimal_of(a) is Some && decimal_of(a)->0.digits.len() > 0
}

/// The digit at place `j` before the decimal point, counted from the most
/// significant one; places beyond the written digits hold zero.
pub open spec fn digit_at(d: Decimal, j: int) -> int {
    if 0 <= j < d.digits.len() {
        d.digits[j] - 0x30
    } else {
        0
    }
}

/// The number written by the first `j` digits before the decimal point.
pub open spec fn int_prefix(d: Decimal, j: int) -> int
    decreases j,
{
    if j <= 0 {
        0
    } else {
        int_prefix(d, j - 1) * 10 + digit_at(d, j - 1)
    }
}

/// The size of the number with its fraction cut off.
pub open spec fn int_magnitude(d: Decimal) -> int {
    if d.digits.len() == 0 {
        0
    } else {
        int_prefix(d, d.point)
    }
}

/// The number with its fraction cut off.
pub open spec fn int_value(d: Decimal) -> int {
    if d.neg {
        -int_magnitude(d)
    } else {
        int_magnitude(d)
    }
}

/// `v`, held between `lo` and `hi`.
pub open spec fn clamp(v: int, lo: int, hi: int) -> int {
    if v < lo {
        lo
    } else if v > hi {
        hi
    } else {
        v
    }
}

/// The first `j` digits write a number that does not shrink as `j` grows.
pub proof fn lemma_int_prefix_grows(d: Decimal, j: int, k: int)
    requires
        j <= k,
        all_digits(d.digits),
    ensures
        0 <= int_prefix(d, j) <= int_prefix(d, k),
    decreases k,
{
    if k <= 0 {
    } else if j == k {
        lemma_int_prefix_grows(d, j - 1, k - 1);
    } else {
        lemma_int_prefix_grows(d, j, k - 1);
        lemma_int_prefix_grows(d, k - 1, k - 1);
    }
}

fn count_leading_zeros(s: &Vec<u8>) -> (r: usize)
    ensures
        r == leading_zeros(s@, 0),
        r <= s@.len(),
{
    let mut i: usize = 0;
    while i < s.len() && s[i] == 0x30
        invariant
            i <= s@.len(),
            leading_zeros(s@, 0) == leading_zeros(s@, i as int),
        decreases s@.len() - i,
    {
        i += 1;
    }
    i
}

fn trim_trailing_zeros(s: &Vec<u8>) -> (r: usize)
    ensures
        r == trimmed_len(s@, s@.len() as int),
        r <= s@.len(),
{
    let mut n: usize = s.len();
    while n > 0 && s[n - 1] == 0x30
        invariant
            n <= s@.len(),
            trimmed_len(s@, s@.len() as int) == trimmed_len(s@, n as int),
        decreases n,
    {
        n -= 1;
    }
    n
}

/// The digits of a number are digits.
pub proof fn lemma_decimal_digits(t: Seq<u8>)
    requires
        t.len() <= usize::MAX,
    ensures
        decimal_of(t) matches Some(d) ==> all_digits(d.digits),
{
    if well_formed(t) {
        let l = layout_of(t);
        let all = mantissa(t);
        lemma_digits_end_bounds(t, l.int_lo);
        lemma_digits_end_bounds(t, l.frac_lo);
        lemma_joined_runs(t, l.int_lo, l.frac_lo);
        let lead = leading_zeros(all, 0);
        let end = trimmed_len(all, all.len() as int);
        lemma_zero_bounds(all, 0, all.len() as int);
        if lead < end {
            lemma_part_digits(all, lead, end);
        }
    }
}

/// Leading and trailing zeros lie inside the digit string.
pub proof fn lemma_zero_bounds(s: Seq<u8>, i: int, n: int)
    requires
        0 <= i <= s.len(),
        0 <= n <= s.len(),
    ensures
        i <= leading_zeros(s, i) <= s.len(),
        0 <= trimmed_len(s, n) <= n,
    decreases s.len() - i + n,
{
    if i < s.len() && s[i] == 0x30 {
        lemma_zero_bounds(s, i + 1, 0);
    }
    if 0 < n && s[n - 1] == 0x30 {
        lemma_zero_bounds(s, s.len() as int, n - 1);
    }
}

/// Reads a number text.
pub fn parse_decimal(t: &[u8]) -> (r: Option<Number>)
    ensures
        match r {
            Some(x) => decimal_of(t@) == Some(x@),
            None => decimal_of(t@) is None,
        },
        r matches Some(x) ==> all_digits(x@.digits),
{
    let n = t.len();
    proof {
        lemma_decimal_digits(t@);
    }
    read_decimal(t)
}

fn read_decimal(t: &[u8]) -> (r: Option<Number>)
    ensures
        match r {
            Some(x) => decimal_of(t@) == Some(x@),
            None => decimal_of(t@) is None,
        },
{
    let n = t.len();
    let a: usize = if n > 0 && t[0] == 0x2d { 1 } else { 0 };
    let c = skip_digits(t, a);
    let dot = c < n && t[c] == 0x2e;
    let frac_lo: usize = if dot { c + 1 } else { c };
    let d = skip_digits(t, frac_lo);
    let has_exp = d < n && (t[d] == 0x65 || t[d] == 0x45);
    let signed = has_exp && n - d > 1 && (t[d + 1] == 0x2b || t[d + 1] == 0x2d);
    let exp_lo: usize = if signed { d + 2 } else if has_exp { d + 1 } else { d };
    let exp_hi = skip_digits(t, exp_lo);
    let exp_neg = signed && t[d + 1] == 0x2d;
    let ghost l = layout_of(t@);
    proof {
        assert(l.int_lo == a && l.int_hi == c && l.frac_lo == frac_lo && l.frac_hi == d);
        assert(l.exp_lo == exp_lo && l.exp_hi == exp_hi && l.has_exp == has_exp && l.exp_neg
            == exp_neg);
    }
    if c <= a || exp_hi != n || (has_exp && exp_hi <= exp_lo) {
        return None;
    }
    proof {
        lemma_digits_run(t@, exp_lo as int);
    }
    let e: usize = match read_digits(t, exp_lo, exp_hi) {
        Some(v) => v,
        None => {
            return None;
        },
    };
    if e > MAX_EXPONENT {
        return None;
    }
    let mut all: Vec<u8> = Vec::new();
    append(&mut all, t, a, c);
    append(&mut all, t, frac_lo, d);
    proof {
        assert(all@ =~= mantissa(t@));
    }
    let lead = count_leading_zeros(&all);
    let end = trim_trailing_zeros(&all);
    if lead >= end {
        return Some(Number { neg: false, digits: Vec::new(), point: 0 });
    }
    let digits = copy_range(all.as_slice(), lead, end);
    let int_len: i128 = (c - a) as i128;
    let shift: i128 = if exp_neg { -(e as i128) } else { e as i128 };
    let point: i128 = int_len - (lead as i128) + shift;
    Some(Number { neg: a == 1, digits, point })
}

/// From `i` up to where the digits end, every byte is a digit.
pub proof fn lemma_digits_run(t: Seq<u8>, i: int)
    requires
        0 <= i <= t.len(),
    ensures
        i <= digits_end(t, i) <= t.len(),
        all_digits(t.subrange(i, digits_end(t, i))),
    decreases t.len() - i,
{
    if i < t.len() && 0x30 <= t[i] <= 0x39 {
        lemma_digits_run(t, i + 1);
        let e = digits_end(t, i);
        assert forall|j: int| 0 <= j < e - i implies 0x30 <= #[trigger] t.subrange(i, e)[j]
            <= 0x39 by {
            if j > 0 {
                assert(t.subrange(i, e)[j] == t.subrange(i + 1, e)[j - 1]);
            }
        }
    }
}

/// Two runs of digits, one after the other, are digits throughout.
pub proof fn lemma_joined_runs(t: Seq<u8>, i: int, j: int)
    requires
        0 <= i <= t.len(),
        0 <= j <= t.len(),
    ensures
        all_digits(t.subrange(i, digits_end(t, i)) + t.subrange(j, digits_end(t, j))),
{
    lemma_digits_run(t, i);
    lemma_digits_run(t, j);
    let x = t.subrange(i, digits_end(t, i));
    let y = t.subrange(j, digits_end(t, j));
    assert forall|k: int| 0 <= k < (x + y).len() implies 0x30 <= #[trigger] (x + y)[k] <= 0x39 by {
        if k < x.len() {
            assert((x + y)[k] == x[k]);
        } else {
            assert((x + y)[k] == y[k - x.len()]);
        }
    }
}

/// A part of a run of digits is a run of digits.
pub proof fn lemma_part_digits(s: Seq<u8>, lo: int, hi: int)
    requires
        0 <= lo <= hi <= s.len(),
        all_digits(s),
    ensures
        all_digits(s.subrange(lo, hi)),
{
    assert forall|k: int| 0 <= k < hi - lo implies 0x30 <= #[trigger] s.subrange(lo, hi)[k]
        <= 0x39 by {
        assert(s.subrange(lo, hi)[k] == s[lo + k]);
    }
}

/// Numeric equality of two numbers.
pub fn number_eq(x: &Number, y: &Number) -> (r: bool)
    ensures
        r == (x@ == y@),
{
    let same = bytes_eq(x.digits.as_slice(), y.digits.as_slice());
    proof {
        if same && x.neg == y.neg && x.point == y.point {
            assert(x@.digits == y@.digits);
        }
    }
    x.neg == y.neg && x.point == y.point && same
}

fn magnitude_lt(x: &Number, y: &Number) -> (r: bool)
    ensures
        r == magnitude_less(x@, y@),
{
    if y.digits.len() == 0 {
        false
    } else if x.digits.len() == 0 {
        true
    } else if x.point != y.point {
        x.point < y.point
    } else {
        bytes_less(x.digits.as_slice(), y.digits.as_slice())
    }
}

/// Numeric order of two numbers.
pub fn number_lt(x: &Number, y: &Number) -> (r: bool)
    ensures
        r == decimal_less(x@, y@),
{
    if x.neg != y.neg {
        x.neg
    } else if x.neg {
        magnitude_lt(y, x)
    } else {
        magnitude_lt(x, y)
    }
}

/// Tests whether both texts are numbers and write the same number.
pub fn numbers_equal(a: &[u8], b: &[u8]) -> (r: bool)
    ensures
        r == number_equal(a@, b@),
{
    match parse_decimal(a) {
        Some(x) => match parse_decimal(b) {
            Some(y) => number_eq(&x, &y),
            None => false,
        },
        None => false,
    }
}

/// Tests whether both texts are numbers and the first writes the smaller one.
pub fn numbers_less(a: &[u8], b: &[u8]) -> (r: bool)
    ensures
        r == number_less(a@, b@),
{
    match parse_decimal(a) {
        Some(x) => match parse_decimal(b) {
            Some(y) => number_lt(&x, &y),
            None => false,
        },
        None => false,
    }
}

/// Tests whether the text is a number other than zero.
pub fn is_nonzero(a: &[u8]) -> (r: bool)
    ensures
        r == number_nonzero(a@),
{
    match parse_decimal(a) {
        Some(x) => x.digits.len() > 0,
        None => false,
    }
}

/// The size of a number with its fraction cut off, held at `limit` where it
/// would go beyond.
pub fn magnitude_up_to(x: &Number, limit: u64) -> (r: u64)
    requires
        all_digits(x@.digits),
    ensures
        r == clamp(int_magnitude(x@), 0, limit as int),
{
    if x.digits.len() == 0 || x.point <= 0 {
        return 0;
    }
    let ghost d = x@;
    let n = x.digits.len();
    let mut j: i128 = 0;
    let mut acc: u64 = 0;
    while j < x.point
        invariant
            d == x@,
            n == x.digits@.len(),
            all_digits(d.digits),
            d.digits.len() > 0,
            0 <= j <= x.point,
            acc == int_prefix(d, j as int),
            acc <= limit,
        decreases x.point - j,
    {
        let digit: u64 = if j < n as i128 {
            (x.digits[j as usize] - 0x30) as u64
        } else {
            0
        };
        proof {
            assert(digit == digit_at(d, j as int));
            lemma_int_prefix_grows(d, j + 1, x.point as int);
        }
        if digit > limit || acc > (limit - digit) / 10 {
            proof {
                assert(int_prefix(d, j + 1) == acc * 10 + digit);
                assert(acc * 10 + digit > limit);
            }
            return limit;
        }
        acc = acc * 10 + digit;
        j += 1;
    }
    acc
}

} // verus!
