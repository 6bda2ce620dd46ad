//! Exact decimal numbers and the two numeric notations of the element set:
//! plain fixed-point fields (`" .00000950"`, `"51.6443"`) and the
//! assumed-decimal-point notation (`"-36258-4"` is `-0.36258 × 10^-4`).

use vstd::prelude::*;
use vstd::arithmetic::div_mod::lemma_fundamental_div_mod;
use crate::text::{all_digits, digits_value, is_digit, pow10, lemma_digits_value_bound, lemma_pow10_monotone, lemma_pow10_positive, lemma_pow10_values, parse_digits, pow10_u128, chars_of};

verus! {

/// The most digits a mantissa may have.
pub const MAX_MANTISSA_DIGITS: usize = 18;

/// The most digits an exponent may have.
pub const MAX_EXPONENT_DIGITS: usize = 9;

/// Decoded values keep this many places after the decimal point at most.
pub const DECIMAL_PLACES: i32 = 15;

/// The number `mantissa × 10^exponent`, held exactly.
#[derive(Clone, Copy, Debug, PartialEq, Eq, Structural)]
pub struct Decimal {
    pub mantissa: i64,
    pub exponent: i32,
}

/// What a `Decimal` stands for, over unbounded integers.
pub ghost struct DecimalModel {
    pub mantissa: int,
    pub exponent: int,
}

impl View for Decimal {
    type V = DecimalModel;

    open spec fn view(&self) -> DecimalModel {
        DecimalModel { mantissa: self.mantissa as int, exponent: self.exponent as int }
    }
}

/// The first index at or after `i` that does not hold a digit.
pub open spec fn digits_end(s: Seq<char>, i: int) -> int
    decreases s.len() - i,
{
    if 0 <= i < s.len() && is_digit(s[i]) {
        digits_end(s, i + 1)
    } else {
        i
    }
}

pub open spec fn signed(negative: bool, magnitude: int) -> int {
    if negative {
        -magnitude
    } else {
        magnitude
    }
}

/// `m / q` rounded to the nearest integer, halves away from zero.
pub open spec fn round_half_away(m: int, q: int) -> int {
    if m >= 0 {
        (m + q / 2) / q
    } else {
        -((-m + q / 2) / q)
    }
}

/// `m × 10^x` rounded to at most `DECIMAL_PLACES` places after the point.
pub open spec fn round_to_places(m: int, x: int) -> DecimalModel {
    if x >= -DECIMAL_PLACES {
        DecimalModel { mantissa: m, exponent: x }
    } else {
        DecimalModel {
            mantissa: round_half_away(m, pow10((-DECIMAL_PLACES - x) as nat) as int),
            exponent: -DECIMAL_PLACES as int,
        }
    }
}

/// Length of a leading sign: `-` or `+` where `plus` allows it.
pub open spec fn sign_len(s: Seq<char>, plus: bool) -> int {
    if s.len() > 0 && (s[0] == '-' || (plus && s[0] == '+')) {
        1
    } else {
        0
    }
}

/// A plain fixed-point number: an optional sign, then digits with at most one
/// decimal point among them, at least one digit and at most
/// `MAX_MANTISSA_DIGITS`.
pub open spec fn fixed_point_value(s: Seq<char>) -> Option<DecimalModel> {
    let a = sign_len(s, true);
    let p = digits_end(s, a);
    let frac = if p < s.len() { s.subrange(p + 1, s.len() as int) } else { Seq::empty() };
    let digits = s.subrange(a, p) + frac;
    if p < s.len() && (s[p] != '.' || !all_digits(frac)) {
        None
    } else if digits.len() == 0 || digits.len() > MAX_MANTISSA_DIGITS {
        None
    } else {
        Some(
            DecimalModel {
                mantissa: signed(a == 1 && s[0] == '-', digits_value(digits) as int),
                exponent: -frac.len(),
            },
        )
    }
}

/// The parts of an assumed-decimal-point field: whether the mantissa is
/// negative, its digits, and the exponent. The field is an optional `-`,
/// the mantissa digits, then optionally `+` or `-` and the exponent digits.
pub open spec fn assumed_parts(s: Seq<char>) -> Option<(bool, Seq<char>, int)> {
    let a = sign_len(s, false);
    let p = digits_end(s, a);
    let digits = s.subrange(a, p);
    let exp_digits = s.subrange(p + 1, s.len() as int);
    if digits.len() == 0 || digits.len() > MAX_MANTISSA_DIGITS {
        None
    } else if p == s.len() {
        Some((a == 1, digits, 0))
    } else if (s[p] == '+' || s[p] == '-') && exp_digits.len() > 0 && exp_digits.len()
        <= MAX_EXPONENT_DIGITS && all_digits(exp_digits) {
        Some((a == 1, digits, signed(s[p] == '-', digits_value(exp_digits) as int)))
    } else {
        None
    }
}

/// The value of an assumed-decimal-point field: `0.<digits> × 10^exponent`,
/// rounded to `DECIMAL_PLACES` places.
pub open spec fn assumed_value(s: Seq<char>) -> Option<DecimalModel> {
    match assumed_parts(s) {
        Some((negative, digits, e)) => Some(
            round_to_places(signed(negative, digits_value(digits) as int), e - digits.len()),
        ),
        None => None,
    }
}

pub(crate) proof fn lemma_digits_end_bounds(s: Seq<char>, i: int)
    requires
        0 <= i <= s.len(),
    ensures
        i <= digits_end(s, i) <= s.len(),
        all_digits(s.subrange(i, digits_end(s, i))),
        digits_end(s, i) < s.len() ==> !is_digit(s[digits_end(s, i)]),
    decreases s.len() - i,
{
    if i < s.len() && is_digit(s[i]) {
        lemma_digits_end_bounds(s, i + 1);
        let e = digits_end(s, i);
        assert forall|j: int| 0 <= j < s.subrange(i, e).len() implies is_digit(
            #[trigger] s.subrange(i, e)[j],
        ) by {
            if j > 0 {
                assert(s.subrange(i, e)[j] == s.subrange(i + 1, e)[j - 1]);
            }
        }
    }
}

pub open spec fn abs(x: int) -> int {
    if x < 0 {
        -x
    } else {
        x
    }
}

/// Rounding to a multiple of an even `q` moves a number by at most `q / 2`.
proof fn lemma_round_half_away(m: int, q: int)
    requires
        q > 0,
        q % 2 == 0,
    ensures
        2 * abs(round_half_away(m, q) * q - m) <= q,
{
    let n = abs(m);
    let t = n + q / 2;
    lemma_fundamental_div_mod(t, q);
    lemma_fundamental_div_mod(q, 2);
    let r = t / q;
    assert(0 <= t % q < q);
    assert(2 * abs(r * q - n) <= q) by (nonlinear_arith)
        requires
            t == q * r + t % q,
            0 <= t % q < q,
            t == n + q / 2,
            q == 2 * (q / 2),
    ;
    if m < 0 {
        assert(round_half_away(m, q) == -r);
        assert((-r) * q - m == -(r * q - n)) by (nonlinear_arith)
            requires
                n == -m,
        ;
    }
}

proof fn lemma_pow10_even(k: nat)
    requires
        k >= 1,
    ensures
        pow10(k) % 2 == 0,
{
    assert(pow10(k) == 10 * pow10((k - 1) as nat));
}

/// Decoding an assumed-decimal-point field yields its digits × 10^(exponent
/// − number of digits): exactly when that value needs at most
/// `DECIMAL_PLACES` places after the point, and otherwise within half a unit
/// of the last place kept.
pub proof fn lemma_assumed_value_is_scaled_digits(s: Seq<char>)
    requires
        assumed_parts(s) is Some,
    ensures
        ({
            let (negative, digits, e) = assumed_parts(s).unwrap();
            let exact = signed(negative, digits_value(digits) as int);
            let x = e - digits.len();
            let d = assumed_value(s).unwrap();
            &&& x >= -DECIMAL_PLACES ==> d.mantissa == exact && d.exponent == x
            &&& x < -DECIMAL_PLACES ==> d.exponent == -DECIMAL_PLACES && 2 * abs(
                d.mantissa * pow10((-DECIMAL_PLACES - x) as nat) - exact,
            ) <= pow10((-DECIMAL_PLACES - x) as nat)
        }),
{
    let (negative, digits, e) = assumed_parts(s).unwrap();
    let x = e - digits.len();
    if x < -DECIMAL_PLACES {
        let k = (-DECIMAL_PLACES - x) as nat;
        lemma_pow10_positive(k);
        lemma_pow10_even(k);
        lemma_round_half_away(signed(negative, digits_value(digits) as int), pow10(k) as int);
    }
}

/// The index of the first non-digit at or after `i`.
pub(crate) fn scan_digits(v: &[char], i: usize) -> (r: usize)
    requires
        i <= v@.len(),
    ensures
        r == digits_end(v@, i as int),
{
    let mut j = i;
    while j < v.len() && '0' <= v[j] && v[j] <= '9'
        invariant
            i <= j <= v@.len(),
            digits_end(v@, i as int) == digits_end(v@, j as int),
        decreases v@.len() - j,
    {
        j = j + 1;
    }
    j
}

/// `±magnitude × 10^x` rounded as `round_to_places` says.
fn round_decimal(negative: bool, magnitude: u64, x: i64) -> (r: Decimal)
    requires
        magnitude < pow10(MAX_MANTISSA_DIGITS as nat),
        i32::MIN + 100 <= x <= i32::MAX,
    ensures
        r@ == round_to_places(signed(negative, magnitude as int), x as int),
{
    proof {
        lemma_pow10_values();
    }
    let m: i64 = if negative { -(magnitude as i64) } else { magnitude as i64 };
    if x >= -(DECIMAL_PLACES as i64) {
        return Decimal { mantissa: m, exponent: x as i32 };
    }
    let k = (-(DECIMAL_PLACES as i64) - x) as usize;
    let ghost q = pow10(k as nat) as int;
    if k > MAX_MANTISSA_DIGITS {
        proof {
            lemma_pow10_monotone(19, k as nat);
            lemma_pow10_values();
            assert((magnitude + q / 2) / q == 0) by (nonlinear_arith)
                requires
                    magnitude < 1000000000000000000,
                    q >= 10000000000000000000,
            ;
        }
        return Decimal { mantissa: 0, exponent: -DECIMAL_PLACES };
    }
    let p = pow10_u128(k) as u64;
    proof {
        lemma_pow10_monotone(k as nat, 18);
        lemma_pow10_positive(k as nat);
    }
    let rounded = (magnitude + p / 2) / p;
    assert(rounded <= magnitude) by (nonlinear_arith)
        requires
            rounded as int == (magnitude as int + p as int / 2) / p as int,
            p >= 1,
    ;
    let mantissa: i64 = if negative { -(rounded as i64) } else { rounded as i64 };
    Decimal { mantissa, exponent: -DECIMAL_PLACES }
}

/// Decodes the plain fixed-point number held in `v[from..to]`.
pub fn decode_fixed_point(v: &[char], from: usize, to: usize) -> (r: Option<Decimal>)
    requires
        from <= to <= v@.len(),
    ensures
        match (r, fixed_point_value(v@.subrange(from as int, to as int))) {
            (Some(d), Some(m)) => d@ == m,
            (None, None) => true,
            _ => false,
        },
{
    let ghost s = v@.subrange(from as int, to as int);
    let w = slice_subrange(v, from, to);
    assert(w@ == s);
    decode_fixed_point_all(&w)
}

pub(crate) fn slice_subrange(v: &[char], from: usize, to: usize) -> (r: Vec<char>)
    requires
        from <= to <= v@.len(),
    ensures
        r@ == v@.subrange(from as int, to as int),
{
    let mut r: Vec<char> = Vec::new();
    let mut i = from;
    while i < to
        invariant
            from <= i <= to <= v@.len(),
            r@ == v@.subrange(from as int, i as int),
        decreases to - i,
    {
        r.push(v[i]);
        assert(v@.subrange(from as int, i + 1) =~= v@.subrange(from as int, i as int).push(v@[i as int]));
        i = i + 1;
    }
    r
}

fn decode_fixed_point_all(v: &Vec<char>) -> (r: Option<Decimal>)
    ensures
        match (r, fixed_point_value(v@)) {
            (Some(d), Some(m)) => d@ == m,
            (None, None) => true,
            _ => false,
        },
{
    let ghost s = v@;
    let n = v.len();
    let a: usize = if n > 0 && (v[0] == '-' || v[0] == '+') { 1 } else { 0 };
    let p = scan_digits(v, a);
    proof {
        lemma_digits_end_bounds(s, a as int);
    }
    let mut frac_start = p;
    if p < n {
        if v[p] != '.' {
            return None;
        }
        let q = scan_digits(v, p + 1);
        proof {
            lemma_digits_end_bounds(s, p + 1);
        }
        if q != n {
            assert(!all_digits(s.subrange(p + 1, n as int))) by {
                assert(s.subrange(p + 1, n as int)[q - p - 1] == s[q as int]);
            }
            return None;
        }
        frac_start = p + 1;
    }
    let ghost frac = if p < n { s.subrange(p + 1, n as int) } else { Seq::empty() };
    let ghost digits = s.subrange(a as int, p as int) + frac;
    let count = (p - a) + (n - frac_start);
    assert(digits.len() == count);
    if count == 0 || count > MAX_MANTISSA_DIGITS {
        return None;
    }
    let mut joined: Vec<char> = slice_subrange(v, a, p);
    let mut i = frac_start;
    while i < n
        invariant
            frac_start <= i <= n == v@.len(),
            a <= p <= frac_start,
            s == v@,
            joined@ == s.subrange(a as int, p as int) + s.subrange(frac_start as int, i as int),
        decreases n - i,
    {
        joined.push(v[i]);
        assert(s.subrange(frac_start as int, i + 1) =~= s.subrange(frac_start as int, i as int).push(s[i as int]));
        i = i + 1;
    }
    assert(joined@ =~= digits);
    assert(all_digits(digits)) by {
        assert forall|j: int| 0 <= j < digits.len() implies is_digit(#[trigger] digits[j]) by {
            if j < p - a {
                assert(digits[j] == s.subrange(a as int, p as int)[j]);
            } else {
                assert(digits[j] == frac[j - (p - a)]);
            }
        }
    }
    proof {
        lemma_digits_value_bound(digits);
        lemma_pow10_monotone(count as nat, 18);
        lemma_pow10_values();
    }
    let magnitude = parse_digits(&joined, 0, count, 999999999999999999);
    assert(joined@.subrange(0, count as int) =~= digits);
    let magnitude = magnitude.unwrap() as u64;
    let mantissa: i64 = if a == 1 && v[0] == '-' { -(magnitude as i64) } else { magnitude as i64 };
    Some(Decimal { mantissa, exponent: -((n - frac_start) as i32) })
}

/// Decodes the assumed-decimal-point field held in `v[from..to]`.
pub fn decode_assumed(v: &[char], from: usize, to: usize) -> (r: Option<Decimal>)
    requires
        from <= to <= v@.len(),
    ensures
        match (r, assumed_value(v@.subrange(from as int, to as int))) {
            (Some(d), Some(m)) => d@ == m,
            (None, None) => true,
            _ => false,
        },
{
    let w = slice_subrange(v, from, to);
    decode_assumed_all(&w)
}

fn decode_assumed_all(v: &Vec<char>) -> (r: Option<Decimal>)
    ensures
        match (r, assumed_value(v@)) {
            (Some(d), Some(m)) => d@ == m,
            (None, None) => true,
            _ => false,
        },
{
    let ghost s = v@;
    let n = v.len();
    let a: usize = if n > 0 && v[0] == '-' { 1 } else { 0 };
    let p = scan_digits(v, a);
    proof {
        lemma_digits_end_bounds(s, a as int);
    }
    let count = p - a;
    if count == 0 || count > MAX_MANTISSA_DIGITS {
        return None;
    }
    let ghost digits = s.subrange(a as int, p as int);
    proof {
        lemma_digits_value_bound(digits);
        lemma_pow10_monotone(count as nat, 18);
        lemma_pow10_values();
    }
    let magnitude = parse_digits(v, a, p, 999999999999999999).unwrap() as u64;
    let mut e: i64 = 0;
    if p < n {
        if !(v[p] == '+' || v[p] == '-') || n - (p + 1) == 0 || n - (p + 1) > MAX_EXPONENT_DIGITS {
            return None;
        }
        let ghost exp_digits = s.subrange(p + 1, n as int);
        proof {
            if all_digits(exp_digits) {
                lemma_digits_value_bound(exp_digits);
                lemma_pow10_monotone(exp_digits.len(), 9);
                lemma_pow10_values();
            }
        }
        let ev = parse_digits(v, p + 1, n, 999999999);
        match ev {
            None => {
                return None;
            },
            Some(ev) => {
                e = if v[p] == '-' { -(ev as i64) } else { ev as i64 };
            },
        }
    }
    Some(round_decimal(a == 1, magnitude, e - count as i64))
}

/// Decodes a plain fixed-point field such as `"-.00000044"` or `"15.49165514"`.
pub fn parse_fixed_point(input: &str) -> (r: Option<Decimal>)
    ensures
        match (r, fixed_point_value(input@)) {
            (Some(d), Some(m)) => d@ == m,
            (None, None) => true,
            _ => false,
        },
{
    let v = chars_of(input);
    decode_fixed_point_all(&v)
}

/// Decodes an assumed-decimal-point field such as `"14141-3"` (which is
/// `0.14141 × 10^-3`).
pub fn parse_decimal_point_assumed(input: &str) -> (r: Option<Decimal>)
    ensures
        match (r, assumed_value(input@)) {
            (Some(d), Some(m)) => d@ == m,
            (None, None) => true,
            _ => false,
        },
{
    let v = chars_of(input);
    decode_assumed_all(&v)
}

} // verus!
