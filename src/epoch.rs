//! The epoch field: a two-digit year and a fractional day of that year,
//! turned into an instant in UTC.

use vstd::prelude::*;
use vstd::arithmetic::div_mod::lemma_fundamental_div_mod;
use chrono::{NaiveDate, NaiveDateTime, NaiveTime, TimeDelta};
use crate::error::{DecodeError, Field, Reason};
use crate::text::{all_digits, chars_of, digits_value, is_digit, lemma_digits_value_bound, lemma_pow10_monotone, lemma_pow10_positive, lemma_pow10_values, parse_digits, pow10, pow10_u128};
use crate::decimal::{digits_end, lemma_digits_end_bounds, scan_digits};

verus! {

pub const MS_PER_DAY: u64 = 86_400_000;

/// The largest day number the three-digit day field can hold.
pub const MAX_DAY: u64 = 999;

/// The most digits the fraction of the day may have.
pub const MAX_FRACTION_DIGITS: usize = 24;

/// The text that chrono's `to_rfc3339` gives for the UTC instant this many
/// milliseconds after 1970-01-01T00:00:00Z.
pub uninterp spec fn rfc3339_of(unix_ms: int) -> Seq<char>;

/// Days from 1970-01-01 to January 1st of `year` on the proleptic Gregorian
/// calendar: 365 a year, plus one for each leap year (divisible by 4, but
/// not by 100 unless by 400) in between.
pub open spec fn days_before_year(year: int) -> int {
    365 * (year - 1970) + ((year - 1) / 4 - 492) - ((year - 1) / 100 - 19) + ((year - 1) / 400 - 4)
}

/// Two-digit years below 57 are in the 2000s, the others in the 1900s.
pub open spec fn pivot_year(yy: int) -> int {
    if yy < 57 {
        2000 + yy
    } else {
        1900 + yy
    }
}

/// The milliseconds in `0.<frac>` of a day, rounded to the nearest, halves up.
pub open spec fn fraction_ms(frac: Seq<char>) -> int {
    let q = pow10(frac.len()) as int;
    (2 * digits_value(frac) * MS_PER_DAY + q) / (2 * q)
}

/// The parts of an epoch field.
pub ghost struct EpochModel {
    pub year: int,
    /// Day of the year, from 1.
    pub day: int,
    /// Milliseconds into that day; a whole day when the fraction rounds up.
    pub ms_of_day: int,
}

/// Milliseconds from 1970-01-01T00:00:00Z to the instant an epoch names.
pub open spec fn instant_ms(m: EpochModel) -> int {
    (days_before_year(m.year) + m.day - 1) * MS_PER_DAY + m.ms_of_day
}

pub open spec fn has_separator(s: Seq<char>) -> bool {
    exists|i: int| 2 <= i < s.len() && s[i] == '.'
}

pub open spec fn bad_epoch() -> DecodeError {
    DecodeError::MalformedRecord { field: Field::Epoch, reason: Reason::BadEpoch }
}

/// An epoch field: two digits of year, the day (1 to `MAX_DAY`) in
/// digits, counted from January 1st as day 1 and running on into the
/// next years, a `.`, and one to `MAX_FRACTION_DIGITS` digits of fraction.
pub open spec fn epoch_parts(s: Seq<char>) -> Result<EpochModel, DecodeError> {
    let p = digits_end(s, 2);
    let day = s.subrange(2, p);
    let frac = s.subrange(p + 1, s.len() as int);
    if !has_separator(s) {
        Err(DecodeError::UnsupportedEpochFormat)
    } else if !is_digit(s[0]) || !is_digit(s[1]) || s[p] != '.' || day.len() == 0 {
        Err(bad_epoch())
    } else if digits_value(day) < 1 || digits_value(day) > MAX_DAY {
        Err(bad_epoch())
    } else if frac.len() == 0 || frac.len() > MAX_FRACTION_DIGITS || !all_digits(frac) {
        Err(bad_epoch())
    } else {
        Ok(
            EpochModel {
                year: pivot_year(digits_value(s.subrange(0, 2)) as int),
                day: digits_value(day) as int,
                ms_of_day: fraction_ms(frac),
            },
        )
    }
}

/// An instant in UTC.
#[derive(Debug)]
pub struct Epoch {
    /// Whole seconds since 1970-01-01T00:00:00Z, rounded down.
    pub unix_seconds: i64,
    /// Milliseconds past `unix_seconds`.
    pub millis: u32,
    /// The instant in RFC 3339 / ISO 8601 form.
    pub iso8601: String,
}

impl Epoch {
    /// The epoch is `unix_ms` milliseconds after 1970-01-01T00:00:00Z.
    pub open spec fn is_instant(&self, unix_ms: int) -> bool {
        &&& self.unix_seconds * 1000 + self.millis == unix_ms
        &&& self.millis < 1000
        &&& self.iso8601@ == rfc3339_of(unix_ms)
    }

    pub fn timestamp(&self) -> (r: i64)
        ensures
            r == self.unix_seconds,
    {
        self.unix_seconds
    }
}

/// Relies on chrono: `NaiveDate::from_ymd_opt(year, 1, 1)`,
/// `NaiveTime::from_hms_milli_opt`, `NaiveDateTime + TimeDelta::days`, then on
/// the resulting `DateTime<Utc>` `timestamp` (non-leap seconds since
/// 1970-01-01 UTC, proleptic Gregorian calendar) and `to_rfc3339`.
#[verifier::external_body]
fn utc_instant(year: i32, day_offset: i64, hour: u32, minute: u32, second: u32, milli: u32) -> (r: (i64, String))
    requires
        1900 <= year <= 2100,
        0 <= day_offset <= 1000,
        hour < 24,
        minute < 60,
        second < 60,
        milli < 1000,
    ensures
        r.0 == (days_before_year(year as int) + day_offset) * 86400 + hour * 3600 + minute * 60 + second,
        r.1@ == rfc3339_of(r.0 * 1000 + milli),
{
    let date = NaiveDate::from_ymd_opt(year, 1, 1).unwrap();
    let time = NaiveTime::from_hms_milli_opt(hour, minute, second, milli).unwrap();
    let instant = (NaiveDateTime::new(date, time) + TimeDelta::days(day_offset)).and_utc();
    (instant.timestamp(), instant.to_rfc3339())
}

/// Index of the first `.` at or after `i`, or `v.len()`.
fn find_dot(v: &[char], i: usize) -> (r: usize)
    requires
        i <= v@.len(),
    ensures
        i <= r <= v@.len(),
        r < v@.len() ==> v@[r as int] == '.',
        forall|j: int| i <= j < r ==> v@[j] != '.',
{
    let mut j = i;
    while j < v.len() && v[j] != '.'
        invariant
            i <= j <= v@.len(),
            forall|k: int| i <= k < j ==> v@[k] != '.',
        decreases v@.len() - j,
    {
        j = j + 1;
    }
    j
}

/// One more day in the epoch field moves its instant on by exactly one day,
/// with the same time of day.
pub proof fn lemma_next_day(m: EpochModel)
    ensures
        instant_ms(EpochModel { day: m.day + 1, ..m }) == instant_ms(m) + MS_PER_DAY,
{
}

/// Two epoch fields with the same year and the same fraction, whose days
/// differ by one, name instants exactly one day apart.
pub proof fn lemma_next_day_field(a: Seq<char>, b: Seq<char>)
    requires
        epoch_parts(a) is Ok,
        epoch_parts(b) is Ok,
        a.subrange(0, 2) == b.subrange(0, 2),
        a.subrange(digits_end(a, 2) + 1, a.len() as int) == b.subrange(digits_end(b, 2) + 1, b.len() as int),
        digits_value(b.subrange(2, digits_end(b, 2))) == digits_value(a.subrange(2, digits_end(a, 2))) + 1,
    ensures
        instant_ms(epoch_parts(b)->Ok_0) == instant_ms(epoch_parts(a)->Ok_0) + MS_PER_DAY,
{
}

/// Decodes an epoch field such as `"24170.91992694"`.
pub fn get_epoch_from_tle(tle_epoch: &str) -> (r: Result<Epoch, DecodeError>)
    ensures
        match epoch_parts(tle_epoch@) {
            Ok(m) => r matches Ok(e) && e.is_instant(instant_ms(m)),
            Err(err) => r matches Err(e) && e == err,
        },
{
    let v = chars_of(tle_epoch);
    decode_epoch(&v)
}

pub fn decode_epoch(v: &Vec<char>) -> (r: Result<Epoch, DecodeError>)
    ensures
        match epoch_parts(v@) {
            Ok(m) => r matches Ok(e) && e.is_instant(instant_ms(m)),
            Err(err) => r matches Err(e) && e == err,
        },
{
    let ghost s = v@;
    let n = v.len();
    let dot = if n < 2 { n } else { find_dot(v, 2) };
    if dot >= n {
        assert(!has_separator(s));
        return Err(DecodeError::UnsupportedEpochFormat);
    }
    assert(has_separator(s));
    let bad = DecodeError::MalformedRecord { field: Field::Epoch, reason: Reason::BadEpoch };
    let p = scan_digits(v, 2);
    proof {
        lemma_digits_end_bounds(s, 2);
    }
    if !('0' <= v[0] && v[0] <= '9' && '0' <= v[1] && v[1] <= '9') || p != dot || p == 2 {
        proof {
            if dot < p {
                assert(is_digit(s.subrange(2, p as int)[dot - 2]));
            }
            if p < dot {
                assert(s[p as int] != '.');
            }
        }
        return Err(bad);
    }
    let day = parse_digits(v, 2, p, MAX_DAY as u128);
    let day = match day {
        None => {
            return Err(bad);
        },
        Some(d) => d as u64,
    };
    if day < 1 {
        return Err(bad);
    }
    let k = n - (p + 1);
    if k == 0 || k > MAX_FRACTION_DIGITS {
        return Err(bad);
    }
    let q = scan_digits(v, p + 1);
    proof {
        lemma_digits_end_bounds(s, p + 1);
    }
    if q != n {
        assert(!all_digits(s.subrange(p + 1, n as int))) by {
            assert(s.subrange(p + 1, n as int)[q - p - 1] == s[q as int]);
        }
        return Err(bad);
    }
    let ghost frac = s.subrange(p + 1, n as int);
    proof {
        lemma_digits_value_bound(frac);
        lemma_pow10_monotone(k as nat, 24);
        lemma_pow10_values();
    }
    let f = parse_digits(v, p + 1, n, 999_999_999_999_999_999_999_999).unwrap();
    let pk = pow10_u128(k);
    proof {
        lemma_digits_value_bound(frac);
        lemma_pow10_positive(k as nat);
        lemma_pow10_monotone(k as nat, 24);
        lemma_pow10_values();
        assert(2 * f * 86400000 + pk <= 2 * 1000000000000000000000000 * 86400000 + 1000000000000000000000000) by (nonlinear_arith)
            requires
                f < pk,
                pk <= 1000000000000000000000000,
        ;
    }
    let ms = (2 * f * (MS_PER_DAY as u128) + pk) / (2 * pk);
    assert(ms <= MS_PER_DAY) by (nonlinear_arith)
        requires
            ms == (2 * f * 86400000 + pk) / (2 * pk),
            f < pk,
            pk >= 1,
    ;
    let ms = ms as u64;
    let yy = ((v[0] as u32 - '0' as u32) * 10 + (v[1] as u32 - '0' as u32)) as i32;
    proof {
        let y = s.subrange(0, 2);
        assert(y.drop_last().drop_last() =~= Seq::<char>::empty());
        assert(y.drop_last() =~= seq![s[0]]);
        assert(seq![s[0]].drop_last() =~= Seq::<char>::empty());
        assert(digits_value(seq![s[0]]) == digits_value(Seq::<char>::empty()) * 10 + (s[0] as int - '0' as int));
        assert(digits_value(y) == digits_value(y.drop_last()) * 10 + (s[1] as int - '0' as int));
        assert(digits_value(y) == yy);
    }
    let year: i32 = if yy < 57 { 2000 + yy } else { 1900 + yy };
    let ghost m = EpochModel { year: year as int, day: day as int, ms_of_day: ms as int };
    assert(epoch_parts(s) == Ok::<EpochModel, DecodeError>(m));
    Ok(epoch_at(year, day, ms))
}

/// A time of day in milliseconds is its hours, minutes, seconds and
/// milliseconds.
proof fn lemma_time_of_day(d: int)
    requires
        0 <= d,
    ensures
        d == 3_600_000 * (d / 3_600_000) + 60_000 * ((d % 3_600_000) / 60_000) + 1000 * ((d
            % 3_600_000 % 60_000) / 1000) + d % 3_600_000 % 60_000 % 1000,
        (d % 3_600_000) / 60_000 < 60,
        (d % 3_600_000 % 60_000) / 1000 < 60,
        d % 3_600_000 % 60_000 % 1000 < 1000,
{
    lemma_fundamental_div_mod(d, 3_600_000);
    lemma_fundamental_div_mod(d % 3_600_000, 60_000);
    lemma_fundamental_div_mod(d % 3_600_000 % 60_000, 1000);
}

/// The instant `ms` milliseconds into day `day` of `year`.
fn epoch_at(year: i32, day: u64, ms: u64) -> (r: Epoch)
    requires
        1957 <= year <= 2056,
        1 <= day <= MAX_DAY,
        ms <= MS_PER_DAY,
    ensures
        r.is_instant(instant_ms(EpochModel { year: year as int, day: day as int, ms_of_day: ms as int })),
{
    let total = (day - 1) * MS_PER_DAY + ms;
    let day_offset = total / MS_PER_DAY;
    let in_day = total % MS_PER_DAY;
    let hour = (in_day / 3_600_000) as u32;
    let minute = ((in_day % 3_600_000) / 60_000) as u32;
    let second = ((in_day % 3_600_000 % 60_000) / 1000) as u32;
    let milli = (in_day % 3_600_000 % 60_000 % 1000) as u32;
    proof {
        lemma_fundamental_div_mod(total as int, MS_PER_DAY as int);
        lemma_time_of_day(in_day as int);
    }
    let (unix_seconds, iso8601) = utc_instant(year, day_offset as i64, hour, minute, second, milli);
    assert(unix_seconds * 1000 + milli == days_before_year(year as int) * MS_PER_DAY + total);
    Epoch { unix_seconds, millis: milli, iso8601 }
}

} // verus!
