//! The element set record and the fixed-column decoder that builds it from
//! a three-line group.

use vstd::prelude::*;
use crate::decimal::{assumed_value, decode_assumed, decode_fixed_point, fixed_point_value, slice_subrange, Decimal, DecimalModel};
use crate::epoch::{decode_epoch, epoch_parts, instant_ms, rfc3339_of};
use crate::error::{DecodeError, Field, Reason};
use crate::lines::{line_bounds, lines_of};
use vstd::arithmetic::div_mod::lemma_fundamental_div_mod_converse;
use crate::text::{all_digits, chars_of, digits_value, parse_digits, string_of, trim, trim_bounds};

verus! {

/// One decoded element set.
#[derive(Debug)]
pub struct TLE {
    pub name: String,
    /// The catalog number, which identifies the object.
    pub satellite_number: u32,
    pub classification: char,
    pub international_designator: String,
    /// Seconds since 1970-01-01T00:00:00Z, rounded down.
    pub epoch: i64,
    /// The epoch in RFC 3339 form.
    pub date_time: String,
    pub first_derivative_mean_motion: Decimal,
    pub second_derivative_mean_motion: Decimal,
    pub drag_term: Decimal,
    pub ephemeris_type: u32,
    pub element_number: u32,
    pub inclination: Decimal,
    pub right_ascension: Decimal,
    pub eccentricity: Decimal,
    pub argument_of_perigee: Decimal,
    pub mean_anomaly: Decimal,
    pub mean_motion: Decimal,
    pub revolution_number: u32,
}

pub ghost struct TleView {
    pub name: Seq<char>,
    pub satellite_number: int,
    pub classification: char,
    pub international_designator: Seq<char>,
    pub epoch: int,
    pub date_time: Seq<char>,
    pub first_derivative_mean_motion: DecimalModel,
    pub second_derivative_mean_motion: DecimalModel,
    pub drag_term: DecimalModel,
    pub ephemeris_type: int,
    pub element_number: int,
    pub inclination: DecimalModel,
    pub right_ascension: DecimalModel,
    pub eccentricity: DecimalModel,
    pub argument_of_perigee: DecimalModel,
    pub mean_anomaly: DecimalModel,
    pub mean_motion: DecimalModel,
    pub revolution_number: int,
}

impl View for TLE {
    type V = TleView;

    open spec fn view(&self) -> TleView {
        TleView {
            name: self.name@,
            satellite_number: self.satellite_number as int,
            classification: self.classification,
            international_designator: self.international_designator@,
            epoch: self.epoch as int,
            date_time: self.date_time@,
            first_derivative_mean_motion: self.first_derivative_mean_motion@,
            second_derivative_mean_motion: self.second_derivative_mean_motion@,
            drag_term: self.drag_term@,
            ephemeris_type: self.ephemeris_type as int,
            element_number: self.element_number as int,
            inclination: self.inclination@,
            right_ascension: self.right_ascension@,
            eccentricity: self.eccentricity@,
            argument_of_perigee: self.argument_of_perigee@,
            mean_anomaly: self.mean_anomaly@,
            mean_motion: self.mean_motion@,
            revolution_number: self.revolution_number as int,
        }
    }
}

/// The columns of each field, counted from 0, end excluded. The first eight
/// fields after `Epoch` lie on the first line, the rest on the second.
pub open spec fn columns(f: Field) -> (int, int) {
    match f {
        Field::CatalogNumber => (2, 7),
        Field::Classification => (7, 8),
        Field::InternationalDesignator => (9, 17),
        Field::Epoch => (18, 33),
        Field::FirstDerivativeMeanMotion => (34, 43),
        Field::SecondDerivativeMeanMotion => (45, 52),
        Field::DragTerm => (54, 61),
        Field::EphemerisType => (62, 63),
        Field::ElementSetNumber => (65, 68),
        Field::Inclination => (9, 16),
        Field::RightAscension => (17, 25),
        Field::Eccentricity => (26, 33),
        Field::ArgumentOfPerigee => (34, 42),
        Field::MeanAnomaly => (42, 51),
        Field::MeanMotion => (52, 63),
        Field::RevolutionNumber => (63, 68),
        _ => (0, 0),
    }
}

fn field_columns(f: Field) -> (r: (usize, usize))
    ensures
        r.0 == columns(f).0,
        r.1 == columns(f).1,
        r.0 <= r.1,
{
    match f {
        Field::CatalogNumber => (2, 7),
        Field::Classification => (7, 8),
        Field::InternationalDesignator => (9, 17),
        Field::Epoch => (18, 33),
        Field::FirstDerivativeMeanMotion => (34, 43),
        Field::SecondDerivativeMeanMotion => (45, 52),
        Field::DragTerm => (54, 61),
        Field::EphemerisType => (62, 63),
        Field::ElementSetNumber => (65, 68),
        Field::Inclination => (9, 16),
        Field::RightAscension => (17, 25),
        Field::Eccentricity => (26, 33),
        Field::ArgumentOfPerigee => (34, 42),
        Field::MeanAnomaly => (42, 51),
        Field::MeanMotion => (52, 63),
        Field::RevolutionNumber => (63, 68),
        _ => (0, 0),
    }
}

pub open spec fn malformed(f: Field, reason: Reason) -> DecodeError {
    DecodeError::MalformedRecord { field: f, reason }
}

/// The text of field `f` on `line`, trimmed, if the line reaches its last
/// column.
pub open spec fn field_text(line: Seq<char>, f: Field) -> Option<Seq<char>> {
    if columns(f).1 <= line.len() {
        Some(trim(line.subrange(columns(f).0, columns(f).1)))
    } else {
        None
    }
}

pub open spec fn int_field(line: Seq<char>, f: Field) -> Result<int, DecodeError> {
    match field_text(line, f) {
        None => Err(malformed(f, Reason::ColumnsOutOfRange)),
        Some(t) => if t.len() > 0 && all_digits(t) && digits_value(t) <= u32::MAX {
            Ok(digits_value(t) as int)
        } else {
            Err(malformed(f, Reason::NotAnInteger))
        },
    }
}

pub open spec fn fixed_field(line: Seq<char>, f: Field) -> Result<DecimalModel, DecodeError> {
    match field_text(line, f) {
        None => Err(malformed(f, Reason::ColumnsOutOfRange)),
        Some(t) => match fixed_point_value(t) {
            Some(d) => Ok(d),
            None => Err(malformed(f, Reason::NotADecimal)),
        },
    }
}

pub open spec fn assumed_field(line: Seq<char>, f: Field) -> Result<DecimalModel, DecodeError> {
    match field_text(line, f) {
        None => Err(malformed(f, Reason::ColumnsOutOfRange)),
        Some(t) => match assumed_value(t) {
            Some(d) => Ok(d),
            None => Err(malformed(f, Reason::NotAnAssumedDecimal)),
        },
    }
}

/// An assumed-decimal-point field that takes no sign on its digits.
pub open spec fn unsigned_assumed_field(line: Seq<char>, f: Field) -> Result<DecimalModel, DecodeError> {
    match field_text(line, f) {
        None => Err(malformed(f, Reason::ColumnsOutOfRange)),
        Some(t) => if t.len() > 0 && t[0] == '-' {
            Err(malformed(f, Reason::NotAnAssumedDecimal))
        } else {
            match assumed_value(t) {
                Some(d) => Ok(d),
                None => Err(malformed(f, Reason::NotAnAssumedDecimal)),
            }
        },
    }
}

/// The instant of the epoch field, in milliseconds since 1970.
pub open spec fn epoch_field(line: Seq<char>) -> Result<int, DecodeError> {
    match field_text(line, Field::Epoch) {
        None => Err(malformed(Field::Epoch, Reason::ColumnsOutOfRange)),
        Some(t) => match epoch_parts(t) {
            Ok(m) => Ok(instant_ms(m)),
            Err(e) => Err(e),
        },
    }
}

pub open spec fn text_field(line: Seq<char>, f: Field) -> Result<Seq<char>, DecodeError> {
    match field_text(line, f) {
        None => Err(malformed(f, Reason::ColumnsOutOfRange)),
        Some(t) => Ok(t),
    }
}

/// The classification is the character in its column, as it stands.
pub open spec fn classification_field(line: Seq<char>) -> Result<char, DecodeError> {
    if line.len() >= 8 {
        Ok(line[7])
    } else {
        Err(malformed(Field::Classification, Reason::ColumnsOutOfRange))
    }
}

/// The record that a title line and the two element lines spell, or the
/// error of the first field, in column order, that cannot be decoded.
pub open spec fn record_from_lines(title: Seq<char>, first: Seq<char>, second: Seq<char>) -> Result<
    TleView,
    DecodeError,
> {
    let l1 = trim(first);
    let l2 = trim(second);
    let catalog = int_field(l1, Field::CatalogNumber);
    let class = classification_field(l1);
    let designator = text_field(l1, Field::InternationalDesignator);
    let epoch = epoch_field(l1);
    let first_derivative = fixed_field(l1, Field::FirstDerivativeMeanMotion);
    let second_derivative = assumed_field(l1, Field::SecondDerivativeMeanMotion);
    let drag = assumed_field(l1, Field::DragTerm);
    let ephemeris = int_field(l1, Field::EphemerisType);
    let element = int_field(l1, Field::ElementSetNumber);
    let inclination = fixed_field(l2, Field::Inclination);
    let ascension = fixed_field(l2, Field::RightAscension);
    let eccentricity = unsigned_assumed_field(l2, Field::Eccentricity);
    let perigee = fixed_field(l2, Field::ArgumentOfPerigee);
    let anomaly = fixed_field(l2, Field::MeanAnomaly);
    let motion = fixed_field(l2, Field::MeanMotion);
    let revolution = int_field(l2, Field::RevolutionNumber);
    if catalog is Err {
        Err(catalog->Err_0)
    } else if class is Err {
        Err(class->Err_0)
    } else if designator is Err {
        Err(designator->Err_0)
    } else if epoch is Err {
        Err(epoch->Err_0)
    } else if first_derivative is Err {
        Err(first_derivative->Err_0)
    } else if second_derivative is Err {
        Err(second_derivative->Err_0)
    } else if drag is Err {
        Err(drag->Err_0)
    } else if ephemeris is Err {
        Err(ephemeris->Err_0)
    } else if element is Err {
        Err(element->Err_0)
    } else if inclination is Err {
        Err(inclination->Err_0)
    } else if ascension is Err {
        Err(ascension->Err_0)
    } else if eccentricity is Err {
        Err(eccentricity->Err_0)
    } else if perigee is Err {
        Err(perigee->Err_0)
    } else if anomaly is Err {
        Err(anomaly->Err_0)
    } else if motion is Err {
        Err(motion->Err_0)
    } else if revolution is Err {
        Err(revolution->Err_0)
    } else {
        let instant = epoch->Ok_0;
        Ok(
            TleView {
                name: trim(title),
                satellite_number: catalog->Ok_0,
                classification: class->Ok_0,
                international_designator: designator->Ok_0,
                epoch: instant / 1000,
                date_time: rfc3339_of(instant),
                first_derivative_mean_motion: first_derivative->Ok_0,
                second_derivative_mean_motion: second_derivative->Ok_0,
                drag_term: drag->Ok_0,
                ephemeris_type: ephemeris->Ok_0,
                element_number: element->Ok_0,
                inclination: inclination->Ok_0,
                right_ascension: ascension->Ok_0,
                eccentricity: eccentricity->Ok_0,
                argument_of_perigee: perigee->Ok_0,
                mean_anomaly: anomaly->Ok_0,
                mean_motion: motion->Ok_0,
                revolution_number: revolution->Ok_0,
            },
        )
    }
}

/// The record that a group's text spells: its first three lines are the
/// title and the two element lines.
pub open spec fn record_value(s: Seq<char>) -> Result<TleView, DecodeError> {
    let lines = lines_of(s);
    if lines.len() < 1 {
        Err(malformed(Field::Name, Reason::MissingLine))
    } else if lines.len() < 2 {
        Err(malformed(Field::Line1, Reason::MissingLine))
    } else if lines.len() < 3 {
        Err(malformed(Field::Line2, Reason::MissingLine))
    } else {
        record_from_lines(lines[0], lines[1], lines[2])
    }
}

/// `r` is the decoded form of `m`: the same record, or the same error.
pub open spec fn result_is(r: Result<TLE, DecodeError>, m: Result<TleView, DecodeError>) -> bool {
    match m {
        Ok(v) => r matches Ok(t) && t@ == v,
        Err(e) => r matches Err(x) && x == e,
    }
}

/// The bounds of field `f` on `line`, trimmed.
fn field_bounds(line: &Vec<char>, f: Field) -> (r: Result<(usize, usize), DecodeError>)
    ensures
        match field_text(line@, f) {
            None => r == Err::<(usize, usize), DecodeError>(malformed(f, Reason::ColumnsOutOfRange)),
            Some(t) => r matches Ok((a, b)) && a <= b <= line@.len() && line@.subrange(a as int, b as int) == t,
        },
{
    let (a, b) = field_columns(f);
    if b > line.len() {
        return Err(DecodeError::MalformedRecord { field: f, reason: Reason::ColumnsOutOfRange });
    }
    Ok(trim_bounds(line, a, b))
}

fn decode_int(line: &Vec<char>, f: Field) -> (r: Result<u32, DecodeError>)
    ensures
        match int_field(line@, f) {
            Ok(n) => r matches Ok(x) && x == n,
            Err(e) => r matches Err(x) && x == e,
        },
{
    let (a, b) = match field_bounds(line, f) {
        Ok(ab) => ab,
        Err(e) => {
            return Err(e);
        },
    };
    match parse_digits(line, a, b, u32::MAX as u128) {
        Some(n) => Ok(n as u32),
        None => Err(DecodeError::MalformedRecord { field: f, reason: Reason::NotAnInteger }),
    }
}

fn decode_fixed(line: &Vec<char>, f: Field) -> (r: Result<Decimal, DecodeError>)
    ensures
        match fixed_field(line@, f) {
            Ok(d) => r matches Ok(x) && x@ == d,
            Err(e) => r matches Err(x) && x == e,
        },
{
    let (a, b) = match field_bounds(line, f) {
        Ok(ab) => ab,
        Err(e) => {
            return Err(e);
        },
    };
    match decode_fixed_point(line, a, b) {
        Some(d) => Ok(d),
        None => Err(DecodeError::MalformedRecord { field: f, reason: Reason::NotADecimal }),
    }
}

fn decode_assumed_field(line: &Vec<char>, f: Field) -> (r: Result<Decimal, DecodeError>)
    ensures
        match assumed_field(line@, f) {
            Ok(d) => r matches Ok(x) && x@ == d,
            Err(e) => r matches Err(x) && x == e,
        },
{
    let (a, b) = match field_bounds(line, f) {
        Ok(ab) => ab,
        Err(e) => {
            return Err(e);
        },
    };
    match decode_assumed(line, a, b) {
        Some(d) => Ok(d),
        None => Err(DecodeError::MalformedRecord { field: f, reason: Reason::NotAnAssumedDecimal }),
    }
}

fn decode_unsigned_assumed_field(line: &Vec<char>, f: Field) -> (r: Result<Decimal, DecodeError>)
    ensures
        match unsigned_assumed_field(line@, f) {
            Ok(d) => r matches Ok(x) && x@ == d,
            Err(e) => r matches Err(x) && x == e,
        },
{
    let (a, b) = match field_bounds(line, f) {
        Ok(ab) => ab,
        Err(e) => {
            return Err(e);
        },
    };
    if a < b && line[a] == '-' {
        return Err(DecodeError::MalformedRecord { field: f, reason: Reason::NotAnAssumedDecimal });
    }
    match decode_assumed(line, a, b) {
        Some(d) => Ok(d),
        None => Err(DecodeError::MalformedRecord { field: f, reason: Reason::NotAnAssumedDecimal }),
    }
}

fn decode_text(line: &Vec<char>, f: Field) -> (r: Result<String, DecodeError>)
    ensures
        match text_field(line@, f) {
            Ok(t) => r matches Ok(x) && x@ == t,
            Err(e) => r matches Err(x) && x == e,
        },
{
    let (a, b) = match field_bounds(line, f) {
        Ok(ab) => ab,
        Err(e) => {
            return Err(e);
        },
    };
    Ok(string_of(line, a, b))
}

/// A copy of `v` without its surrounding whitespace.
fn trimmed(v: &Vec<char>) -> (r: Vec<char>)
    ensures
        r@ == trim(v@),
{
    let (a, b) = trim_bounds(v, 0, v.len());
    assert(v@.subrange(0, v@.len() as int) =~= v@);
    slice_subrange(v, a, b)
}

fn decode_epoch_field(line: &Vec<char>) -> (r: Result<(i64, String), DecodeError>)
    ensures
        match epoch_field(line@) {
            Ok(instant) => r matches Ok((secs, text)) && secs == instant / 1000 && text@ == rfc3339_of(
                instant,
            ),
            Err(e) => r matches Err(x) && x == e,
        },
{
    let (a, b) = match field_bounds(line, Field::Epoch) {
        Ok(ab) => ab,
        Err(e) => {
            return Err(e);
        },
    };
    let text = slice_subrange(line, a, b);
    match decode_epoch(&text) {
        Ok(e) => {
            proof {
                let m = epoch_parts(text@)->Ok_0;
                lemma_fundamental_div_mod_converse(instant_ms(m), 1000, e.unix_seconds as int, e.millis as int);
            }
            Ok((e.unix_seconds, e.iso8601))
        },
        Err(e) => Err(e),
    }
}

/// Decodes a record from its title line and its two element lines.
pub fn decode_lines(title: &Vec<char>, first: &Vec<char>, second: &Vec<char>) -> (r: Result<TLE, DecodeError>)
    ensures
        result_is(r, record_from_lines(title@, first@, second@)),
{
    let l1 = trimmed(first);
    let l2 = trimmed(second);
    let satellite_number = match decode_int(&l1, Field::CatalogNumber) {
        Ok(x) => x,
        Err(e) => {
            return Err(e);
        },
    };
    if l1.len() < 8 {
        return Err(DecodeError::MalformedRecord { field: Field::Classification, reason: Reason::ColumnsOutOfRange });
    }
    let classification = l1[7];
    let international_designator = match decode_text(&l1, Field::InternationalDesignator) {
        Ok(x) => x,
        Err(e) => {
            return Err(e);
        },
    };
    let (epoch, date_time) = match decode_epoch_field(&l1) {
        Ok(x) => x,
        Err(e) => {
            return Err(e);
        },
    };
    let first_derivative_mean_motion = match decode_fixed(&l1, Field::FirstDerivativeMeanMotion) {
        Ok(x) => x,
        Err(e) => {
            return Err(e);
        },
    };
    let second_derivative_mean_motion = match decode_assumed_field(&l1, Field::SecondDerivativeMeanMotion) {
        Ok(x) => x,
        Err(e) => {
            return Err(e);
        },
    };
    let drag_term = match decode_assumed_field(&l1, Field::DragTerm) {
        Ok(x) => x,
        Err(e) => {
            return Err(e);
        },
    };
    let ephemeris_type = match decode_int(&l1, Field::EphemerisType) {
        Ok(x) => x,
        Err(e) => {
            return Err(e);
        },
    };
    let element_number = match decode_int(&l1, Field::ElementSetNumber) {
        Ok(x) => x,
        Err(e) => {
            return Err(e);
        },
    };
    let inclination = match decode_fixed(&l2, Field::Inclination) {
        Ok(x) => x,
        Err(e) => {
            return Err(e);
        },
    };
    let right_ascension = match decode_fixed(&l2, Field::RightAscension) {
        Ok(x) => x,
        Err(e) => {
            return Err(e);
        },
    };
    let eccentricity = match decode_unsigned_assumed_field(&l2, Field::Eccentricity) {
        Ok(x) => x,
        Err(e) => {
            return Err(e);
        },
    };
    let argument_of_perigee = match decode_fixed(&l2, Field::ArgumentOfPerigee) {
        Ok(x) => x,
        Err(e) => {
            return Err(e);
        },
    };
    let mean_anomaly = match decode_fixed(&l2, Field::MeanAnomaly) {
        Ok(x) => x,
        Err(e) => {
            return Err(e);
        },
    };
    let mean_motion = match decode_fixed(&l2, Field::MeanMotion) {
        Ok(x) => x,
        Err(e) => {
            return Err(e);
        },
    };
    let revolution_number = match decode_int(&l2, Field::RevolutionNumber) {
        Ok(x) => x,
        Err(e) => {
            return Err(e);
        },
    };
    let name = trimmed(title);
    let name = string_of(&name, 0, name.len());
    assert(trim(title@).subrange(0, trim(title@).len() as int) =~= trim(title@));
    Ok(
        TLE {
            name,
            satellite_number,
            classification,
            international_designator,
            epoch,
            date_time,
            first_derivative_mean_motion,
            second_derivative_mean_motion,
            drag_term,
            ephemeris_type,
            element_number,
            inclination,
            right_ascension,
            eccentricity,
            argument_of_perigee,
            mean_anomaly,
            mean_motion,
            revolution_number,
        },
    )
}

/// Decodes one three-line group: a title line, then the two element lines.
/// Lines after the third are not read.
pub fn parse_tle(tle: &str) -> (r: Result<TLE, DecodeError>)
    ensures
        result_is(r, record_value(tle@)),
{
    let v = chars_of(tle);
    let bounds = line_bounds(&v);
    if bounds.len() < 1 {
        return Err(DecodeError::MalformedRecord { field: Field::Name, reason: Reason::MissingLine });
    }
    if bounds.len() < 2 {
        return Err(DecodeError::MalformedRecord { field: Field::Line1, reason: Reason::MissingLine });
    }
    if bounds.len() < 3 {
        return Err(DecodeError::MalformedRecord { field: Field::Line2, reason: Reason::MissingLine });
    }
    let title = slice_subrange(&v, bounds[0].0, bounds[0].1);
    let first = slice_subrange(&v, bounds[1].0, bounds[1].1);
    let second = slice_subrange(&v, bounds[2].0, bounds[2].1);
    decode_lines(&title, &first, &second)
}

} // verus!
