//! What can go wrong while decoding element sets.

use vstd::prelude::*;

verus! {

/// A field of the three-line group.
#[derive(Clone, Copy, Debug, PartialEq, Eq, Structural)]
pub enum Field {
    Name,
    Line1,
    Line2,
    CatalogNumber,
    Classification,
    InternationalDesignator,
    Epoch,
    FirstDerivativeMeanMotion,
    SecondDerivativeMeanMotion,
    DragTerm,
    EphemerisType,
    ElementSetNumber,
    Inclination,
    RightAscension,
    Eccentricity,
    ArgumentOfPerigee,
    MeanAnomaly,
    MeanMotion,
    RevolutionNumber,
}

/// Why a field could not be decoded.
#[derive(Clone, Copy, Debug, PartialEq, Eq, Structural)]
pub enum Reason {
    /// The group has fewer than three lines.
    MissingLine,
    /// The line ends before the field's last column.
    ColumnsOutOfRange,
    /// An integer field holds something other than digits, or too large a number.
    NotAnInteger,
    /// A fixed-point field holds no decimal number.
    NotADecimal,
    /// An assumed-decimal-point field is not digits followed by an exponent.
    NotAnAssumedDecimal,
    /// The year, day or day fraction of the epoch is not as the format has it.
    BadEpoch,
}

#[derive(Clone, Copy, Debug, PartialEq, Eq, Structural)]
pub enum DecodeError {
    /// The text ended with one or two lines that make no complete group.
    TruncatedInput { leftover_lines: usize },
    /// One field of a group could not be decoded.
    MalformedRecord { field: Field, reason: Reason },
    /// The epoch has no `.` between the day and its fraction.
    UnsupportedEpochFormat,
}

} // verus!
