use vstd::prelude::*;

verus! {

/// The closed set of ways in which an operation of this library can fail.
#[derive(Debug, Clone, Copy, PartialEq, Eq, Structural)]
pub enum Grid9Error {
    /// A latitude outside [-90, 90] degrees, in ten-millionths of a degree.
    InvalidLatitude(i64),
    /// A longitude outside [-180, 180] degrees, in ten-millionths of a degree.
    InvalidLongitude(i64),
    /// A token whose length without dashes is not nine symbols.
    InvalidLength(usize),
    /// A character that is not one of the thirty-two symbols.
    InvalidCharacter(char),
    /// An empty token or an empty collection.
    EmptyInput,
    /// A search radius that is not positive, in meters.
    InvalidRadius(i64),
}

} // verus!
