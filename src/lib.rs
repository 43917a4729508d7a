//! Grid9: compresses a geographic coordinate into a nine-symbol token with
//! uniform positional precision, and maps tokens back to coordinates.
//!
//! Coordinates are fixed-point integers counting ten-millionths of a degree.
use vstd::prelude::*;

pub mod error;
pub mod alphabet;
pub mod text;
pub mod grid;
pub mod codec;
pub mod laws;
pub mod coordinate_operations;
pub mod nearby;

pub use error::Grid9Error;
pub use codec::{encode, decode, is_valid_encoding, validate_coordinates, validate_encoded_string};
pub use text::{format_for_humans, remove_formatting};
pub use coordinate_operations::{
    Coordinate,
    BoundingBox,
    batch_encode,
    batch_decode,
    get_bounding_box,
    get_center_point,
    group_by_grid9,
};
pub use nearby::NearbyScan;
pub use grid::UNITS_PER_DEGREE;
