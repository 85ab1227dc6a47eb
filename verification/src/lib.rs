//! Geohash codec and spatial queries over the geohash grid.
//!
//! A geohash names a rectangular cell of the globe by a short string over a
//! 32-symbol alphabet. Every symbol carries five bits; the bits alternate
//! between longitude and latitude, starting with longitude, and each bit
//! halves the interval of its axis.
//!
//! - `alphabet`: symbols, codes and the numbers they write.
//! - `grid`: the row and the column of a cell, out of a code and back.
//! - `codec`: a point to its code, a code to its rectangle.
//! - `region`: the cells around a cell, the cells of a rectangle, the cells
//!   at given steps from a cell.
//! - `compact`: a set of codes made smaller by putting parents for children.
//! - `membership`: which points lie in a region.
//!
//! The library counts in integers throughout. Coordinates are fixed-point
//! degrees, and the measure of compaction is a number of children.
pub mod error;
pub mod alphabet;
pub mod grid;
pub mod codec;
pub mod region;
pub mod compact;
pub mod membership;

pub use alphabet::{
    from_value, index_to_symbol, is_valid_code, symbol_to_index, to_value, MAX_PRECISION,
};
pub use codec::{
    encode, encode_array, to_bounds, Bounds, DEGREE, LAT_MAX, LAT_MIN, LON_MAX, LON_MIN,
};
pub use compact::compress;
pub use error::GeohashError;
pub use grid::{join_bits, split_bits, LatLonBits};
pub use membership::isin;
pub use region::{cells_at_offsets, create_rect, many_neighbors, neighbors};
