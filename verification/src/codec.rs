//! Coordinates to codes and codes to bounds, by bisection.
//!
//! A coordinate is a binary fixed-point number: the integer `n` stands for
//! `n / 2^28` degrees. With 28 fractional bits every cell boundary up to the
//! longest code is an integer, so bisection is exact, and a coordinate with
//! more fractional bits can be rounded down without leaving its cell.
//!
//! Latitude runs from `LAT_MIN` to `LAT_MAX`, longitude from `LON_MIN` to
//! `LON_MAX`. A code of `p` symbols cuts latitude into `2^(5p / 2)` rows and
//! longitude into `2^(5p - 5p / 2)` columns, and names one cell by its row
//! and its column.
use vstd::arithmetic::div_mod::*;
use vstd::arithmetic::mul::*;
use vstd::arithmetic::power2::*;
use vstd::prelude::*;
use vstd::string::*;
use crate::alphabet::{
    code_error, code_of, code_value, from_value, lemma_valid_code_is_ascii, valid_code,
    MAX_PRECISION,
};
use crate::error::GeohashError;
use crate::grid::{
    bit_at, interleave, join_spec, lat_bits, lemma_deinterleave_bound, lemma_drop_bit,
    lemma_interleave_first_bit, lemma_split_join, lon_bits, push_bit, split_bits, split_spec,
};

verus! {

/// One degree.
pub const DEGREE: i64 = 0x1000_0000;

/// 90 degrees south.
pub const LAT_MIN: i64 = -24_159_191_040;

/// 90 degrees north.
pub const LAT_MAX: i64 = 24_159_191_040;

/// 180 degrees west.
pub const LON_MIN: i64 = -48_318_382_080;

/// 180 degrees east.
pub const LON_MAX: i64 = 48_318_382_080;

/// The rectangle of a cell, its four edges in fixed-point degrees.
#[derive(Debug, Clone, Copy, PartialEq, Eq, Structural)]
pub struct Bounds {
    pub lat_min: i64,
    pub lon_min: i64,
    pub lat_max: i64,
    pub lon_max: i64,
}

impl Bounds {
    /// Whether the edges are in order and on the globe.
    pub open spec fn well_formed(&self) -> bool {
        &&& LAT_MIN <= self.lat_min <= self.lat_max <= LAT_MAX
        &&& LON_MIN <= self.lon_min <= self.lon_max <= LON_MAX
    }
}

/// The index that `n` bisections of the interval from `lo` to `hi` give `x`.
///
/// Each step halves the interval and keeps the upper half, with bit 1, if
/// `x` is at or above the midpoint, else the lower half, with bit 0. The
/// bits are the index, first bit most significant.
pub open spec fn bisect(x: int, lo: int, hi: int, n: nat) -> nat
    decreases n,
{
    if n == 0 {
        0
    } else {
        let mid = lo + (hi - lo) / 2;
        if mid <= x {
            pow2((n - 1) as nat) + bisect(x, mid, hi, (n - 1) as nat)
        } else {
            bisect(x, lo, mid, (n - 1) as nat)
        }
    }
}

/// The lower edge of cell `index` when the interval from `lo` to `hi` is cut
/// into `2^n` cells.
pub open spec fn cell_min(index: nat, lo: int, hi: int, n: nat) -> int {
    lo + index * ((hi - lo) / pow2(n) as int)
}

/// The upper edge of cell `index` when the interval from `lo` to `hi` is cut
/// into `2^n` cells.
pub open spec fn cell_max(index: nat, lo: int, hi: int, n: nat) -> int {
    cell_min(index, lo, hi, n) + (hi - lo) / pow2(n) as int
}

/// The number that `n` bisections write, first bit most significant, when
/// two axes take turns: the first step halves the interval from `lo1` to
/// `hi1` around `x1`, the second that from `lo2` to `hi2` around `x2`, the
/// third the first interval again, and so on.
pub open spec fn alternate(x1: int, lo1: int, hi1: int, x2: int, lo2: int, hi2: int, n: nat) -> nat
    decreases n,
{
    if n == 0 {
        0
    } else {
        let mid = lo1 + (hi1 - lo1) / 2;
        if mid <= x1 {
            pow2((n - 1) as nat) + alternate(x2, lo2, hi2, x1, mid, hi1, (n - 1) as nat)
        } else {
            alternate(x2, lo2, hi2, x1, lo1, mid, (n - 1) as nat)
        }
    }
}

/// The latitude index of the cell of `precision` symbols that holds `lat`.
pub open spec fn lat_index(lat: int, precision: nat) -> nat {
    bisect(lat, LAT_MIN as int, LAT_MAX as int, lat_bits(precision))
}

/// The longitude index of the cell of `precision` symbols that holds `lon`.
pub open spec fn lon_index(lon: int, precision: nat) -> nat {
    bisect(lon, LON_MIN as int, LON_MAX as int, lon_bits(precision))
}

/// The code of `precision` symbols for the point at `lat`, `lon`.
pub open spec fn encode_spec(lat: int, lon: int, precision: nat) -> Seq<char> {
    join_spec(lat_index(lat, precision), lon_index(lon, precision), precision)
}

/// Whether `bounds` is the rectangle of the cell at the indices `lat`, `lon`
/// on the grid of `precision` symbols.
pub open spec fn is_cell(bounds: Bounds, lat: nat, lon: nat, precision: nat) -> bool {
    &&& bounds.lat_min == cell_min(lat, LAT_MIN as int, LAT_MAX as int, lat_bits(precision))
    &&& bounds.lat_max == cell_max(lat, LAT_MIN as int, LAT_MAX as int, lat_bits(precision))
    &&& bounds.lon_min == cell_min(lon, LON_MIN as int, LON_MAX as int, lon_bits(precision))
    &&& bounds.lon_max == cell_max(lon, LON_MIN as int, LON_MAX as int, lon_bits(precision))
}

/// A bisection index of `n` bits is below `2^n`.
pub proof fn lemma_bisect_bound(x: int, lo: int, hi: int, n: nat)
    ensures
        bisect(x, lo, hi, n) < pow2(n),
    decreases n,
{
    lemma2_to64();
    if n > 0 {
        lemma_pow2_unfold(n);
        let mid = lo + (hi - lo) / 2;
        lemma_bisect_bound(x, mid, hi, (n - 1) as nat);
        lemma_bisect_bound(x, lo, mid, (n - 1) as nat);
    }
}

/// The cell that bisection picks holds the point: if the interval from `lo`
/// to `hi` is `2^n` cells of width `width` and `x` lies in it, then `x` lies
/// between the edges of its cell, and below the upper edge unless `x` is `hi`.
pub proof fn lemma_bisect_contains(x: int, lo: int, hi: int, n: nat, width: int)
    requires
        lo <= x <= hi,
        width >= 0,
        hi - lo == width * pow2(n),
    ensures
        lo + bisect(x, lo, hi, n) * width <= x,
        x <= lo + (bisect(x, lo, hi, n) + 1) * width,
        x < hi ==> x < lo + (bisect(x, lo, hi, n) + 1) * width,
    decreases n,
{
    lemma2_to64();
    let total = bisect(x, lo, hi, n) as int;
    if n == 0 {
        assert(total == 0);
        assert(width * pow2(n) == width && (total + 1) * width == width && total * width == 0)
            by (nonlinear_arith)
            requires
                pow2(n) == 1,
                total == 0,
        ;
    } else {
        let rest = (n - 1) as nat;
        let half = pow2(rest) as int;
        lemma_pow2_unfold(n);
        assert(width * pow2(n) == 2 * (width * half) && width * half >= 0) by (nonlinear_arith)
            requires
                pow2(n) == 2 * half,
                width >= 0,
                half >= 0,
        ;
        let mid = lo + (hi - lo) / 2;
        assert(mid == lo + width * half);
        if mid <= x {
            let index = bisect(x, mid, hi, rest) as int;
            lemma_bisect_contains(x, mid, hi, rest, width);
            assert(total == half + index);
            assert(total * width == width * half + index * width && (total + 1) * width == width
                * half + (index + 1) * width) by (nonlinear_arith)
                requires
                    total == half + index,
            ;
        } else {
            let index = bisect(x, lo, mid, rest) as int;
            lemma_bisect_contains(x, lo, mid, rest, width);
            assert(total == index);
        }
    }
}

/// A coordinate in finer units can be rounded down to the units of the
/// cells: if the interval from `lo` to `hi` is `2^n` cells of a whole number
/// of units each, and `x` is measured in units `scale` times finer, then
/// bisecting the finer interval around `x` gives the index that bisecting
/// the interval around `x / scale`, rounded down, gives.
pub proof fn lemma_bisect_rounds_down(x: int, scale: int, lo: int, hi: int, n: nat, width: int)
    requires
        scale >= 1,
        width >= 0,
        hi - lo == width * pow2(n),
    ensures
        bisect(x, lo * scale, hi * scale, n) == bisect(x / scale, lo, hi, n),
    decreases n,
{
    if n > 0 {
        let rest = (n - 1) as nat;
        let half = pow2(rest) as int;
        lemma_pow2_unfold(n);
        let step = width * half;
        assert(width * pow2(n) == 2 * step) by (nonlinear_arith)
            requires
                pow2(n) == 2 * half,
                step == width * half,
        ;
        let mid = lo + (hi - lo) / 2;
        assert(mid == lo + step);
        let fine_mid = lo * scale + (hi * scale - lo * scale) / 2;
        assert(hi * scale - lo * scale == 2 * (step * scale) && mid * scale == lo * scale + step
            * scale) by (nonlinear_arith)
            requires
                hi - lo == 2 * step,
                mid == lo + step,
        ;
        assert(fine_mid == mid * scale);
        let q = x / scale;
        let r = x % scale;
        lemma_fundamental_div_mod(x, scale);
        lemma_mod_bound(x, scale);
        assert((mid * scale <= x) == (mid <= q)) by (nonlinear_arith)
            requires
                x == scale * q + r,
                0 <= r < scale,
        ;
        lemma_bisect_rounds_down(x, scale, mid, hi, rest, width);
        lemma_bisect_rounds_down(x, scale, lo, mid, rest, width);
    }
}

/// Below the interval bisection gives the first cell, at or above its upper
/// end the last.
pub proof fn lemma_bisect_outside(x: int, lo: int, hi: int, n: nat)
    requires
        lo <= hi,
    ensures
        x < lo ==> bisect(x, lo, hi, n) == 0,
        x >= hi ==> bisect(x, lo, hi, n) == pow2(n) - 1,
    decreases n,
{
    lemma2_to64();
    if n > 0 {
        lemma_pow2_unfold(n);
        let mid = lo + (hi - lo) / 2;
        lemma_bisect_outside(x, mid, hi, (n - 1) as nat);
        lemma_bisect_outside(x, lo, mid, (n - 1) as nat);
    }
}

/// The height and width of the cells of `precision` symbols: both divide
/// their axis exactly.
pub proof fn lemma_cell_size(precision: nat)
    requires
        precision <= MAX_PRECISION,
    ensures
        lat_bits(precision) + lon_bits(precision) == 5 * precision,
        lat_bits(precision) <= 30,
        lon_bits(precision) <= 30,
        (LAT_MAX - LAT_MIN) == ((LAT_MAX - LAT_MIN) / pow2(lat_bits(precision)) as int) * pow2(
            lat_bits(precision),
        ),
        (LON_MAX - LON_MIN) == ((LON_MAX - LON_MIN) / pow2(lon_bits(precision)) as int) * pow2(
            lon_bits(precision),
        ),
        (LAT_MAX - LAT_MIN) / pow2(lat_bits(precision)) as int >= 45,
        (LON_MAX - LON_MIN) / pow2(lon_bits(precision)) as int >= 90,
{
    lemma_span_divides(45, lat_bits(precision));
    lemma_span_divides(90, lon_bits(precision));
    lemma2_to64();
}

/// `units * 2^30` is `2^n` cells of at least `units` each, for `n` up to 30.
proof fn lemma_span_divides(units: int, n: nat)
    requires
        n <= 30,
        units > 0,
    ensures
        (units * 0x4000_0000) / pow2(n) as int == units * pow2((30 - n) as nat),
        units * 0x4000_0000 == (units * pow2((30 - n) as nat)) * pow2(n),
        units * pow2((30 - n) as nat) >= units,
{
    let rest = (30 - n) as nat;
    lemma2_to64();
    lemma_pow2_adds(rest, n);
    lemma_pow2_pos(n);
    lemma_pow2_pos(rest);
    let p = pow2(n) as int;
    let q = pow2(rest) as int;
    assert(units * 0x4000_0000 == (units * q) * p) by (nonlinear_arith)
        requires
            q * p == 0x4000_0000,
    ;
    lemma_div_multiples_vanish(units * q, p);
    assert(units * q >= units) by (nonlinear_arith)
        requires
            q >= 1,
            units > 0,
    ;
}

/// Bisecting two axes in turns writes the number that interleaves the
/// indices of the two axes, each bisected on its own.
pub proof fn lemma_alternate(x1: int, lo1: int, hi1: int, x2: int, lo2: int, hi2: int, n: nat)
    ensures
        alternate(x1, lo1, hi1, x2, lo2, hi2, n) == interleave(
            bisect(x2, lo2, hi2, n / 2),
            bisect(x1, lo1, hi1, (n - n / 2) as nat),
            n,
        ),
    decreases n,
{
    if n > 0 {
        let own = (n - n / 2) as nat;
        let mid = lo1 + (hi1 - lo1) / 2;
        let bit: nat = if mid <= x1 {
            1
        } else {
            0
        };
        let (lo, hi) = if mid <= x1 {
            (mid, hi1)
        } else {
            (lo1, mid)
        };
        let rest = bisect(x1, lo, hi, (own - 1) as nat);
        lemma_bisect_bound(x1, lo, hi, (own - 1) as nat);
        assert(bit * pow2((own - 1) as nat) == if bit == 1 {
            pow2((own - 1) as nat)
        } else {
            0
        }) by (nonlinear_arith)
            requires
                bit == 0 || bit == 1,
        ;
        assert(bit * pow2((n - 1) as nat) == if bit == 1 {
            pow2((n - 1) as nat)
        } else {
            0
        }) by (nonlinear_arith)
            requires
                bit == 0 || bit == 1,
        ;
        assert(bisect(x1, lo1, hi1, own) == bit * pow2((own - 1) as nat) + rest);
        lemma_alternate(x2, lo2, hi2, x1, lo, hi, (n - 1) as nat);
        assert((n - 1) / 2 == own - 1);
        assert((n - 1) - (n - 1) / 2 == n / 2);
        lemma_interleave_first_bit(
            bisect(x2, lo2, hi2, n / 2),
            bisect(x1, lo1, hi1, own),
            n,
            bit,
            rest,
        );
    }
}

/// The code of a point writes the bits of bisections that take turns
/// between the axes, longitude first, until there are five bits for each
/// symbol.
pub proof fn lemma_encode_alternates(lat: int, lon: int, precision: nat)
    ensures
        encode_spec(lat, lon, precision) == code_of(
            alternate(
                lon,
                LON_MIN as int,
                LON_MAX as int,
                lat,
                LAT_MIN as int,
                LAT_MAX as int,
                5 * precision,
            ),
            precision,
        ),
{
    lemma_alternate(
        lon,
        LON_MIN as int,
        LON_MAX as int,
        lat,
        LAT_MIN as int,
        LAT_MAX as int,
        5 * precision,
    );
}

/// The code of a point has the length asked for, and splitting it gives the
/// two indices that bisection gave the point.
pub proof fn lemma_split_encode(lat: int, lon: int, precision: nat)
    ensures
        encode_spec(lat, lon, precision).len() == precision,
        valid_code(encode_spec(lat, lon, precision)),
        split_spec(encode_spec(lat, lon, precision)) == (
            lat_index(lat, precision),
            lon_index(lon, precision),
        ),
{
    let row = lat_index(lat, precision);
    let col = lon_index(lon, precision);
    lemma_bisect_bound(lat, LAT_MIN as int, LAT_MAX as int, lat_bits(precision));
    lemma_bisect_bound(lon, LON_MIN as int, LON_MAX as int, lon_bits(precision));
    lemma_split_join(row, col, precision);
    lemma_small_mod(row, pow2(lat_bits(precision)));
    lemma_small_mod(col, pow2(lon_bits(precision)));
}

/// The point that a code was made from lies in the cell that the code names,
/// and that cell has the height and width of its precision: 180 degrees
/// divided by two to the number of latitude bits, and 360 degrees divided by
/// two to the number of longitude bits.
pub proof fn lemma_encode_contains(lat: int, lon: int, precision: nat)
    requires
        LAT_MIN <= lat <= LAT_MAX,
        LON_MIN <= lon <= LON_MAX,
        precision <= MAX_PRECISION,
    ensures
        ({
            let code = encode_spec(lat, lon, precision);
            let (row, col) = split_spec(code);
            let a = lat_bits(precision);
            let b = lon_bits(precision);
            &&& cell_min(row, LAT_MIN as int, LAT_MAX as int, a) <= lat <= cell_max(
                row,
                LAT_MIN as int,
                LAT_MAX as int,
                a,
            )
            &&& cell_min(col, LON_MIN as int, LON_MAX as int, b) <= lon <= cell_max(
                col,
                LON_MIN as int,
                LON_MAX as int,
                b,
            )
            &&& a + b == 5 * precision
            &&& (cell_max(row, LAT_MIN as int, LAT_MAX as int, a) - cell_min(
                row,
                LAT_MIN as int,
                LAT_MAX as int,
                a,
            )) * pow2(a) == 180 * DEGREE
            &&& (cell_max(col, LON_MIN as int, LON_MAX as int, b) - cell_min(
                col,
                LON_MIN as int,
                LON_MAX as int,
                b,
            )) * pow2(b) == 360 * DEGREE
        }),
{
    let a = lat_bits(precision);
    let b = lon_bits(precision);
    let row = lat_index(lat, precision);
    let col = lon_index(lon, precision);
    lemma_cell_size(precision);
    lemma_split_encode(lat, lon, precision);
    let height = (LAT_MAX - LAT_MIN) / pow2(a) as int;
    let width = (LON_MAX - LON_MIN) / pow2(b) as int;
    lemma_bisect_contains(lat, LAT_MIN as int, LAT_MAX as int, a, height);
    lemma_bisect_contains(lon, LON_MIN as int, LON_MAX as int, b, width);
    assert((row + 1) * height == row * height + height) by (nonlinear_arith);
    assert((col + 1) * width == col * width + width) by (nonlinear_arith);
}

/// The index that `nbits` bisections of the interval from `lo` to `hi` give
/// `x`.
pub(crate) fn axis_index(x: i64, lo: i64, hi: i64, nbits: u32) -> (index: u64)
    requires
        LON_MIN <= lo <= hi <= LON_MAX,
        nbits <= 30,
    ensures
        index == bisect(x as int, lo as int, hi as int, nbits as nat),
{
    let mut min = lo;
    let mut max = hi;
    let mut index: u64 = 0;
    let mut k: u32 = 0;
    proof {
        lemma2_to64();
        assert(0 * pow2(nbits as nat) == 0);
    }
    while k < nbits
        invariant
            k <= nbits <= 30,
            LON_MIN <= min <= max <= LON_MAX,
            index < pow2(k as nat),
            index * pow2((nbits - k) as nat) + bisect(
                x as int,
                min as int,
                max as int,
                (nbits - k) as nat,
            ) == bisect(x as int, lo as int, hi as int, nbits as nat),
        decreases nbits - k,
    {
        let mid = min + (max - min) / 2;
        let bit: u64 = if mid <= x {
            1
        } else {
            0
        };
        proof {
            let rest = (nbits - k - 1) as nat;
            let half = pow2(rest) as int;
            lemma2_to64();
            lemma_pow2_unfold((nbits - k) as nat);
            lemma_pow2_unfold((k + 1) as nat);
            lemma_pow2_strictly_increases(k as nat, 31);
            assert(index * pow2((nbits - k) as nat) == (2 * index + bit) * half - bit * half)
                by (nonlinear_arith)
                requires
                    pow2((nbits - k) as nat) == 2 * half,
            ;
            assert(bit * half == if bit == 1 {
                half
            } else {
                0
            }) by (nonlinear_arith)
                requires
                    bit == 0 || bit == 1,
            ;
        }
        index = push_bit(index, bit);
        if bit == 1 {
            min = mid;
        } else {
            max = mid;
        }
        k += 1;
    }
    proof {
        lemma2_to64();
        assert(index * pow2(0) == index) by (nonlinear_arith)
            requires
                pow2(0) == 1,
        ;
    }
    index
}

/// The two edges of cell `index` when the interval from `lo` to `hi` is cut
/// into `2^nbits` cells of width `width`, found by replaying the bisections
/// that the bits of `index` record.
fn axis_bounds(index: u64, lo: i64, hi: i64, nbits: u32, Ghost(width): Ghost<int>) -> (r: (
    i64,
    i64,
))
    requires
        LON_MIN <= lo <= hi <= LON_MAX,
        nbits <= 30,
        index < pow2(nbits as nat),
        width >= 0,
        hi - lo == width * pow2(nbits as nat),
    ensures
        r.0 == lo + index * width,
        r.1 == r.0 + width,
        lo <= r.0 <= r.1 <= hi,
{
    let mut min = lo;
    let mut max = hi;
    let mut k: u32 = nbits;
    proof {
        lemma_pow2_pos(nbits as nat);
        lemma_basic_div(index as int, pow2(nbits as nat) as int);
        assert(0 * (width * pow2(nbits as nat)) == 0);
    }
    while k > 0
        invariant
            k <= nbits <= 30,
            width >= 0,
            lo <= min <= max <= hi,
            LON_MIN <= lo <= hi <= LON_MAX,
            min == lo + (index as nat / pow2(k as nat)) * (width * pow2(k as nat)),
            max == min + width * pow2(k as nat),
        decreases k,
    {
        proof {
            let half = pow2((k - 1) as nat) as int;
            let prefix = (index as nat / pow2(k as nat)) as int;
            let next = (index as nat / pow2((k - 1) as nat)) as int;
            lemma_pow2_unfold(k as nat);
            lemma_pow2_pos((k - 1) as nat);
            lemma_pow2_pos(k as nat);
            lemma_drop_bit(index as nat, k as nat);
            assert(next == 2 * prefix + next % 2);
            assert(width * pow2(k as nat) == 2 * (width * half) && width * half >= 0
                && prefix * (width * pow2(k as nat)) == (2 * prefix) * (width * half) && (2
                * prefix + 1) * (width * half) == (2 * prefix) * (width * half) + width * half)
                by (nonlinear_arith)
                requires
                    pow2(k as nat) == 2 * half,
                    width >= 0,
                    half >= 0,
            ;
        }
        k -= 1;
        let mid = min + (max - min) / 2;
        if bit_at(index, k) == 1 {
            min = mid;
        } else {
            max = mid;
        }
    }
    proof {
        lemma2_to64();
        assert(width * pow2(0) == width && (index as nat / pow2(0)) * (width * pow2(0)) == index
            * width) by (nonlinear_arith)
            requires
                pow2(0) == 1,
                index as nat / pow2(0) == index,
        ;
    }
    (min, max)
}

/// The code of `precision` symbols for the cell that holds the point at
/// `lat`, `lon`.
///
/// The bits of the code come from bisections that take turns between the
/// axes: longitude at the even places, counted from the first bit, latitude
/// at the odd ones, so that longitude has one bit more where their number is
/// odd. A coordinate on a midpoint goes to the upper half. A coordinate
/// outside its axis is not refused: it gets the first or the last cell of
/// the axis. Precision 0 gives the empty code.
pub fn encode(lat: i64, lon: i64, precision: u32) -> (r: Result<String, GeohashError>)
    ensures
        match r {
            Ok(code) => {
                &&& precision <= MAX_PRECISION
                &&& code@ == encode_spec(lat as int, lon as int, precision as nat)
                &&& code@.len() == precision
                &&& valid_code(code@)
            },
            Err(e) => e == GeohashError::InvalidPrecision && precision > MAX_PRECISION,
        },
{
    if precision > MAX_PRECISION {
        return Err(GeohashError::InvalidPrecision);
    }
    let mut lat_max = LAT_MAX;
    let mut lat_min = LAT_MIN;
    let mut lon_max = LON_MAX;
    let mut lon_min = LON_MIN;
    let mut value: u64 = 0;
    let mut i: u32 = 0;
    let nbits: u32 = precision * 5;
    let ghost all = alternate(
        lon as int,
        LON_MIN as int,
        LON_MAX as int,
        lat as int,
        LAT_MIN as int,
        LAT_MAX as int,
        nbits as nat,
    );
    proof {
        lemma2_to64();
        assert(0 * pow2(nbits as nat) == 0);
    }
    while i < nbits
        invariant
            i <= nbits <= 60,
            LAT_MIN <= lat_min <= lat_max <= LAT_MAX,
            LON_MIN <= lon_min <= lon_max <= LON_MAX,
            value < pow2(i as nat),
            i % 2 == 0 ==> value * pow2((nbits - i) as nat) + alternate(
                lon as int,
                lon_min as int,
                lon_max as int,
                lat as int,
                lat_min as int,
                lat_max as int,
                (nbits - i) as nat,
            ) == all,
            i % 2 == 1 ==> value * pow2((nbits - i) as nat) + alternate(
                lat as int,
                lat_min as int,
                lat_max as int,
                lon as int,
                lon_min as int,
                lon_max as int,
                (nbits - i) as nat,
            ) == all,
        decreases nbits - i,
    {
        let bit: u64;
        if i % 2 == 0 {
            let lon_mid = lon_min + (lon_max - lon_min) / 2;
            if lon_mid <= lon {
                bit = 1;
                lon_min = lon_mid;
            } else {
                bit = 0;
                lon_max = lon_mid;
            }
        } else {
            let lat_mid = lat_min + (lat_max - lat_min) / 2;
            if lat_mid <= lat {
                bit = 1;
                lat_min = lat_mid;
            } else {
                bit = 0;
                lat_max = lat_mid;
            }
        }
        proof {
            let half = pow2((nbits - i - 1) as nat) as int;
            lemma2_to64_rest();
            lemma_pow2_unfold((nbits - i) as nat);
            lemma_pow2_unfold((i + 1) as nat);
            lemma_pow2_strictly_increases(i as nat, 63);
            assert(value * pow2((nbits - i) as nat) == (2 * value + bit) * half - bit * half)
                by (nonlinear_arith)
                requires
                    pow2((nbits - i) as nat) == 2 * half,
            ;
            assert(bit * half == if bit == 1 {
                half
            } else {
                0
            }) by (nonlinear_arith)
                requires
                    bit == 0 || bit == 1,
            ;
        }
        value = push_bit(value, bit);
        i += 1;
    }
    proof {
        lemma2_to64();
        assert(value * pow2(0) == value) by (nonlinear_arith)
            requires
                pow2(0) == 1,
        ;
        lemma_encode_alternates(lat as int, lon as int, precision as nat);
    }
    from_value(value, precision)
}

/// The codes of `precision` symbols for the points of `points`, each a pair
/// of latitude and longitude, in their order.
///
/// Without a point there is nothing to refuse.
pub fn encode_array(points: &Vec<(i64, i64)>, precision: u32) -> (r: Result<
    Vec<String>,
    GeohashError,
>)
    ensures
        match r {
            Ok(codes) => {
                &&& precision <= MAX_PRECISION || points.len() == 0
                &&& codes.len() == points.len()
                &&& forall|k: int|
                    0 <= k < codes.len() ==> (#[trigger] codes[k])@ == encode_spec(
                        points[k].0 as int,
                        points[k].1 as int,
                        precision as nat,
                    )
                &&& forall|k: int|
                    0 <= k < codes.len() ==> code_error((#[trigger] codes[k])@) is None
                        && codes[k]@.len() == precision
            },
            Err(e) => e == GeohashError::InvalidPrecision && precision > MAX_PRECISION
                && points.len() > 0,
        },
{
    let mut codes: Vec<String> = Vec::new();
    let mut k: usize = 0;
    while k < points.len()
        invariant
            k <= points.len(),
            codes.len() == k,
            precision <= MAX_PRECISION || k == 0,
            forall|j: int|
                0 <= j < k ==> (#[trigger] codes[j])@ == encode_spec(
                    points[j].0 as int,
                    points[j].1 as int,
                    precision as nat,
                ),
            forall|j: int|
                0 <= j < k ==> code_error((#[trigger] codes[j])@) is None && codes[j]@.len()
                    == precision,
        decreases points.len() - k,
    {
        let (lat, lon) = points[k];
        match encode(lat, lon, precision) {
            Ok(code) => codes.push(code),
            Err(e) => {
                return Err(e);
            },
        }
        k += 1;
    }
    Ok(codes)
}

/// The rectangle of the cell that `code` names. The empty code names the
/// whole globe.
pub fn to_bounds(code: &str) -> (r: Result<Bounds, GeohashError>)
    ensures
        match r {
            Ok(bounds) => {
                &&& code_error(code@) is None
                &&& is_cell(bounds, split_spec(code@).0, split_spec(code@).1, code@.len())
                &&& bounds.well_formed()
                &&& bounds.lat_min < bounds.lat_max
                &&& bounds.lon_min < bounds.lon_max
            },
            Err(e) => code_error(code@) == Some(e),
        },
{
    broadcast use is_ascii_spec_bytes;

    let bits = match split_bits(code) {
        Ok(bits) => bits,
        Err(e) => {
            return Err(e);
        },
    };
    proof {
        lemma_valid_code_is_ascii(code@);
        assert(code.is_ascii());
        lemma_cell_size(code@.len());
        lemma_deinterleave_bound(code_value(code@), 5 * code@.len());
    }
    let nbits: u32 = 5 * (code.len() as u32);
    let ghost height = (LAT_MAX - LAT_MIN) / pow2(lat_bits(code@.len())) as int;
    let ghost width = (LON_MAX - LON_MIN) / pow2(lon_bits(code@.len())) as int;
    let (lat_min, lat_max) = axis_bounds(bits.lat, LAT_MIN, LAT_MAX, nbits / 2, Ghost(height));
    let (lon_min, lon_max) = axis_bounds(
        bits.lon,
        LON_MIN,
        LON_MAX,
        nbits - nbits / 2,
        Ghost(width),
    );
    Ok(Bounds { lat_min, lon_min, lat_max, lon_max })
}

} // verus!
