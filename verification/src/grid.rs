//! Grid indices: the bits of a code taken apart by axis, and put together
//! again.
//!
//! Counted from the most significant bit of a code, the bits at even
//! positions belong to longitude and those at odd positions to latitude. A
//! code with an odd number of bits therefore holds one more longitude bit.
use vstd::arithmetic::div_mod::*;
use vstd::arithmetic::power2::*;
use vstd::bits::*;
use vstd::prelude::*;
use vstd::string::*;
use crate::alphabet::{
    code_error, code_of, code_value, from_value, lemma_code_of_code_value, lemma_code_of_valid,
    lemma_code_value_bound, lemma_code_value_code_of, lemma_valid_code_is_ascii, to_value,
    valid_code, MAX_PRECISION,
};
use crate::error::GeohashError;

verus! {

/// The position of a cell on the grid of its precision: how many cells lie
/// south of it, and how many west of it.
#[derive(Debug, Clone, Copy, PartialEq, Eq, Structural)]
pub struct LatLonBits {
    pub lat: u64,
    pub lon: u64,
}

/// The number of latitude bits in a code of `precision` symbols.
pub open spec fn lat_bits(precision: nat) -> nat {
    5 * precision / 2
}

/// The number of longitude bits in a code of `precision` symbols.
pub open spec fn lon_bits(precision: nat) -> nat {
    (5 * precision - 5 * precision / 2) as nat
}

/// The `n`-bit number whose bits alternate between the low bits of `lon` and
/// of `lat`, most significant first, starting with longitude.
pub open spec fn interleave(lat: nat, lon: nat, n: nat) -> nat
    decreases n,
{
    if n == 0 {
        0
    } else if n % 2 == 1 {
        2 * interleave(lat, lon / 2, (n - 1) as nat) + lon % 2
    } else {
        2 * interleave(lat / 2, lon, (n - 1) as nat) + lat % 2
    }
}

/// The latitude and longitude indices, in this order, that the low `n` bits
/// of `value` interleave.
pub open spec fn deinterleave(value: nat, n: nat) -> (nat, nat)
    decreases n,
{
    if n == 0 {
        (0, 0)
    } else {
        let (lat, lon) = deinterleave(value / 2, (n - 1) as nat);
        if n % 2 == 1 {
            (lat, 2 * lon + value % 2)
        } else {
            (2 * lat + value % 2, lon)
        }
    }
}

/// `index` moved by `delta` cells, wrapping at 64 bits.
pub open spec fn shifted(index: nat, delta: int) -> nat {
    ((index + delta) % 0x1_0000_0000_0000_0000) as nat
}

/// The latitude and longitude indices, in this order, of the cell that
/// `code` names.
pub open spec fn split_spec(code: Seq<char>) -> (nat, nat) {
    deinterleave(code_value(code), 5 * code.len())
}

/// The code of `precision` symbols for the cell at the indices `lat`, `lon`.
pub open spec fn join_spec(lat: nat, lon: nat, precision: nat) -> Seq<char> {
    code_of(interleave(lat, lon, 5 * precision), precision)
}

/// An interleaved number of `n` bits is below `2^n`.
pub proof fn lemma_interleave_bound(lat: nat, lon: nat, n: nat)
    ensures
        interleave(lat, lon, n) < pow2(n),
    decreases n,
{
    lemma2_to64();
    if n > 0 {
        lemma_pow2_unfold(n);
        if n % 2 == 1 {
            lemma_interleave_bound(lat, lon / 2, (n - 1) as nat);
        } else {
            lemma_interleave_bound(lat / 2, lon, (n - 1) as nat);
        }
    }
}

/// Of `n` bits, latitude gets the smaller half and longitude the rest.
pub proof fn lemma_deinterleave_bound(value: nat, n: nat)
    ensures
        deinterleave(value, n).0 < pow2(n / 2),
        deinterleave(value, n).1 < pow2((n - n / 2) as nat),
    decreases n,
{
    lemma2_to64();
    if n > 0 {
        lemma_deinterleave_bound(value / 2, (n - 1) as nat);
        if n % 2 == 1 {
            assert((n - 1) / 2 == n / 2);
            assert(n - n / 2 == (n - 1) - (n - 1) / 2 + 1);
            lemma_pow2_unfold((n - n / 2) as nat);
        } else {
            assert((n - 1) / 2 + 1 == n / 2);
            assert(n - n / 2 == (n - 1) - (n - 1) / 2);
            lemma_pow2_unfold(n / 2);
        }
    }
}

/// Taking the low `n` bits of a number apart and putting them together gives
/// them back.
pub proof fn lemma_interleave_deinterleave(value: nat, n: nat)
    ensures
        interleave(deinterleave(value, n).0, deinterleave(value, n).1, n) == value % pow2(n),
    decreases n,
{
    lemma2_to64();
    if n > 0 {
        let rest = (n - 1) as nat;
        lemma_interleave_deinterleave(value / 2, rest);
        lemma_pow2_unfold(n);
        lemma_pow2_pos(rest);
        lemma_mod_breakdown(value as int, 2, pow2(rest) as int);
        let (lat, lon) = deinterleave(value / 2, rest);
        if n % 2 == 1 {
            assert((2 * lon + value % 2) / 2 == lon);
            assert((2 * lon + value % 2) % 2 == value % 2);
        } else {
            assert((2 * lat + value % 2) / 2 == lat);
            assert((2 * lat + value % 2) % 2 == value % 2);
        }
    }
}

/// Putting two indices together and taking the result apart gives the low
/// bits of each back: as many as its axis has among `n`.
pub proof fn lemma_deinterleave_interleave(lat: nat, lon: nat, n: nat)
    ensures
        deinterleave(interleave(lat, lon, n), n) == (
            lat % pow2(n / 2),
            lon % pow2((n - n / 2) as nat),
        ),
    decreases n,
{
    lemma2_to64();
    if n > 0 {
        let rest = (n - 1) as nat;
        if n % 2 == 1 {
            let inner = interleave(lat, lon / 2, rest);
            lemma_deinterleave_interleave(lat, lon / 2, rest);
            assert((2 * inner + lon % 2) / 2 == inner);
            assert((2 * inner + lon % 2) % 2 == lon % 2);
            assert(rest / 2 == n / 2);
            let half = (rest - rest / 2) as nat;
            assert(n - n / 2 == half + 1);
            lemma_pow2_unfold((n - n / 2) as nat);
            lemma_pow2_pos(half);
            lemma_mod_breakdown(lon as int, 2, pow2(half) as int);
        } else {
            let inner = interleave(lat / 2, lon, rest);
            lemma_deinterleave_interleave(lat / 2, lon, rest);
            assert((2 * inner + lat % 2) / 2 == inner);
            assert((2 * inner + lat % 2) % 2 == lat % 2);
            assert(rest / 2 + 1 == n / 2);
            assert(n - n / 2 == rest - rest / 2);
            lemma_pow2_unfold(n / 2);
            lemma_pow2_pos(rest / 2);
            lemma_mod_breakdown(lat as int, 2, pow2(rest / 2) as int);
        }
    }
}

/// The first bit of an interleaved number is the first of the longitude
/// bits, and the bits after it interleave the other way round: if `lon` is
/// `bit` followed by the bits of `rest`, then the number is `bit` followed
/// by the bits of `rest` and `lat` with latitude in front.
pub proof fn lemma_interleave_first_bit(lat: nat, lon: nat, n: nat, bit: nat, rest: nat)
    requires
        n >= 1,
        bit <= 1,
        rest < pow2((n - n / 2 - 1) as nat),
        lon == bit * pow2((n - n / 2 - 1) as nat) + rest,
    ensures
        interleave(lat, lon, n) == bit * pow2((n - 1) as nat) + interleave(
            rest,
            lat,
            (n - 1) as nat,
        ),
    decreases n,
{
    lemma2_to64();
    let h = (n - n / 2 - 1) as nat;
    let m = (n - 1) as nat;
    if n == 1 {
        assert(bit * pow2(h) == bit) by (nonlinear_arith)
            requires
                pow2(h) == 1,
        ;
        assert(lon == bit);
        assert(interleave(lat, lon, 1) == 2 * interleave(lat, lon / 2, 0) + lon % 2);
        assert(interleave(rest, lat, 0) == 0);
    } else {
        lemma_pow2_unfold(m);
        let top = pow2((m - 1) as nat);
        assert(bit * pow2(m) == 2 * (bit * top)) by (nonlinear_arith)
            requires
                pow2(m) == 2 * top,
        ;
        if n % 2 == 1 {
            lemma_pow2_unfold(h);
            let low = pow2((h - 1) as nat);
            assert(bit * pow2(h) == 2 * (bit * low)) by (nonlinear_arith)
                requires
                    pow2(h) == 2 * low,
            ;
            assert(lon / 2 == bit * low + rest / 2);
            assert(lon % 2 == rest % 2);
            assert((m - m / 2 - 1) as nat == (h - 1) as nat);
            lemma_interleave_first_bit(lat, lon / 2, m, bit, rest / 2);
            assert(interleave(lat, lon, n) == 2 * interleave(lat, lon / 2, m) + lon % 2);
            assert(interleave(rest, lat, m) == 2 * interleave(rest / 2, lat, (m - 1) as nat) + rest
                % 2);
        } else {
            assert((m - m / 2 - 1) as nat == h);
            lemma_interleave_first_bit(lat / 2, lon, m, bit, rest);
            assert(interleave(lat, lon, n) == 2 * interleave(lat / 2, lon, m) + lat % 2);
            assert(interleave(rest, lat, m) == 2 * interleave(rest, lat / 2, (m - 1) as nat) + lat
                % 2);
        }
    }
}

/// Splitting a valid code and joining the two indices at the code's own
/// length gives the code back.
pub proof fn lemma_join_split(code: Seq<char>)
    requires
        valid_code(code),
    ensures
        join_spec(split_spec(code).0, split_spec(code).1, code.len()) == code,
{
    let n = 5 * code.len();
    lemma_interleave_deinterleave(code_value(code), n);
    lemma_code_value_bound(code);
    lemma_small_mod(code_value(code), pow2(n));
    lemma_code_of_code_value(code);
}

/// Joining two indices and splitting the code gives the indices back, each
/// reduced to the bits that its axis has at this precision.
pub proof fn lemma_split_join(lat: nat, lon: nat, precision: nat)
    ensures
        join_spec(lat, lon, precision).len() == precision,
        valid_code(join_spec(lat, lon, precision)),
        split_spec(join_spec(lat, lon, precision)) == (
            lat % pow2(lat_bits(precision)),
            lon % pow2(lon_bits(precision)),
        ),
{
    let n = 5 * precision;
    let value = interleave(lat, lon, n);
    lemma_code_of_valid(value, precision);
    lemma_code_value_code_of(value, precision);
    lemma_interleave_bound(lat, lon, n);
    lemma_small_mod(value, pow2(n));
    lemma_deinterleave_interleave(lat, lon, n);
}

/// Dropping one more low bit halves the quotient.
pub(crate) proof fn lemma_drop_bit(value: nat, i: nat)
    requires
        i > 0,
    ensures
        (value / pow2((i - 1) as nat)) / 2 == value / pow2(i),
{
    lemma_pow2_unfold(i);
    lemma_pow2_pos((i - 1) as nat);
    lemma_div_denominator(value as int, pow2((i - 1) as nat) as int, 2);
}

/// What one more bit of `value` adds to the indices read so far.
proof fn lemma_split_step(value: nat, i: nat, m: nat)
    requires
        i > 0,
    ensures
        ({
            let (lat, lon) = deinterleave(value / pow2(i), m);
            let bit = (value / pow2((i - 1) as nat)) % 2;
            deinterleave(value / pow2((i - 1) as nat), m + 1) == if (m + 1) % 2 == 1 {
                (lat, 2 * lon + bit)
            } else {
                (2 * lat + bit, lon)
            }
        }),
{
    lemma_drop_bit(value, i);
    lemma_pow2_pos(i);
    lemma_pow2_pos((i - 1) as nat);
}

/// What one more bit of an index adds to the number put together so far.
proof fn lemma_join_step(lat: nat, lon: nat, i_lat: nat, i_lon: nat, m: nat)
    ensures
        m % 2 == 0 && i_lon > 0 ==> interleave(
            lat / pow2(i_lat),
            lon / pow2((i_lon - 1) as nat),
            m + 1,
        ) == 2 * interleave(lat / pow2(i_lat), lon / pow2(i_lon), m) + (lon / pow2(
            (i_lon - 1) as nat,
        )) % 2,
        m % 2 == 1 && i_lat > 0 ==> interleave(
            lat / pow2((i_lat - 1) as nat),
            lon / pow2(i_lon),
            m + 1,
        ) == 2 * interleave(lat / pow2(i_lat), lon / pow2(i_lon), m) + (lat / pow2(
            (i_lat - 1) as nat,
        )) % 2,
{
    lemma_pow2_pos(i_lat);
    lemma_pow2_pos(i_lon);
    if i_lon > 0 {
        lemma_pow2_pos((i_lon - 1) as nat);
        lemma_drop_bit(lon, i_lon);
    }
    if i_lat > 0 {
        lemma_pow2_pos((i_lat - 1) as nat);
        lemma_drop_bit(lat, i_lat);
    }
}

/// With at most 60 bits in all, each index stays below `2^30`.
proof fn lemma_index_fits(value: nat, n: nat)
    requires
        n <= 60,
    ensures
        deinterleave(value, n).0 < 0x4000_0000,
        deinterleave(value, n).1 < 0x4000_0000,
{
    lemma_deinterleave_bound(value, n);
    lemma2_to64();
    if n / 2 < 30 {
        lemma_pow2_strictly_increases(n / 2, 30);
    }
    if n - n / 2 < 30 {
        lemma_pow2_strictly_increases((n - n / 2) as nat, 30);
    }
}

/// An interleaved number of at most 60 bits stays below `2^60`.
proof fn lemma_interleave_fits(lat: nat, lon: nat, n: nat)
    requires
        n <= 60,
    ensures
        interleave(lat, lon, n) < 0x1000_0000_0000_0000,
{
    lemma_interleave_bound(lat, lon, n);
    lemma2_to64_rest();
    if n < 60 {
        lemma_pow2_strictly_increases(n, 60);
    }
}

/// Bit `i` of `value`, counted from the least significant.
pub(crate) fn bit_at(value: u64, i: u32) -> (bit: u64)
    requires
        i < 64,
    ensures
        bit == (value as nat / pow2(i as nat)) % 2,
        bit <= 1,
{
    let moved: u64 = value >> i;
    proof {
        lemma_u64_shr_is_div(value, i as u64);
        assert(moved & 1 == moved % 2) by (bit_vector);
    }
    moved & 1
}

/// `acc` with `bit` appended as its new least significant bit.
pub(crate) fn push_bit(acc: u64, bit: u64) -> (r: u64)
    requires
        acc < 0x8000_0000_0000_0000,
        bit <= 1,
    ensures
        r == 2 * acc + bit,
{
    proof {
        assert((acc << 1) | bit == 2 * acc + bit) by (bit_vector)
            requires
                acc < 0x8000_0000_0000_0000,
                bit <= 1,
        ;
    }
    (acc << 1) | bit
}

impl LatLonBits {
    /// The position `x` cells to the east and `y` cells to the north.
    ///
    /// Nothing is clamped at the edge of the grid: the sum wraps at 64 bits,
    /// and a code made from it keeps the low bits only, so a step across an
    /// edge comes out on the opposite side.
    pub fn add(&self, x: i64, y: i64) -> (r: LatLonBits)
        ensures
            r.lat == shifted(self.lat as nat, y as int),
            r.lon == shifted(self.lon as nat, x as int),
    {
        LatLonBits { lat: self.lat.wrapping_add_signed(y), lon: self.lon.wrapping_add_signed(x) }
    }
}

/// The grid position of the cell that `code` names.
pub fn split_bits(code: &str) -> (r: Result<LatLonBits, GeohashError>)
    ensures
        match r {
            Ok(bits) => {
                &&& code_error(code@) is None
                &&& (bits.lat as nat, bits.lon as nat) == split_spec(code@)
                &&& bits.lat < pow2(lat_bits(code@.len()))
                &&& bits.lon < pow2(lon_bits(code@.len()))
            },
            Err(e) => code_error(code@) == Some(e),
        },
{
    broadcast use is_ascii_spec_bytes;

    let value = match to_value(code) {
        Ok(v) => v,
        Err(e) => {
            return Err(e);
        },
    };
    proof {
        lemma_valid_code_is_ascii(code@);
        assert(code.is_ascii());
        lemma2_to64();
        lemma_code_value_bound(code@);
    }
    let nbits: u32 = 5 * (code.len() as u32);
    let mut lat: u64 = 0;
    let mut lon: u64 = 0;
    let mut i: u32 = nbits;
    proof {
        if nbits < 60 {
            lemma_pow2_strictly_increases(nbits as nat, 60);
        }
        lemma_basic_div(value as int, pow2(nbits as nat) as int);
    }
    while i >= 2
        invariant
            i <= nbits <= 60,
            (nbits - i) % 2 == 0,
            lat < 0x4000_0000,
            lon < 0x4000_0000,
            (lat as nat, lon as nat) == deinterleave(
                value as nat / pow2(i as nat),
                (nbits - i) as nat,
            ),
        decreases i,
    {
        proof {
            lemma_split_step(value as nat, i as nat, (nbits - i) as nat);
            lemma_split_step(value as nat, (i - 1) as nat, (nbits - i + 1) as nat);
            lemma_index_fits(value as nat / pow2((i - 1) as nat), (nbits - i + 1) as nat);
            lemma_index_fits(value as nat / pow2((i - 2) as nat), (nbits - i + 2) as nat);
        }
        i -= 1;
        lon = push_bit(lon, bit_at(value, i));
        i -= 1;
        lat = push_bit(lat, bit_at(value, i));
    }
    if i == 1 {
        proof {
            lemma_split_step(value as nat, 1, (nbits - 1) as nat);
        }
        lon = push_bit(lon, bit_at(value, 0));
    }
    proof {
        lemma2_to64();
        assert(value as nat / pow2(0) == value as nat);
        lemma_deinterleave_bound(value as nat, nbits as nat);
    }
    Ok(LatLonBits { lat, lon })
}

/// The code of `precision` symbols for the grid position `bits`.
///
/// Only the low bits of each index count: as many as its axis has at this
/// precision.
pub fn join_bits(bits: LatLonBits, precision: u32) -> (r: Result<String, GeohashError>)
    ensures
        match r {
            Ok(code) => {
                &&& precision <= MAX_PRECISION
                &&& code@ == join_spec(bits.lat as nat, bits.lon as nat, precision as nat)
                &&& code@.len() == precision
                &&& valid_code(code@)
            },
            Err(e) => e == GeohashError::InvalidPrecision && precision > MAX_PRECISION,
        },
{
    if precision > MAX_PRECISION {
        return Err(GeohashError::InvalidPrecision);
    }
    let nbits: u32 = precision * 5;
    let mut i_lat: u32 = nbits / 2;
    let mut i_lon: u32 = i_lat + precision % 2;
    let mut value: u64 = 0;
    proof {
        assert(nbits - i_lat - i_lon == 0);
        lemma_pow2_pos(i_lat as nat);
        lemma_pow2_pos(i_lon as nat);
    }
    while i_lat != 0
        invariant
            nbits == 5 * precision,
            nbits <= 60,
            i_lat <= nbits / 2,
            i_lon == i_lat + precision % 2,
            (nbits - i_lat - i_lon) % 2 == 0,
            value == interleave(
                bits.lat as nat / pow2(i_lat as nat),
                bits.lon as nat / pow2(i_lon as nat),
                (nbits - i_lat - i_lon) as nat,
            ),
        decreases i_lat,
    {
        proof {
            let m = (nbits - i_lat - i_lon) as nat;
            let lat = bits.lat as nat;
            let lon = bits.lon as nat;
            lemma_join_step(lat, lon, i_lat as nat, i_lon as nat, m);
            lemma_join_step(lat, lon, i_lat as nat, (i_lon - 1) as nat, m + 1);
            lemma_interleave_fits(lat / pow2(i_lat as nat), lon / pow2(i_lon as nat), m);
            lemma_interleave_fits(
                lat / pow2(i_lat as nat),
                lon / pow2((i_lon - 1) as nat),
                m + 1,
            );
        }
        i_lon -= 1;
        value = push_bit(value, bit_at(bits.lon, i_lon));
        i_lat -= 1;
        value = push_bit(value, bit_at(bits.lat, i_lat));
    }
    if i_lon == 1 {
        proof {
            let m = (nbits - 1) as nat;
            lemma_join_step(bits.lat as nat, bits.lon as nat, 0, 1, m);
            lemma_interleave_fits(bits.lat as nat / pow2(0), bits.lon as nat / pow2(1), m);
        }
        value = push_bit(value, bit_at(bits.lon, 0));
    }
    proof {
        lemma2_to64();
        assert(bits.lat as nat / pow2(0) == bits.lat as nat);
        assert(bits.lon as nat / pow2(0) == bits.lon as nat);
    }
    from_value(value, precision)
}

} // verus!
