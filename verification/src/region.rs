//! Cells around a cell and cells of a region.
//!
//! All of these move over the grid by adding to the two indices of a cell.
//! Nothing is clamped at the poles or at the antimeridian: a step across an
//! edge of the grid comes out on the opposite side.
use vstd::arithmetic::div_mod::*;
use vstd::arithmetic::power2::*;
use vstd::prelude::*;
use vstd::string::*;
use crate::alphabet::{
    code_error, code_value, lemma_valid_code_is_ascii, valid_code, MAX_PRECISION,
};
use crate::codec::{
    axis_index, lat_index, lemma_bisect_bound, lon_index, Bounds, LAT_MAX, LAT_MIN, LON_MAX,
    LON_MIN,
};
use crate::error::GeohashError;
use crate::grid::{
    join_bits, join_spec, lat_bits, lemma_deinterleave_bound, lemma_join_split, lemma_split_join,
    lon_bits, shifted, split_bits, split_spec, LatLonBits,
};

verus! {

/// The code of the cell `dx` cells east and `dy` cells north of `code`, at
/// the length of `code`.
pub open spec fn neighbor_spec(code: Seq<char>, dx: int, dy: int) -> Seq<char> {
    join_spec(shifted(split_spec(code).0, dy), shifted(split_spec(code).1, dx), code.len())
}

/// The cell itself and the eight cells around it: north, north-west, west,
/// south-west, south, south-east, east, north-east.
pub open spec fn neighbors_spec(code: Seq<char>) -> Seq<Seq<char>> {
    seq![
        code,
        neighbor_spec(code, 0, 1),
        neighbor_spec(code, -1, 1),
        neighbor_spec(code, -1, 0),
        neighbor_spec(code, -1, -1),
        neighbor_spec(code, 0, -1),
        neighbor_spec(code, 1, -1),
        neighbor_spec(code, 1, 0),
        neighbor_spec(code, 1, 1),
    ]
}

/// The number of indices from `first` to `last`, both included.
pub open spec fn span(first: nat, last: nat) -> nat {
    if first <= last {
        (last - first + 1) as nat
    } else {
        0
    }
}

/// The codes of the cells between two corners, row by row from south to
/// north, each row from west to east.
pub open spec fn rect_spec(bounds: Bounds, precision: nat) -> Seq<Seq<char>> {
    let south = lat_index(bounds.lat_min as int, precision);
    let north = lat_index(bounds.lat_max as int, precision);
    let west = lon_index(bounds.lon_min as int, precision);
    let east = lon_index(bounds.lon_max as int, precision);
    let columns = span(west, east);
    Seq::new(
        span(south, north) * columns,
        |k: int|
            join_spec(
                (south + k / columns as int) as nat,
                (west + k % columns as int) as nat,
                precision,
            ),
    )
}

/// A neighbor has the length of the code it was taken from, and a step of
/// no cells leads to the code itself.
pub proof fn lemma_neighbor(code: Seq<char>, dx: int, dy: int)
    requires
        code_error(code) is None,
    ensures
        neighbor_spec(code, dx, dy).len() == code.len(),
        valid_code(neighbor_spec(code, dx, dy)),
        neighbor_spec(code, 0, 0) == code,
{
    lemma_split_join(shifted(split_spec(code).0, dy), shifted(split_spec(code).1, dx), code.len());
    lemma_join_split(code);
    lemma_deinterleave_bound(code_value(code), 5 * code.len());
    lemma2_to64();
    lemma2_to64_rest();
    let n = 5 * code.len();
    if n / 2 < 64 {
        lemma_pow2_strictly_increases(n / 2, 64);
    }
    if n - n / 2 < 64 {
        lemma_pow2_strictly_increases((n - n / 2) as nat, 64);
    }
}

/// Steps wrap around the grid: the indices of a neighbor are the indices of
/// the cell plus the steps, modulo the number of rows and the number of
/// columns of the grid.
pub proof fn lemma_neighbor_wraps(code: Seq<char>, dx: int, dy: int)
    requires
        code_error(code) is None,
    ensures
        split_spec(neighbor_spec(code, dx, dy)) == (
            ((split_spec(code).0 + dy) % pow2(lat_bits(code.len())) as int) as nat,
            ((split_spec(code).1 + dx) % pow2(lon_bits(code.len())) as int) as nat,
        ),
{
    let (lat, lon) = split_spec(code);
    let a = lat_bits(code.len());
    let b = lon_bits(code.len());
    lemma_split_join(shifted(lat, dy), shifted(lon, dx), code.len());
    lemma2_to64();
    lemma_pow2_pos(a);
    lemma_pow2_pos(b);
    lemma_pow2_pos((64 - a) as nat);
    lemma_pow2_pos((64 - b) as nat);
    lemma_pow2_adds(a, (64 - a) as nat);
    lemma_pow2_adds(b, (64 - b) as nat);
    lemma_mod_mod(lat + dy, pow2(a) as int, pow2((64 - a) as nat) as int);
    lemma_mod_mod(lon + dx, pow2(b) as int, pow2((64 - b) as nat) as int);
}

/// The code at the grid position `bits` moved by `dx` cells east and `dy`
/// cells north.
fn cell_at(bits: LatLonBits, precision: u32, dx: i64, dy: i64) -> (code: String)
    requires
        precision <= MAX_PRECISION,
    ensures
        code@ == join_spec(
            shifted(bits.lat as nat, dy as int),
            shifted(bits.lon as nat, dx as int),
            precision as nat,
        ),
        code@.len() == precision,
        valid_code(code@),
{
    match join_bits(bits.add(dx, dy), precision) {
        Ok(code) => code,
        Err(_) => String::new(),
    }
}

/// The codes of the cells that lie, from the cell of `code`, at each of the
/// `offsets`: pairs of cells to the east and cells to the north.
pub fn cells_at_offsets(code: &str, offsets: &Vec<(i64, i64)>) -> (r: Result<
    Vec<String>,
    GeohashError,
>)
    ensures
        match r {
            Ok(cells) => {
                &&& code_error(code@) is None
                &&& cells.len() == offsets.len()
                &&& forall|k: int|
                    0 <= k < cells.len() ==> (#[trigger] cells[k])@ == neighbor_spec(
                        code@,
                        offsets[k].0 as int,
                        offsets[k].1 as int,
                    )
                &&& forall|k: int|
                    0 <= k < cells.len() ==> code_error((#[trigger] cells[k])@) is None
                        && cells[k]@.len() == code@.len()
            },
            Err(e) => code_error(code@) == Some(e),
        },
{
    broadcast use is_ascii_spec_bytes;

    let bits = match split_bits(code) {
        Ok(bits) => bits,
        Err(e) => {
            return Err(e);
        },
    };
    proof {
        lemma_valid_code_is_ascii(code@);
        assert(code.is_ascii());
    }
    let precision = code.len() as u32;
    let mut cells: Vec<String> = Vec::new();
    let mut k: usize = 0;
    while k < offsets.len()
        invariant
            k <= offsets.len(),
            cells.len() == k,
            precision == code@.len(),
            precision <= MAX_PRECISION,
            (bits.lat as nat, bits.lon as nat) == split_spec(code@),
            forall|j: int|
                0 <= j < k ==> (#[trigger] cells[j])@ == neighbor_spec(
                    code@,
                    offsets[j].0 as int,
                    offsets[j].1 as int,
                ),
            forall|j: int|
                0 <= j < k ==> code_error((#[trigger] cells[j])@) is None && cells[j]@.len()
                    == code@.len(),
        decreases offsets.len() - k,
    {
        let (dx, dy) = offsets[k];
        cells.push(cell_at(bits, precision, dx, dy));
        k += 1;
    }
    Ok(cells)
}

/// The cell of `code` and the eight cells around it, in the order self,
/// north, north-west, west, south-west, south, south-east, east, north-east.
///
/// All nine codes have the length of `code`. Nothing is left out where two
/// of them are equal.
pub fn neighbors(code: &str) -> (r: Result<Vec<String>, GeohashError>)
    ensures
        match r {
            Ok(cells) => {
                &&& code_error(code@) is None
                &&& cells.deep_view() == neighbors_spec(code@)
                &&& cells.len() == 9
                &&& cells[0]@ == code@
                &&& forall|k: int|
                    0 <= k < 9 ==> code_error((#[trigger] cells[k])@) is None && cells[k]@.len()
                        == code@.len()
            },
            Err(e) => code_error(code@) == Some(e),
        },
{
    broadcast use is_ascii_spec_bytes;

    let bits = match split_bits(code) {
        Ok(bits) => bits,
        Err(e) => {
            return Err(e);
        },
    };
    proof {
        lemma_valid_code_is_ascii(code@);
        assert(code.is_ascii());
    }
    let precision = code.len() as u32;
    let mut cells: Vec<String> = Vec::new();
    cells.push(String::from_str(code));
    cells.push(cell_at(bits, precision, 0, 1));
    cells.push(cell_at(bits, precision, -1, 1));
    cells.push(cell_at(bits, precision, -1, 0));
    cells.push(cell_at(bits, precision, -1, -1));
    cells.push(cell_at(bits, precision, 0, -1));
    cells.push(cell_at(bits, precision, 1, -1));
    cells.push(cell_at(bits, precision, 1, 0));
    cells.push(cell_at(bits, precision, 1, 1));
    proof {
        assert(cells.deep_view() =~= neighbors_spec(code@));
        assert forall|k: int| 0 <= k < 9 implies code_error((#[trigger] cells[k])@) is None
            && cells[k]@.len() == code@.len() by {
            lemma_neighbor(code@, 0, 1);
            lemma_neighbor(code@, -1, 1);
            lemma_neighbor(code@, -1, 0);
            lemma_neighbor(code@, -1, -1);
            lemma_neighbor(code@, 0, -1);
            lemma_neighbor(code@, 1, -1);
            lemma_neighbor(code@, 1, 0);
            lemma_neighbor(code@, 1, 1);
        }
    }
    Ok(cells)
}

/// The codes of `precision` symbols for every cell from the cell of the
/// corner `lat_min`, `lon_min` to the cell of the corner `lat_max`,
/// `lon_max`, both included, row by row from south to north and each row
/// from west to east.
///
/// There are as many codes as the two ranges of indices have pairs: none if
/// a maximum of `bounds` lies in a cell before that of its minimum.
pub fn create_rect(bounds: &Bounds, precision: u32) -> (r: Result<Vec<String>, GeohashError>)
    ensures
        match r {
            Ok(cells) => {
                &&& precision <= MAX_PRECISION
                &&& cells.deep_view() == rect_spec(*bounds, precision as nat)
                &&& forall|k: int|
                    0 <= k < cells.len() ==> code_error((#[trigger] cells[k])@) is None
                        && cells[k]@.len() == precision
                &&& cells.len() == span(
                    lat_index(bounds.lat_min as int, precision as nat),
                    lat_index(bounds.lat_max as int, precision as nat),
                ) * span(
                    lon_index(bounds.lon_min as int, precision as nat),
                    lon_index(bounds.lon_max as int, precision as nat),
                )
            },
            Err(e) => e == GeohashError::InvalidPrecision && precision > MAX_PRECISION,
        },
{
    if precision > MAX_PRECISION {
        return Err(GeohashError::InvalidPrecision);
    }
    let nbits: u32 = precision * 5;
    let south = axis_index(bounds.lat_min, LAT_MIN, LAT_MAX, nbits / 2);
    let north = axis_index(bounds.lat_max, LAT_MIN, LAT_MAX, nbits / 2);
    let west = axis_index(bounds.lon_min, LON_MIN, LON_MAX, nbits - nbits / 2);
    let east = axis_index(bounds.lon_max, LON_MIN, LON_MAX, nbits - nbits / 2);
    let ghost columns = span(west as nat, east as nat);
    let ghost cell = |k: int|
        join_spec(
            (south + k / columns as int) as nat,
            (west + k % columns as int) as nat,
            precision as nat,
        );
    proof {
        lemma_bisect_bound(
            bounds.lat_max as int,
            LAT_MIN as int,
            LAT_MAX as int,
            (nbits / 2) as nat,
        );
        lemma_bisect_bound(
            bounds.lon_max as int,
            LON_MIN as int,
            LON_MAX as int,
            (nbits - nbits / 2) as nat,
        );
        lemma2_to64();
        lemma_pow2_strictly_increases((nbits / 2) as nat, 31);
        lemma_pow2_strictly_increases((nbits - nbits / 2) as nat, 31);
        assert(0 * columns == 0);
    }
    let mut cells: Vec<String> = Vec::new();
    let mut lat: u64 = south;
    while lat <= north
        invariant
            precision <= MAX_PRECISION,
            north < 0x8000_0000,
            east < 0x8000_0000,
            south <= lat,
            south <= north ==> lat <= north + 1,
            south > north ==> lat == south,
            columns == span(west as nat, east as nat),
            cells.len() == (lat - south) * columns,
            forall|k: int| 0 <= k < cells.len() ==> (#[trigger] cells[k])@ == cell(k),
            forall|k: int|
                0 <= k < cells.len() ==> code_error((#[trigger] cells[k])@) is None
                    && cells[k]@.len() == precision,
            cell == |k: int|
                join_spec(
                    (south + k / columns as int) as nat,
                    (west + k % columns as int) as nat,
                    precision as nat,
                ),
        decreases north + 1 - lat,
    {
        let mut lon: u64 = west;
        while lon <= east
            invariant
                precision <= MAX_PRECISION,
                east < 0x8000_0000,
                south <= lat <= north < 0x8000_0000,
                west <= lon,
                west <= east ==> lon <= east + 1,
                west > east ==> lon == west,
                columns == span(west as nat, east as nat),
                cells.len() == (lat - south) * columns + (lon - west),
                forall|k: int| 0 <= k < cells.len() ==> (#[trigger] cells[k])@ == cell(k),
                forall|k: int|
                    0 <= k < cells.len() ==> code_error((#[trigger] cells[k])@) is None
                        && cells[k]@.len() == precision,
                cell == |k: int|
                    join_spec(
                        (south + k / columns as int) as nat,
                        (west + k % columns as int) as nat,
                        precision as nat,
                    ),
            decreases east + 1 - lon,
        {
            proof {
                let k = cells.len() as int;
                lemma_fundamental_div_mod_converse(
                    k,
                    columns as int,
                    (lat - south) as int,
                    (lon - west) as int,
                );
                assert(shifted(lat as nat, 0) == lat && shifted(lon as nat, 0) == lon);
            }
            cells.push(cell_at(LatLonBits { lat, lon }, precision, 0, 0));
            lon += 1;
        }
        proof {
            assert((lat + 1 - south) * columns == (lat - south) * columns + columns)
                by (nonlinear_arith);
        }
        lat += 1;
    }
    proof {
        assert((lat - south) * columns == span(south as nat, north as nat) * columns) by {
            if south > north {
                assert(lat == south);
            }
        }
        assert(cells.deep_view() =~= rect_spec(*bounds, precision as nat));
    }
    Ok(cells)
}

/// The nine codes that `neighbors` gives for each of `codes`, one code after
/// the other. The first code that is refused ends the work with its error.
pub fn many_neighbors(codes: &Vec<String>) -> (r: Result<Vec<String>, GeohashError>)
    ensures
        match r {
            Ok(cells) => {
                &&& forall|i: int| 0 <= i < codes.len() ==> code_error(#[trigger] codes[i]@) is None
                &&& cells.len() == 9 * codes.len()
                &&& forall|k: int|
                    0 <= k < cells.len() ==> (#[trigger] cells[k])@ == neighbors_spec(
                        codes[k / 9]@,
                    )[k % 9]
            },
            Err(e) => exists|i: int|
                {
                    &&& 0 <= i < codes.len()
                    &&& code_error(#[trigger] codes[i]@) == Some(e)
                    &&& forall|j: int| 0 <= j < i ==> code_error(#[trigger] codes[j]@) is None
                },
        },
{
    let mut cells: Vec<String> = Vec::new();
    let mut i: usize = 0;
    while i < codes.len()
        invariant
            i <= codes.len(),
            cells.len() == 9 * i,
            forall|j: int| 0 <= j < i ==> code_error(#[trigger] codes[j]@) is None,
            forall|k: int|
                0 <= k < cells.len() ==> (#[trigger] cells[k])@ == neighbors_spec(codes[k / 9]@)[k
                    % 9],
        decreases codes.len() - i,
    {
        let mut nine = match neighbors(codes[i].as_str()) {
            Ok(nine) => nine,
            Err(e) => {
                return Err(e);
            },
        };
        proof {
            let next = cells@ + nine@;
            assert forall|k: int| 0 <= k < next.len() implies (#[trigger] next[k])@
                == neighbors_spec(codes[k / 9]@)[k % 9] by {
                if k >= cells.len() {
                    let j = k - 9 * i;
                    assert(k / 9 == i && k % 9 == j);
                    assert(next[k] == nine[j]);
                    assert(nine.deep_view()[j] == nine[j]@);
                }
            }
        }
        cells.append(&mut nine);
        i += 1;
    }
    Ok(cells)
}

} // verus!
