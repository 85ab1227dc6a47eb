use npgeohash::{
    cells_at_offsets, create_rect, encode, many_neighbors, neighbors, split_bits, to_bounds,
    Bounds, GeohashError, LatLonBits, DEGREE,
};
use std::f64::consts::PI;

/// Degrees as a fixed-point coordinate.
fn fixed(degrees: f64) -> i64 {
    (degrees * DEGREE as f64).floor() as i64
}

/// A fixed-point coordinate in degrees.
fn degrees(fixed: i64) -> f64 {
    fixed as f64 / DEGREE as f64
}

/// The width and height in meters of a cell of `dx` by `dy` degrees at the
/// latitude `y`.
fn calc_gridsize(dx: f64, dy: f64, y: f64) -> (f64, f64) {
    const R: f64 = 6378137.0;
    (dx * PI / 180.0 * R * (y * PI / 180.0).cos(), dy * PI / 180.0 * R)
}

/// The cells, as offsets from the cell of the center, that a circle touches.
fn calc_gridpoints(
    center_x: f64,
    center_y: f64,
    radius: f64,
    width: f64,
    height: f64,
) -> Vec<(i64, i64)> {
    let mut points = Vec::new();
    let x = (center_x - radius / width).ceil() as i64;
    let x_last = (center_x + radius / width).floor() as i64;
    for x in x - 1..x_last + 1 {
        let p1 = radius.powi(2) - ((center_x - x as f64) * width).powi(2);
        let p2 = radius.powi(2) - ((center_x - (x + 1) as f64) * width).powi(2);
        let p = p1.max(p2).sqrt() / height;
        let y = (center_y - p).ceil() as i64;
        let y_last = (center_y + p).floor() as i64;
        for y in y - 1..y_last + 1 {
            points.push((x, y))
        }
    }
    points
}

#[test]
fn test_gridpoints() {
    let (lat, lon) = (35.68952987243547, 139.69953972279566);
    assert_eq!(encode(fixed(lat), fixed(lon), 6).unwrap(), "xn774c");
    let bounds = to_bounds("xn774c").unwrap();
    let (lat_min, lon_min, lat_max, lon_max) = (
        degrees(bounds.lat_min),
        degrees(bounds.lon_min),
        degrees(bounds.lat_max),
        degrees(bounds.lon_max),
    );
    assert_eq!(
        (lat_min, lon_min, lat_max, lon_max),
        (35.6890869140625, 139.691162109375, 35.694580078125, 139.7021484375)
    );
    let gridsize = calc_gridsize(lon_max - lon_min, lat_max - lat_min, lat);
    assert_eq!(gridsize, (993.3024217863972, 611.49622628141));
    assert_eq!(split_bits("xn774c").unwrap(), LatLonBits { lat: 22881, lon: 29099 });
    let gridpoints = calc_gridpoints(
        (lon - lon_min) / (lon_max - lon_min),
        (lat - lat_min) / (lat_max - lat_min),
        300.0,
        gridsize.0,
        gridsize.1,
    );
    assert_eq!(gridpoints, vec![(0, -1), (0, 0), (1, -1), (1, 0)]);
    assert_eq!(
        cells_at_offsets("xn774c", &gridpoints).unwrap(),
        ["xn774b", "xn774c", "xn7750", "xn7751"]
    );
}

#[test]
fn cells_at_offsets_follow_the_offsets() {
    assert_eq!(cells_at_offsets("xn774c", &vec![]).unwrap(), Vec::<String>::new());
    assert_eq!(
        cells_at_offsets("xn774c", &vec![(0, 0), (0, 0), (2, 0), (0, -2)]).unwrap(),
        ["xn774c", "xn774c", "xn7753", "xn76fz"]
    );
    assert_eq!(cells_at_offsets("xn7a", &vec![(0, 0)]), Err(GeohashError::InvalidSymbol));
    assert_eq!(
        cells_at_offsets("xn774cxn774cx", &vec![]),
        Err(GeohashError::InvalidPrecision)
    );
}

#[test]
fn neighbors_come_in_the_fixed_order() {
    assert_eq!(
        neighbors("xn774c").unwrap(),
        ["xn774c", "xn774f", "xn774d", "xn7749", "xn7748", "xn774b", "xn7750", "xn7751", "xn7754"]
    );
    assert_eq!(
        neighbors("s0").unwrap(),
        ["s0", "s1", "ec", "eb", "7z", "kp", "kr", "s2", "s3"]
    );
}

#[test]
fn neighbors_are_nine_codes_of_the_same_length() {
    for code in ["", "0", "z", "s0", "xn774c", "xn76fgr", "xn76fgre", "zzzzzzzzzzzz"] {
        let cells = neighbors(code).unwrap();
        assert_eq!(cells.len(), 9);
        assert_eq!(cells[0], code);
        for cell in &cells {
            assert_eq!(cell.len(), code.len());
        }
    }
}

#[test]
fn neighbors_wrap_at_the_edges_of_the_grid() {
    assert_eq!(neighbors("0").unwrap(), ["0", "2", "r", "p", "z", "b", "c", "1", "3"]);
    assert_eq!(neighbors("z").unwrap(), ["z", "p", "n", "y", "w", "x", "8", "b", "0"]);
    assert_eq!(
        neighbors("zzzzzzzzzzzz").unwrap(),
        [
            "zzzzzzzzzzzz",
            "pbpbpbpbpbpb",
            "pbpbpbpbpbp8",
            "zzzzzzzzzzzx",
            "zzzzzzzzzzzw",
            "zzzzzzzzzzzy",
            "bpbpbpbpbpbn",
            "bpbpbpbpbpbp",
            "000000000000"
        ]
    );
    assert_eq!(neighbors("").unwrap(), ["", "", "", "", "", "", "", "", ""]);
}

#[test]
fn neighbors_refuse_bad_codes() {
    assert_eq!(neighbors("xn7l"), Err(GeohashError::InvalidSymbol));
    assert_eq!(neighbors("Xn7"), Err(GeohashError::InvalidSymbol));
    assert_eq!(neighbors("xn774cxn774cx"), Err(GeohashError::InvalidPrecision));
}

#[test]
fn many_neighbors_gives_nine_codes_for_each() {
    let codes = vec![String::from("xn774c"), String::from("0"), String::from("s0")];
    let cells = many_neighbors(&codes).unwrap();
    assert_eq!(cells.len(), 27);
    assert_eq!(cells[..9], neighbors("xn774c").unwrap()[..]);
    assert_eq!(cells[9..18], neighbors("0").unwrap()[..]);
    assert_eq!(cells[18..], neighbors("s0").unwrap()[..]);
    assert_eq!(many_neighbors(&vec![]).unwrap(), Vec::<String>::new());
}

#[test]
fn many_neighbors_ends_with_the_first_error() {
    let codes = vec![
        String::from("xn774c"),
        String::from("xn774cxn774cx"),
        String::from("xn7a"),
    ];
    assert_eq!(many_neighbors(&codes), Err(GeohashError::InvalidPrecision));
    let codes = vec![String::from("xn7a"), String::from("xn774cxn774cx")];
    assert_eq!(many_neighbors(&codes), Err(GeohashError::InvalidSymbol));
}

#[test]
fn create_rect_lists_the_cells_row_by_row() {
    let bounds = Bounds {
        lat_min: fixed(35.0),
        lon_min: fixed(139.0),
        lat_max: fixed(35.2),
        lon_max: fixed(139.5),
    };
    assert_eq!(create_rect(&bounds, 4).unwrap(), ["xn4z", "xn5p", "xn6b", "xn70"]);
    assert_eq!(create_rect(&bounds, 3).unwrap(), ["xn4", "xn5", "xn6", "xn7"]);
    assert_eq!(create_rect(&bounds, 0).unwrap(), [""]);
    assert_eq!(create_rect(&bounds, 13), Err(GeohashError::InvalidPrecision));
}

#[test]
fn create_rect_has_one_code_for_each_pair_of_indices() {
    let bounds = Bounds {
        lat_min: fixed(35.0),
        lon_min: fixed(139.0),
        lat_max: fixed(35.2),
        lon_max: fixed(139.5),
    };
    for precision in 0..=6u32 {
        let south_west = split_bits(&encode(bounds.lat_min, bounds.lon_min, precision).unwrap());
        let north_east = split_bits(&encode(bounds.lat_max, bounds.lon_max, precision).unwrap());
        let (south_west, north_east) = (south_west.unwrap(), north_east.unwrap());
        let rows = north_east.lat - south_west.lat + 1;
        let columns = north_east.lon - south_west.lon + 1;
        let cells = create_rect(&bounds, precision).unwrap();
        assert_eq!(cells.len() as u64, rows * columns);
        assert_eq!(cells[0], encode(bounds.lat_min, bounds.lon_min, precision).unwrap());
        assert_eq!(
            cells[cells.len() - 1],
            encode(bounds.lat_max, bounds.lon_max, precision).unwrap()
        );
    }
}

#[test]
fn create_rect_of_one_point_is_one_cell() {
    let bounds = Bounds {
        lat_min: fixed(35.65803),
        lon_min: fixed(139.701636),
        lat_max: fixed(35.65803),
        lon_max: fixed(139.701636),
    };
    assert_eq!(create_rect(&bounds, 8).unwrap(), ["xn76fgre"]);
}

#[test]
fn create_rect_with_swapped_corners_is_empty() {
    let bounds = Bounds {
        lat_min: fixed(35.2),
        lon_min: fixed(139.0),
        lat_max: fixed(35.0),
        lon_max: fixed(139.5),
    };
    assert_eq!(create_rect(&bounds, 4).unwrap(), Vec::<String>::new());
    let bounds = Bounds {
        lat_min: fixed(35.0),
        lon_min: fixed(139.5),
        lat_max: fixed(35.2),
        lon_max: fixed(139.0),
    };
    assert_eq!(create_rect(&bounds, 4).unwrap(), Vec::<String>::new());
}
