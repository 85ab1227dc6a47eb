use npgeohash::{
    encode, encode_array, from_value, join_bits, split_bits, to_bounds, to_value, Bounds, GeohashError,
    LatLonBits, DEGREE, LAT_MAX, LAT_MIN, LON_MAX, LON_MIN,
};

/// Degrees as a fixed-point coordinate.
fn fixed(degrees: f64) -> i64 {
    (degrees * DEGREE as f64).floor() as i64
}

/// A fixed-point coordinate in degrees.
fn degrees(fixed: i64) -> f64 {
    fixed as f64 / DEGREE as f64
}

fn in_degrees(bounds: Bounds) -> (f64, f64, f64, f64) {
    (
        degrees(bounds.lat_min),
        degrees(bounds.lon_min),
        degrees(bounds.lat_max),
        degrees(bounds.lon_max),
    )
}

#[test]
fn test_even_precision() {
    let (lat, lon) = (35.65803, 139.701636);
    let expect = String::from("xn76fgre");
    let precision = 8;

    let code = encode(fixed(lat), fixed(lon), precision).unwrap();
    assert_eq!(code, expect);

    let bounds = to_bounds(&code).unwrap();
    assert_eq!(
        in_degrees(bounds),
        (35.658016204833984, 139.7014617919922, 35.65818786621094, 139.7018051147461)
    );

    assert_eq!(to_value(&code).unwrap(), 0b1110110100001110011001110011111011101101); // 40 bits
    assert_eq!(from_value(to_value(&code).unwrap(), precision).unwrap(), expect);
    assert_eq!(
        split_bits(&code).unwrap(),
        LatLonBits { lat: 0b10110010101101101011, lon: 0b11100011010101111110 }
    );
    assert_eq!(join_bits(split_bits(&code).unwrap(), precision).unwrap(), code);
}

#[test]
fn test_odd_precision() {
    let (lat, lon) = (35.65803, 139.701636);
    let expect = String::from("xn76fgr");
    let precision = 7;

    let code = encode(fixed(lat), fixed(lon), precision).unwrap();
    assert_eq!(code, expect);

    let bounds = to_bounds(&code).unwrap();
    assert_eq!(
        in_degrees(bounds),
        (35.657501220703125, 139.70077514648438, 35.65887451171875, 139.7021484375)
    );

    assert_eq!(to_value(&code).unwrap(), 0b11101101000011100110011100111110111); // 35 bits
    assert_eq!(from_value(to_value(&code).unwrap(), precision).unwrap(), expect);
    assert_eq!(
        split_bits(&code).unwrap(),
        LatLonBits { lat: 0b10110010101101101, lon: 0b111000110101011111 }
    );
    assert_eq!(join_bits(split_bits(&code).unwrap(), precision).unwrap(), code);
}

#[test]
fn fixed_point_constants() {
    assert_eq!(DEGREE, 1 << 28);
    assert_eq!(LAT_MIN, -90 * DEGREE);
    assert_eq!(LAT_MAX, 90 * DEGREE);
    assert_eq!(LON_MIN, -180 * DEGREE);
    assert_eq!(LON_MAX, 180 * DEGREE);
}

#[test]
fn encode_known_points() {
    assert_eq!(encode(0, 0, 5).unwrap(), "s0000");
    assert_eq!(encode(13114843699, 631413879, 12).unwrap(), "u09tvw0f64r7");
    assert_eq!(encode(fixed(48.8566), fixed(2.3522), 12).unwrap(), "u09tvw0f64r7");
    assert_eq!(encode(9580335225, 37500309648, 6).unwrap(), "xn774c");
}

#[test]
fn encode_precision_zero_is_the_empty_code() {
    assert_eq!(encode(fixed(35.0), fixed(139.0), 0).unwrap(), "");
    assert_eq!(to_value("").unwrap(), 0);
    assert_eq!(split_bits("").unwrap(), LatLonBits { lat: 0, lon: 0 });
    assert_eq!(join_bits(LatLonBits { lat: 7, lon: 9 }, 0).unwrap(), "");
    assert_eq!(
        to_bounds("").unwrap(),
        Bounds { lat_min: LAT_MIN, lon_min: LON_MIN, lat_max: LAT_MAX, lon_max: LON_MAX }
    );
}

#[test]
fn encode_refuses_a_precision_above_twelve() {
    assert_eq!(encode(0, 0, 13), Err(GeohashError::InvalidPrecision));
    assert_eq!(encode(0, 0, u32::MAX), Err(GeohashError::InvalidPrecision));
    assert_eq!(encode(0, 0, 12).unwrap().len(), 12);
}

#[test]
fn a_point_on_a_midpoint_goes_to_the_upper_half() {
    // 0 is the first midpoint of both axes.
    assert_eq!(encode(0, 0, 1).unwrap(), "s");
    assert_eq!(encode(-1, 0, 1).unwrap(), "k");
    assert_eq!(encode(0, -1, 1).unwrap(), "e");
    assert_eq!(encode(-1, -1, 1).unwrap(), "7");
}

#[test]
fn the_edges_of_the_globe_are_encoded() {
    assert_eq!(encode(LAT_MAX, LON_MAX, 4).unwrap(), "zzzz");
    assert_eq!(encode(LAT_MIN, LON_MIN, 4).unwrap(), "0000");
}

#[test]
fn a_point_outside_the_globe_gets_the_nearest_edge_cell() {
    assert_eq!(encode(fixed(100.0), fixed(200.0), 3).unwrap(), "zzz");
    assert_eq!(encode(fixed(-100.0), fixed(-200.0), 3).unwrap(), "000");
    assert_eq!(encode(i64::MAX, i64::MAX, 12).unwrap(), "zzzzzzzzzzzz");
    assert_eq!(encode(i64::MIN, i64::MIN, 12).unwrap(), "000000000000");
}

#[test]
fn bounds_of_known_cells() {
    assert_eq!(
        to_bounds("s").unwrap(),
        Bounds { lat_min: 0, lon_min: 0, lat_max: 45 * DEGREE, lon_max: 45 * DEGREE }
    );
    assert_eq!(
        to_bounds("z").unwrap(),
        Bounds {
            lat_min: 45 * DEGREE,
            lon_min: 135 * DEGREE,
            lat_max: 90 * DEGREE,
            lon_max: 180 * DEGREE
        }
    );
    assert_eq!(
        to_bounds("xn76fgre").unwrap(),
        Bounds {
            lat_min: 9571875840,
            lon_min: 37500825600,
            lat_max: 9571921920,
            lon_max: 37500917760
        }
    );
    // The smallest cells are 45 by 90 units.
    assert_eq!(
        to_bounds("zzzzzzzzzzzz").unwrap(),
        Bounds {
            lat_min: 24159190995,
            lon_min: 48318381990,
            lat_max: 24159191040,
            lon_max: 48318382080
        }
    );
    assert_eq!(
        to_bounds("000000000000").unwrap(),
        Bounds {
            lat_min: -24159191040,
            lon_min: -48318382080,
            lat_max: -24159190995,
            lon_max: -48318381990
        }
    );
}

#[test]
fn to_bounds_refuses_bad_codes() {
    assert_eq!(to_bounds("xn7a"), Err(GeohashError::InvalidSymbol));
    assert_eq!(to_bounds("0000000000000"), Err(GeohashError::InvalidPrecision));
}

#[test]
fn the_cell_of_a_code_holds_the_point_it_was_made_from() {
    let points = [
        (35.65803, 139.701636),
        (-33.8688, 151.2093),
        (51.5074, -0.1278),
        (-54.8019, -68.3030),
        (0.0, 0.0),
        (90.0, 180.0),
        (-90.0, -180.0),
        (89.999999, -179.999999),
    ];
    for (lat, lon) in points {
        for precision in 0..=12u32 {
            let (lat, lon) = (fixed(lat), fixed(lon));
            let code = encode(lat, lon, precision).unwrap();
            assert_eq!(code.len(), precision as usize);
            let bounds = to_bounds(&code).unwrap();
            assert!(bounds.lat_min <= lat && lat <= bounds.lat_max);
            assert!(bounds.lon_min <= lon && lon <= bounds.lon_max);
            let lat_bits = 5 * precision / 2;
            let lon_bits = 5 * precision - lat_bits;
            assert_eq!((bounds.lat_max - bounds.lat_min) << lat_bits, 180 * DEGREE);
            assert_eq!((bounds.lon_max - bounds.lon_min) << lon_bits, 360 * DEGREE);
        }
    }
}

#[test]
fn bounds_are_in_order_and_on_the_globe() {
    for code in ["", "0", "z", "s0", "xn774c", "xn76fgre", "zzzzzzzzzzzz", "000000000000"] {
        let bounds = to_bounds(code).unwrap();
        assert!(LAT_MIN <= bounds.lat_min && bounds.lat_min < bounds.lat_max);
        assert!(bounds.lat_max <= LAT_MAX);
        assert!(LON_MIN <= bounds.lon_min && bounds.lon_min < bounds.lon_max);
        assert!(bounds.lon_max <= LON_MAX);
    }
}

#[test]
fn encode_array_encodes_each_point() {
    let points = vec![
        (fixed(35.65803), fixed(139.701636)),
        (fixed(35.68952987243547), fixed(139.69953972279566)),
        (0, 0),
    ];
    assert_eq!(encode_array(&points, 6).unwrap(), ["xn76fg", "xn774c", "s00000"]);
    assert_eq!(encode_array(&points, 0).unwrap(), ["", "", ""]);
    assert_eq!(encode_array(&points, 13), Err(GeohashError::InvalidPrecision));
    assert_eq!(encode_array(&vec![], 6).unwrap(), Vec::<String>::new());
    assert_eq!(encode_array(&vec![], 13).unwrap(), Vec::<String>::new());
}
