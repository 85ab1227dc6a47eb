use npgeohash::alphabet::base;
use npgeohash::{compress, GeohashError};

/// The least number of children that count as enough at `accuracy`.
fn threshold(accuracy: f64) -> u64 {
    (32.0 * accuracy).ceil() as u64
}

#[test]
fn test_compress() {
    let mut v = vec!["bcbcde", "bcbcde", "bcbcd", "bcbef"];
    compress(&mut v, threshold(1.0)).unwrap();
    assert_eq!(v, vec!["bcbcd", "bcbef"]);

    let v = [
        vec![String::from("bb")],
        base().chars().map(|c| format!("bcbc{}", c)).collect(),
        vec![String::from("be")],
    ]
    .concat();
    let mut v: Vec<&str> = v.iter().map(|s| s.as_str()).collect();
    compress(&mut v, threshold(1.0)).unwrap();
    assert_eq!(v, vec!["bb", "bcbc", "be"]);

    let v = [
        vec![String::from("bb")],
        base()[..26].chars().map(|c| format!("bcb{}", c)).collect(),
        vec![String::from("be")],
    ]
    .concat();
    let mut v: Vec<&str> = v.iter().map(|s| s.as_str()).collect();
    compress(&mut v, threshold(0.8)).unwrap();
    assert_eq!(v, vec!["bb", "bcb", "be"]);

    let v = [
        vec![String::from("bb")],
        base()[..25]
            .chars()
            .flat_map(|c| base()[..26].chars().map(move |d| format!("bcb{}{}", c, d)))
            .collect(),
        vec![String::from("bcbt")],
    ]
    .concat();
    let mut v: Vec<&str> = v.iter().map(|s| s.as_str()).collect();
    compress(&mut v, threshold(0.8)).unwrap();
    assert_eq!(v, vec!["bb", "bcb"]);

    let mut v = vec!["bc1", "bcb0", "bcb1", "bcc0", "bcc1"];
    compress(&mut v, threshold(0.0625)).unwrap();
    assert_eq!(v, vec!["bc"]);

    let mut v = vec!["b1", "bb", "be", "bc", "bcb1", "bcb2", "bcb3", "bcb4"];
    compress(&mut v, threshold(0.125)).unwrap();
    assert_eq!(v, vec!["b"]);
}

#[test]
fn thresholds_of_the_accuracies() {
    assert_eq!(threshold(1.0), 32);
    assert_eq!(threshold(0.8), 26);
    assert_eq!(threshold(0.0625), 2);
    assert_eq!(threshold(0.125), 4);
}

#[test]
fn compress_keeps_what_cannot_be_merged() {
    let mut v: Vec<&str> = vec![];
    compress(&mut v, 32).unwrap();
    assert_eq!(v, Vec::<&str>::new());

    let mut v = vec!["b", "c"];
    compress(&mut v, 32).unwrap();
    assert_eq!(v, vec!["b", "c"]);

    let mut v = vec!["xn774c", "xn7751", "xn76fg"];
    compress(&mut v, 32).unwrap();
    assert_eq!(v, vec!["xn774c", "xn7751", "xn76fg"]);
}

#[test]
fn compress_drops_equal_and_covered_codes() {
    let mut v = vec!["b", "b", "c"];
    compress(&mut v, 32).unwrap();
    assert_eq!(v, vec!["b", "c"]);

    let mut v = vec!["bcd", "bc"];
    compress(&mut v, 32).unwrap();
    assert_eq!(v, vec!["bc"]);

    // The empty code covers every other code.
    let mut v = vec!["", "b"];
    compress(&mut v, 32).unwrap();
    assert_eq!(v, vec![""]);
}

#[test]
fn compress_merges_at_the_threshold_and_not_below() {
    let mut v = vec!["b1", "b2"];
    compress(&mut v, 2).unwrap();
    assert_eq!(v, vec!["b"]);

    let mut v = vec!["b1", "b2"];
    compress(&mut v, 3).unwrap();
    assert_eq!(v, vec!["b1", "b2"]);

    // Equal codes are counted as often as they occur.
    let mut v = vec!["b1", "b1", "b1"];
    compress(&mut v, 3).unwrap();
    assert_eq!(v, vec!["b"]);
}

#[test]
fn compress_refuses_a_bad_symbol_and_changes_nothing() {
    let mut v = vec!["b1", "b2", "ba", "b3"];
    assert_eq!(compress(&mut v, 2), Err(GeohashError::InvalidSymbol));
    assert_eq!(v, vec!["b1", "b2", "ba", "b3"]);
}

#[test]
fn compress_takes_codes_of_any_length() {
    let mut v = vec!["0123456789bcdefghjkmnpqrstuvwxyz0", "0123456789bcdefghjkmnpqrstuvwxyz1"];
    compress(&mut v, 2).unwrap();
    assert_eq!(v, vec!["0123456789bcdefghjkmnpqrstuvwxyz"]);
}

#[test]
fn compressing_twice_changes_nothing_more() {
    let sets: Vec<(Vec<&str>, u64)> = vec![
        (vec!["bcbcde", "bcbcde", "bcbcd", "bcbef"], 32),
        (vec!["bc1", "bcb0", "bcb1", "bcc0", "bcc1"], 2),
        (vec!["b1", "bb", "be", "bc", "bcb1", "bcb2", "bcb3", "bcb4"], 4),
        (vec!["b1", "b2", "c1", "c2", "c3", "d"], 3),
        (vec!["b", "c"], 1),
    ];
    for (mut v, threshold) in sets {
        compress(&mut v, threshold).unwrap();
        let once = v.clone();
        compress(&mut v, threshold).unwrap();
        assert_eq!(v, once);
    }
}

#[test]
fn with_a_threshold_of_one_a_second_call_goes_on() {
    let mut v = vec!["bc1"];
    compress(&mut v, 1).unwrap();
    assert_eq!(v, vec!["bc"]);
    compress(&mut v, 1).unwrap();
    assert_eq!(v, vec!["b"]);
    compress(&mut v, 1).unwrap();
    assert_eq!(v, vec!["b"]);
}

#[test]
fn what_comes_out_covers_what_went_in() {
    let sets: Vec<(Vec<&str>, u64)> = vec![
        (vec!["bcbcde", "bcbcde", "bcbcd", "bcbef"], 32),
        (vec!["bc1", "bcb0", "bcb1", "bcc0", "bcc1"], 2),
        (vec!["b1", "bb", "be", "bc", "bcb1", "bcb2", "bcb3", "bcb4"], 4),
        (vec!["xn774b", "xn774c", "xn7750", "xn7751", "xn77", "xn774"], 3),
    ];
    for (given, threshold) in sets {
        let mut v = given.clone();
        compress(&mut v, threshold).unwrap();
        for code in &given {
            assert!(v.iter().any(|kept| code.starts_with(kept)));
        }
        for kept in &v {
            assert!(given.iter().any(|code| code.starts_with(kept)));
        }
        for (i, kept) in v.iter().enumerate() {
            assert!(!v[..i].contains(kept));
        }
    }
}
