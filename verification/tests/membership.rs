use npgeohash::{cells_at_offsets, isin};

fn strings(codes: &[&str]) -> Vec<String> {
    codes.iter().map(|code| code.to_string()).collect()
}

#[test]
fn a_point_is_in_a_region_that_holds_a_prefix_of_it() {
    let region = strings(&["xn774b", "xn774c", "xn7750", "xn7751"]);
    let points = strings(&["xn774c1", "xn774c", "xn7752", "xn77", "xn76", ""]);
    assert_eq!(isin(&points, &region), vec![true, true, false, true, false, true]);
}

#[test]
fn nothing_is_in_an_empty_region() {
    assert_eq!(isin(&strings(&["xn774c", ""]), &vec![]), vec![false, false]);
    assert_eq!(isin(&vec![], &strings(&["xn774c"])), Vec::<bool>::new());
}

#[test]
fn isin_compares_any_strings() {
    let region = strings(&["日本", "Köln"]);
    let points = strings(&["日本語", "日", "本", "Köln", "Kö", "Ko"]);
    assert_eq!(isin(&points, &region), vec![true, true, false, true, true, false]);
}

#[test]
fn points_in_the_cells_of_a_circle() {
    let circle = cells_at_offsets("xn774c", &vec![(0, -1), (0, 0), (1, -1), (1, 0)]).unwrap();
    let points = strings(&["xn774b0", "xn774cz", "xn7750s", "xn7751", "xn774d", "xn7752"]);
    assert_eq!(isin(&points, &circle), vec![true, true, true, true, false, false]);
}
