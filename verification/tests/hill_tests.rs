use puzzles::task12::{prob1, prob2, HillMap};

const EXAMPLE: &str = "Sabqponm\nabcryxxl\naccszExk\nacctuvwj\nabdefghi";

#[test]
fn walk_back_to_the_start() {
    assert_eq!(prob1(EXAMPLE), Some(31));
}

#[test]
fn walk_back_to_any_low_point() {
    assert_eq!(prob2(EXAMPLE), Some(29));
}

#[test]
fn map_reads_markers() {
    let map = HillMap::from_string(EXAMPLE).expect("readable map");
    assert_eq!(map.start, (0, 0));
    assert_eq!(map.end, (2, 5));
    assert_eq!(map.elevations[0][0], 0);
    assert_eq!(map.elevations[2][5], 25);
    assert_eq!(map.elevations[0][1], 0);
    assert_eq!(map.elevations[4][7], 8);
}

#[test]
fn bad_bytes_are_refused() {
    assert!(HillMap::from_string("ab?cd").is_none());
    assert_eq!(prob1("ab7"), None);
}

#[test]
fn unreachable_start_has_no_walk() {
    // The start is walled off behind a cliff too tall to step down.
    assert_eq!(prob1("Szz\nzzz\nzzE"), None);
}

#[test]
fn single_ramp() {
    // A straight ramp climbing one letter at a time.
    let ramp = "Sabcdefghijklmnopqrstuvwxyz".to_owned() + "E";
    assert_eq!(prob1(&ramp), Some(27));
    assert_eq!(prob2(&ramp), Some(26));
}

#[test]
fn too_steep_to_climb() {
    // The summit towers right next to the start; no path climbs it.
    assert_eq!(prob1("SE"), None);
}
