use puzzles::task20::{prob1, prob2};

const EXAMPLE: &str = "1\n2\n-3\n3\n-2\n0\n4";

#[test]
fn grove_coordinates_of_example() {
    assert_eq!(prob1(EXAMPLE), Some(3));
}

#[test]
fn decrypted_grove_coordinates_of_example() {
    assert_eq!(prob2(EXAMPLE), Some(1623178306));
}

#[test]
fn listing_without_zero_has_no_coordinates() {
    assert_eq!(prob1("1\n2\n3"), None);
}

#[test]
fn unreadable_listing_is_refused() {
    assert_eq!(prob1("1\ntwo\n3"), None);
    assert_eq!(prob1(""), None);
    assert_eq!(prob1("-"), None);
}

#[test]
fn single_zero_reads_itself() {
    // One element; every offset wraps back to the zero itself.
    assert_eq!(prob1("0"), Some(0));
}
