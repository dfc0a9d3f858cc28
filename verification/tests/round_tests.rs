use puzzles::task2::{choice_score, get_choice, prob1, prob2, winning_score};
use puzzles::task4::{fully_contains, overlaps};

#[test]
fn hand_scores() {
    assert_eq!(choice_score('A'), Ok(1));
    assert_eq!(choice_score('Y'), Ok(2));
    assert_eq!(choice_score('Z'), Ok(3));
    assert!(choice_score('Q').is_err());
}

#[test]
fn outcome_scores() {
    assert_eq!(winning_score('C', 'X'), Ok(6));
    assert_eq!(winning_score('A', 'X'), Ok(3));
    assert_eq!(winning_score('B', 'X'), Ok(0));
    assert!(winning_score('D', 'X').is_err());
}

#[test]
fn derived_choices() {
    assert_eq!(get_choice('A', 'Y'), Ok('X'));
    assert_eq!(get_choice('C', 'Z'), Ok('X'));
    assert!(get_choice('A', 'W').is_err());
}

#[test]
fn tournament_example() {
    let listing = "A Y\nB X\nC Z";
    assert_eq!(prob1(listing), Some(15));
    assert_eq!(prob2(listing), Some(12));
}

#[test]
fn unknown_letters_are_refused() {
    assert_eq!(prob1("A Q"), None);
    assert_eq!(prob2("Q Y"), None);
}

#[test]
fn reading_stops_at_a_blank_line() {
    assert_eq!(prob1("A Y\n\nB QQQ"), Some(8));
}

#[test]
fn range_tests() {
    assert!(fully_contains((2, 8), (3, 7)));
    assert!(fully_contains((6, 6), (4, 6)));
    assert!(!fully_contains((2, 4), (6, 8)));
    assert!(overlaps((5, 7), (7, 9)));
    assert!(overlaps((2, 8), (3, 7)));
    assert!(!overlaps((2, 4), (6, 8)));
}

#[test]
fn section_pairs_example() {
    let listing = "2-4,6-8\n2-3,4-5\n5-7,7-9\n2-8,3-7\n6-6,4-6\n2-6,4-8";
    assert_eq!(puzzles::task4::prob1(listing), Some(2));
    assert_eq!(puzzles::task4::prob2(listing), Some(4));
}

#[test]
fn malformed_pairs_are_refused() {
    assert_eq!(puzzles::task4::prob1("2-4,6"), None);
}
