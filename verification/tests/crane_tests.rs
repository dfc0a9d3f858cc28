use puzzles::task5::{prob1, prob2};

const EXAMPLE: &str = "    [D]    \n[N] [C]    \n[Z] [M] [P]\n 1   2   3 \n\nmove 1 from 2 to 1\nmove 3 from 1 to 3\nmove 2 from 2 to 1\nmove 1 from 1 to 2";

#[test]
fn tops_after_single_lifts() {
    assert_eq!(prob1(EXAMPLE), Some(String::from("CMZ")));
}

#[test]
fn tops_after_block_lifts() {
    assert_eq!(prob2(EXAMPLE), Some(String::from("MCD")));
}

#[test]
fn no_orders_reads_the_drawing() {
    assert_eq!(prob1("[A] [B]\n 1   2 "), Some(String::from("AB")));
}

#[test]
fn lifting_from_an_empty_stack_is_refused() {
    assert_eq!(prob1("[A] [B]\n 1   2 \n\nmove 3 from 1 to 2"), None);
}

#[test]
fn orders_beyond_the_stacks_are_refused() {
    assert_eq!(prob1("[A]\n 1 \n\nmove 1 from 1 to 9"), None);
    assert_eq!(prob2("[A]\n 1 \n\nmove 1 from 0 to 1"), None);
}

#[test]
fn an_emptied_stack_has_no_top() {
    assert_eq!(prob1("[A] [B]\n 1   2 \n\nmove 1 from 1 to 2"), None);
}

#[test]
fn block_lifts_keep_their_order() {
    // Two crates lifted together land in the same order; lifted one at
    // a time they land reversed.
    let listing = "[A]    \n[B] [C]\n[D] [E]\n 1   2 \n\nmove 2 from 1 to 2";
    assert_eq!(prob1(listing), Some(String::from("DB")));
    assert_eq!(prob2(listing), Some(String::from("DA")));
}
