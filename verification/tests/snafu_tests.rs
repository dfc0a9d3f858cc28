use puzzles::task25::{prob1, prob2, Snafu};

fn value_of(text: &str) -> i64 {
    Snafu::from_str(text).expect("readable numeral").to_i64()
}

#[test]
fn known_numerals_read_back() {
    assert_eq!(value_of("1"), 1);
    assert_eq!(value_of("2"), 2);
    assert_eq!(value_of("1="), 3);
    assert_eq!(value_of("1-"), 4);
    assert_eq!(value_of("10"), 5);
    assert_eq!(value_of("21"), 11);
    assert_eq!(value_of("111"), 31);
    assert_eq!(value_of("112"), 32);
    assert_eq!(value_of("122"), 37);
    assert_eq!(value_of("1-12"), 107);
    assert_eq!(value_of("2=0="), 198);
    assert_eq!(value_of("2=01"), 201);
    assert_eq!(value_of("1=-1="), 353);
    assert_eq!(value_of("12111"), 906);
    assert_eq!(value_of("20012"), 1257);
    assert_eq!(value_of("1=-0-2"), 1747);
}

#[test]
fn rendering_round_trips() {
    for v in [0i64, 1, 2, 3, 4, 5, 6, 7, 8, 9, 10, 2022, 12345, 314159265] {
        let numeral = Snafu::from_i64(v);
        let text = numeral.to_string();
        let back = Snafu::from_str(&text).expect("own rendering reads back");
        assert_eq!(back.to_i64(), v);
    }
}

#[test]
fn renders_known_values() {
    assert_eq!(Snafu::from_i64(4890).to_string(), "2=-1=0");
    assert_eq!(Snafu::from_i64(3).to_string(), "1=");
    assert_eq!(Snafu::from_i64(0).to_string(), "");
}

#[test]
fn part_1_sums_the_listing() {
    let listing = "1=-0-2\n12111\n2=0=\n21\n2=01\n111\n20012\n112\n1=-1=\n1-12\n12\n1=\n122";
    assert_eq!(prob1(listing), Some(String::from("2=-1=0")));
}

#[test]
fn bad_digit_is_refused() {
    assert!(Snafu::from_str("12x").is_none());
    assert_eq!(prob1("12\n1x"), None);
}

#[test]
fn there_is_no_second_part() {
    assert_eq!(prob2("anything"), None);
}
