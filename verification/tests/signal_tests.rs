use puzzles::task10::{prob1, prob2};

#[test]
fn short_program_probes_nothing() {
    // The register trace is 1, 1, 1, 4, 4 and never reaches a probe.
    assert_eq!(prob1("noop\naddx 3\naddx -5"), Some(0));
}

#[test]
fn probe_at_cycle_twenty() {
    // Ten `addx 10` commands: at cycle 20 the register shows 91.
    let program = vec!["addx 10"; 10].join("\n");
    assert_eq!(prob1(&program), Some(20 * 91));
}

#[test]
fn single_pixel() {
    // Cycle 1 draws at column 1 while the sprite sits at 1: lit.
    assert_eq!(prob2("noop"), Some(String::from("#")));
}

#[test]
fn one_full_row() {
    // Forty idle cycles: the sprite covers columns 0..=2, and columns
    // 1, 2, 3 of the row are drawn while it sits there.
    let program = vec!["noop"; 40].join("\n");
    let row = format!("###{}\n", ".".repeat(37));
    assert_eq!(prob2(&program), Some(row));
}

#[test]
fn bad_programs_are_refused() {
    assert_eq!(prob1("nope"), None);
    assert_eq!(prob1("addx"), None);
    assert_eq!(prob1("addx x"), None);
    assert_eq!(prob1("noop\naddx 99999999999"), None);
}

#[test]
fn program_stops_at_a_blank_line() {
    assert_eq!(prob1("noop\n\nbroken"), Some(0));
}
