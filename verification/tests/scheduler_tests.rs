use puzzles::scheduler::{score, Catalog};
use puzzles::task19;

fn catalog(
    ore: i64,
    clay: i64,
    obs_ore: i64,
    obs_clay: i64,
    geo_ore: i64,
    geo_obs: i64,
) -> Catalog {
    Catalog {
        costs: [
            [ore, 0, 0, 0],
            [clay, 0, 0, 0],
            [obs_ore, obs_clay, 0, 0],
            [geo_ore, 0, geo_obs, 0],
        ],
    }
}

const EXAMPLE: &str = "Blueprint 1: Each ore robot costs 4 ore. Each clay robot costs 2 ore. Each obsidian robot costs 3 ore and 14 clay. Each geode robot costs 2 ore and 7 obsidian.\nBlueprint 2: Each ore robot costs 2 ore. Each clay robot costs 3 ore. Each obsidian robot costs 3 ore and 8 clay. Each geode robot costs 3 ore and 12 obsidian.";

#[test]
fn first_example_catalog_at_24() {
    assert_eq!(score(&catalog(4, 2, 3, 14, 2, 7), 24), 9);
}

#[test]
fn second_example_catalog_at_24() {
    assert_eq!(score(&catalog(2, 3, 3, 8, 3, 12), 24), 12);
}

#[test]
fn quality_sum_of_example() {
    assert_eq!(task19::prob1(EXAMPLE), Some(33));
}

#[test]
fn zero_cost_catalog_at_the_deep_horizon() {
    // An output unit comes on line every step, so balances grow by
    // 0 + 1 + ... + 31 over 32 steps.
    assert_eq!(score(&catalog(0, 0, 0, 0, 0, 0), 32), 31 * 32 / 2);
}

#[test]
fn unaffordable_catalogs_produce_nothing() {
    // Three catalogs whose units can never be paid for: the do-nothing
    // branch is all there is, and the product of the three zeros is zero.
    let line = "Blueprint 1: Each ore robot costs 4000 ore. Each clay robot costs 4000 ore. Each obsidian robot costs 4000 ore and 4000 clay. Each geode robot costs 4000 ore and 4000 obsidian.";
    let listing = format!("{}\n{}\n{}", line, line, line);
    assert_eq!(task19::prob2(&listing), Some(0));
}

#[test]
fn horizon_monotonicity_sampled() {
    let c = catalog(4, 2, 3, 14, 2, 7);
    let mut prev = 0;
    for h in 1..=24 {
        let s = score(&c, h);
        assert!(s >= prev);
        prev = s;
    }
}

#[test]
fn zero_cost_catalog_builds_every_step() {
    // Nothing costs anything, so an output unit comes on line each step:
    // balances 0, 0, 1, 3, 6, 10 over five steps.
    assert_eq!(score(&catalog(0, 0, 0, 0, 0, 0), 5), 10);
}

#[test]
fn one_step_horizon_yields_nothing() {
    assert_eq!(score(&catalog(1, 1, 1, 1, 1, 1), 1), 0);
}

#[test]
fn unreadable_line_is_refused() {
    assert_eq!(task19::prob1("Blueprint one: no numbers here"), None);
}

#[test]
fn oversized_cost_is_refused() {
    assert_eq!(
        task19::prob1("Blueprint 1: 9999999 ore and 1 clay and 1 1 1 1"),
        None
    );
}

#[test]
fn empty_input_is_refused() {
    // The single empty line has no numbers, so no catalog can be read.
    assert_eq!(task19::prob1(""), None);
}
