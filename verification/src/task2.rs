//! Scoring a tournament of rock, paper, scissors rounds: the first
//! column is the opponent's hand, the second is either the own hand or
//! the wanted outcome.

use crate::text::lemma_stop_at;
use crate::text::s_split;
use crate::text::s_stop;
use crate::text::split;
use vstd::prelude::*;
use vstd::string::StrSliceExecFns;
use vstd::string::StringSliceAdditionalSpecFns;

verus! {

pub open spec fn s_choice_score(x: char) -> Option<int> {
    if x == 'A' || x == 'X' {
        Some(1)
    } else if x == 'B' || x == 'Y' {
        Some(2)
    } else if x == 'C' || x == 'Z' {
        Some(3)
    } else {
        None
    }
}

pub open spec fn s_winning_score(first: char, second: char) -> Option<int> {
    if (first == 'C' && second == 'X') || (first == 'A' && second == 'Y') || (first == 'B'
        && second == 'Z') {
        Some(6)
    } else if (first == 'A' && second == 'X') || (first == 'B' && second == 'Y') || (first == 'C'
        && second == 'Z') {
        Some(3)
    } else if (first == 'B' && second == 'X') || (first == 'C' && second == 'Y') || (first == 'A'
        && second == 'Z') {
        Some(0)
    } else {
        None
    }
}

pub open spec fn s_get_choice(first: char, goal: char) -> Option<char> {
    if (first == 'C' && goal == 'X') || (first == 'B' && goal == 'Y') || (first == 'A'
        && goal == 'Z') {
        Some('Y')
    } else if (first == 'A' && goal == 'X') || (first == 'C' && goal == 'Y') || (first == 'B'
        && goal == 'Z') {
        Some('Z')
    } else if (first == 'B' && goal == 'X') || (first == 'A' && goal == 'Y') || (first == 'C'
        && goal == 'Z') {
        Some('X')
    } else {
        None
    }
}

/// What playing a hand is worth on its own.
pub fn choice_score(x: char) -> (r: Result<u32, &'static str>)
    ensures
        match s_choice_score(x) {
            Some(v) => r is Ok && r->Ok_0 as int == v,
            None => r is Err,
        },
{
    match x {
        'A' | 'X' => Ok(1),
        'B' | 'Y' => Ok(2),
        'C' | 'Z' => Ok(3),
        _ => Err("Unknown!"),
    }
}

/// What the outcome of a round is worth.
pub fn winning_score(first: char, second: char) -> (r: Result<u32, &'static str>)
    ensures
        match s_winning_score(first, second) {
            Some(v) => r is Ok && r->Ok_0 as int == v,
            None => r is Err,
        },
{
    match (first, second) {
        ('C', 'X') | ('A', 'Y') | ('B', 'Z') => Ok(6),
        ('A', 'X') | ('B', 'Y') | ('C', 'Z') => Ok(3),
        ('B', 'X') | ('C', 'Y') | ('A', 'Z') => Ok(0),
        _ => Err("Unknown"),
    }
}

/// The hand that reaches the wanted outcome against the given hand.
pub fn get_choice(first: char, goal: char) -> (r: Result<char, &'static str>)
    ensures
        match s_get_choice(first, goal) {
            Some(v) => r is Ok && r->Ok_0 == v,
            None => r is Err,
        },
{
    match (first, goal) {
        ('C', 'X') | ('B', 'Y') | ('A', 'Z') => Ok('Y'),
        ('A', 'X') | ('C', 'Y') | ('B', 'Z') => Ok('Z'),
        ('B', 'X') | ('A', 'Y') | ('C', 'Z') => Ok('X'),
        _ => Err("Unknown"),
    }
}

/// The two letters of a round's line, which must be exactly "X Y".
pub open spec fn s_letters(line: Seq<u8>) -> Option<(char, char)> {
    if line.len() == 3 && line[1] == 32 {
        Some(((line[0] as char), (line[2] as char)))
    } else {
        None
    }
}

/// What one line scores; in the second reading the own hand is first
/// derived from the wanted outcome.
pub open spec fn s_round(line: Seq<u8>, second_reading: bool) -> Option<int> {
    match s_letters(line) {
        None => None,
        Some((t1, goal)) => {
            let t2 = if second_reading {
                s_get_choice(t1, goal)
            } else {
                Some(goal)
            };
            match t2 {
                None => None,
                Some(t2v) => match (s_winning_score(t1, t2v), s_choice_score(t2v)) {
                    (Some(w), Some(c)) => Some(w + c),
                    _ => None,
                },
            }
        },
    }
}

/// The total over the first `n` lines.
pub open spec fn s_total(lines: Seq<Seq<u8>>, n: int, second_reading: bool) -> Option<int>
    decreases n,
{
    if n <= 0 {
        Some(0)
    } else {
        match (s_total(lines, n - 1, second_reading), s_round(lines[n - 1], second_reading)) {
            (Some(a), Some(v)) => Some(a + v),
            _ => None,
        }
    }
}

proof fn lemma_total_none(lines: Seq<Seq<u8>>, k: int, n: int, second_reading: bool)
    requires
        0 <= k < n,
        s_total(lines, k + 1, second_reading) is None,
    ensures
        s_total(lines, n, second_reading) is None,
    decreases n - k,
{
    if k + 1 < n {
        lemma_total_none(lines, k + 1, n, second_reading);
    }
}

/// What both entry points share: lines are read up to the first blank
/// one, and the round scores are added up.
fn solve(inp: &str, second_reading: bool) -> (r: Option<u32>)
    ensures
        ({
            let lines = s_split(inp.spec_bytes(), 10);
            match s_total(lines, s_stop(lines), second_reading) {
                Some(v) => if v <= u32::MAX {
                    r is Some && r->0 as int == v
                } else {
                    r is None
                },
                None => r is None,
            }
        }),
{
    let bytes: Vec<u8> = inp.as_bytes_vec();
    let pieces = split(&bytes, 10);
    let ghost lines = s_split(bytes@, 10);
    let n = pieces.len();
    let mut total: u128 = 0;
    let mut k: usize = 0;
    loop
        invariant_except_break
            k <= n,
            n == lines.len(),
            bytes@ == inp.spec_bytes(),
            lines == s_split(bytes@, 10),
            pieces@.len() == n,
            forall|j: int|
                0 <= j < n ==> {
                    &&& #[trigger] pieces@[j].0 <= pieces@[j].1 <= bytes@.len()
                    &&& bytes@.subrange(pieces@[j].0 as int, pieces@[j].1 as int) == lines[j]
                },
            forall|j: int| 0 <= j < k ==> (#[trigger] lines[j]).len() != 0,
            s_total(lines, k as int, second_reading) == Some(total as int),
            total as int <= 9 * (k as int),
        ensures
            s_total(lines, s_stop(lines), second_reading) == Some(total as int),
            total as int <= 9 * (n as int),
        decreases n - k,
    {
        if k >= n {
            proof {
                lemma_stop_at(lines, n as int);
            }
            break;
        }
        let (lo, hi) = pieces[k];
        if lo == hi {
            proof {
                lemma_stop_at(lines, k as int);
            }
            break;
        }
        proof {
            assert(lines[k as int].len() == hi - lo);
        }
        let len = hi - lo;
        let round: Option<u32> = if len == 3 && bytes[lo + 1] == 32 {
            let t1 = bytes[lo] as char;
            let goal = bytes[lo + 2] as char;
            proof {
                assert(lines[k as int][0] == bytes@[lo as int]);
                assert(lines[k as int][1] == bytes@[lo as int + 1]);
                assert(lines[k as int][2] == bytes@[lo as int + 2]);
            }
            let t2 = if second_reading {
                match get_choice(t1, goal) {
                    Ok(c) => Some(c),
                    Err(_) => None,
                }
            } else {
                Some(goal)
            };
            match t2 {
                None => None,
                Some(t2v) => {
                    match (winning_score(t1, t2v), choice_score(t2v)) {
                        (Ok(w), Ok(c)) => Some(w + c),
                        _ => None,
                    }
                },
            }
        } else {
            None
        };
        match round {
            None => {
                proof {
                    assert(s_round(lines[k as int], second_reading) is None);
                    assert(s_total(lines, k as int + 1, second_reading) is None);
                    lemma_stop_at_ge(lines, k as int + 1);
                    lemma_find_stop(lines);
                    if k as int + 1 < s_stop(lines) {
                        lemma_total_none(lines, k as int, s_stop(lines), second_reading);
                    }
                }
                return None;
            },
            Some(v) => {
                total = total + v as u128;
            },
        }
        k = k + 1;
    }
    if total > 0xffff_ffff {
        None
    } else {
        Some(total as u32)
    }
}

/// The stop never lies beyond the line count.
proof fn lemma_find_stop(lines: Seq<Seq<u8>>)
    ensures
        0 <= s_stop(lines) <= lines.len(),
    decreases lines.len(),
{
    if lines.len() > 0 && lines[0].len() != 0 {
        lemma_find_stop(lines.skip(1));
    }
}

/// Here `s_stop(lines) == k` may not hold yet; once every line before
/// `k` is non-empty the stop lies at or beyond `k`.
proof fn lemma_stop_at_ge(lines: Seq<Seq<u8>>, j: int)
    requires
        0 <= j <= lines.len(),
        forall|k: int| 0 <= k < j ==> (#[trigger] lines[k]).len() != 0,
    ensures
        s_stop(lines) >= j,
    decreases j,
{
    lemma_find_stop(lines);
    if j > 0 {
        assert(lines[0].len() != 0);
        assert forall|k: int| 0 <= k < j - 1 implies (#[trigger] lines.skip(1)[k]).len() != 0 by {
            assert(lines.skip(1)[k] == lines[k + 1]);
        }
        lemma_stop_at_ge(lines.skip(1), j - 1);
        assert(s_stop(lines) == 1 + s_stop(lines.skip(1)));
    }
}

/// The tournament total when the second column is the own hand.
pub fn prob1(inp: &str) -> (r: Option<u32>)
    ensures
        ({
            let lines = s_split(inp.spec_bytes(), 10);
            match s_total(lines, s_stop(lines), false) {
                Some(v) => if v <= u32::MAX {
                    r is Some && r->0 as int == v
                } else {
                    r is None
                },
                None => r is None,
            }
        }),
{
    solve(inp, false)
}

/// The tournament total when the second column is the wanted outcome.
pub fn prob2(inp: &str) -> (r: Option<u32>)
    ensures
        ({
            let lines = s_split(inp.spec_bytes(), 10);
            match s_total(lines, s_stop(lines), true) {
                Some(v) => if v <= u32::MAX {
                    r is Some && r->0 as int == v
                } else {
                    r is None
                },
                None => r is None,
            }
        }),
{
    solve(inp, true)
}

} // verus!
