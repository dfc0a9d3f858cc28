//! Counting the pairs of section ranges where one covers the other, or
//! where the two touch at all. A line holds four numbers: both ranges'
//! ends.

use crate::text::lemma_stop_at;
use crate::text::parse_numbers;
use crate::text::s_nums;
use crate::text::s_split;
use crate::text::s_stop;
use crate::text::split;
use vstd::prelude::*;
use vstd::string::StrSliceExecFns;
use vstd::string::StringSliceAdditionalSpecFns;

verus! {

pub open spec fn s_fully_contains(a: (int, int), b: (int, int)) -> bool {
    (a.0 >= b.0 && a.1 <= b.1) || (a.0 <= b.0 && a.1 >= b.1)
}

pub open spec fn s_overlaps(a: (int, int), b: (int, int)) -> bool {
    ||| (a.0 <= b.0 && b.0 <= a.1)
    ||| (a.0 <= b.1 && b.1 <= a.1)
    ||| (a.0 >= b.0 && a.1 <= b.1)
    ||| (a.0 <= b.0 && a.1 >= b.1)
}

/// Whether one of the two ranges covers the other whole.
pub fn fully_contains(a: (u32, u32), b: (u32, u32)) -> (r: bool)
    ensures
        r == s_fully_contains((a.0 as int, a.1 as int), (b.0 as int, b.1 as int)),
{
    (a.0 >= b.0 && a.1 <= b.1) || (a.0 <= b.0 && a.1 >= b.1)
}

/// Whether the two ranges share any section.
pub fn overlaps(a: (u32, u32), b: (u32, u32)) -> (r: bool)
    ensures
        r == s_overlaps((a.0 as int, a.1 as int), (b.0 as int, b.1 as int)),
{
    (a.0 <= b.0 && b.0 <= a.1) || (a.0 <= b.1 && b.1 <= a.1) || (a.0 >= b.0 && a.1 <= b.1) || (a.0
        <= b.0 && a.1 >= b.1)
}

/// The four range ends a line holds.
pub open spec fn s_line_ranges(line: Seq<u8>) -> Option<((int, int), (int, int))> {
    let nums = s_nums(line);
    if {
        &&& forall|j: int| 0 <= j < nums.len() ==> #[trigger] nums[j] <= 1000000
        &&& nums.len() == 4
    } {
        Some(((nums[0], nums[1]), (nums[2], nums[3])))
    } else {
        None
    }
}

/// How many of the first `n` lines pass the chosen test.
pub open spec fn s_count(lines: Seq<Seq<u8>>, n: int, any_overlap: bool) -> Option<int>
    decreases n,
{
    if n <= 0 {
        Some(0)
    } else {
        match (s_count(lines, n - 1, any_overlap), s_line_ranges(lines[n - 1])) {
            (Some(a), Some((p, q))) => {
                let hit = if any_overlap {
                    s_overlaps(p, q)
                } else {
                    s_fully_contains(p, q)
                };
                Some(a + if hit {
                    1int
                } else {
                    0int
                })
            },
            _ => None,
        }
    }
}

proof fn lemma_count_none(lines: Seq<Seq<u8>>, k: int, n: int, any_overlap: bool)
    requires
        0 <= k < n,
        s_count(lines, k + 1, any_overlap) is None,
    ensures
        s_count(lines, n, any_overlap) is None,
    decreases n - k,
{
    if k + 1 < n {
        lemma_count_none(lines, k + 1, n, any_overlap);
    }
}

proof fn lemma_stop_bounds(lines: Seq<Seq<u8>>)
    ensures
        0 <= s_stop(lines) <= lines.len(),
    decreases lines.len(),
{
    if lines.len() > 0 && lines[0].len() != 0 {
        lemma_stop_bounds(lines.skip(1));
    }
}

proof fn lemma_stop_ge(lines: Seq<Seq<u8>>, j: int)
    requires
        0 <= j <= lines.len(),
        forall|k: int| 0 <= k < j ==> (#[trigger] lines[k]).len() != 0,
    ensures
        s_stop(lines) >= j,
    decreases j,
{
    lemma_stop_bounds(lines);
    if j > 0 {
        assert(lines[0].len() != 0);
        assert forall|k: int| 0 <= k < j - 1 implies (#[trigger] lines.skip(1)[k]).len() != 0 by {
            assert(lines.skip(1)[k] == lines[k + 1]);
        }
        lemma_stop_ge(lines.skip(1), j - 1);
        assert(s_stop(lines) == 1 + s_stop(lines.skip(1)));
    }
}

/// Both entry points share this count over the lines before the first
/// blank one.
fn solve(inp: &str, any_overlap: bool) -> (r: Option<u32>)
    ensures
        ({
            let lines = s_split(inp.spec_bytes(), 10);
            match s_count(lines, s_stop(lines), any_overlap) {
                Some(v) => if v <= u32::MAX {
                    r is Some && r->0 as int == v
                } else {
                    r is None
                },
                None => r is None,
            }
        }),
{
    let bytes: Vec<u8> = inp.as_bytes_vec();
    let pieces = split(&bytes, 10);
    let ghost lines = s_split(bytes@, 10);
    let n = pieces.len();
    let mut count: u64 = 0;
    let mut k: usize = 0;
    loop
        invariant_except_break
            k <= n,
            n == lines.len(),
            bytes@ == inp.spec_bytes(),
            lines == s_split(bytes@, 10),
            pieces@.len() == n,
            forall|j: int|
                0 <= j < n ==> {
                    &&& #[trigger] pieces@[j].0 <= pieces@[j].1 <= bytes@.len()
                    &&& bytes@.subrange(pieces@[j].0 as int, pieces@[j].1 as int) == lines[j]
                },
            forall|j: int| 0 <= j < k ==> (#[trigger] lines[j]).len() != 0,
            s_count(lines, k as int, any_overlap) == Some(count as int),
            count as int <= k as int,
        ensures
            s_count(lines, s_stop(lines), any_overlap) == Some(count as int),
        decreases n - k,
    {
        if k >= n {
            proof {
                lemma_stop_at(lines, n as int);
            }
            break;
        }
        let (lo, hi) = pieces[k];
        if lo == hi {
            proof {
                lemma_stop_at(lines, k as int);
            }
            break;
        }
        proof {
            assert(lines[k as int].len() == hi - lo);
        }
        let parsed = parse_numbers(&bytes, lo, hi, 1000000);
        let mut ok = false;
        match parsed {
            Some(nums) if nums.len() == 4 => {
                let a = (nums[0] as u32, nums[1] as u32);
                let b = (nums[2] as u32, nums[3] as u32);
                proof {
                    assert(nums@.map_values(|x: i64| x as int)[0] == nums@[0] as int);
                    assert(nums@.map_values(|x: i64| x as int)[1] == nums@[1] as int);
                    assert(nums@.map_values(|x: i64| x as int)[2] == nums@[2] as int);
                    assert(nums@.map_values(|x: i64| x as int)[3] == nums@[3] as int);
                }
                let hit = if any_overlap {
                    overlaps(a, b)
                } else {
                    fully_contains(a, b)
                };
                if hit {
                    count = count + 1;
                }
                ok = true;
            },
            _ => {},
        }
        if !ok {
            proof {
                assert(s_line_ranges(lines[k as int]) is None);
                assert(s_count(lines, k as int + 1, any_overlap) is None);
                lemma_stop_ge(lines, k as int + 1);
                if k as int + 1 < s_stop(lines) {
                    lemma_count_none(lines, k as int, s_stop(lines), any_overlap);
                }
            }
            return None;
        }
        k = k + 1;
    }
    if count > 0xffff_ffff {
        None
    } else {
        Some(count as u32)
    }
}

/// How many pairs have one range covering the other.
pub fn prob1(inp: &str) -> (r: Option<u32>)
    ensures
        ({
            let lines = s_split(inp.spec_bytes(), 10);
            match s_count(lines, s_stop(lines), false) {
                Some(v) => if v <= u32::MAX {
                    r is Some && r->0 as int == v
                } else {
                    r is None
                },
                None => r is None,
            }
        }),
{
    solve(inp, false)
}

/// How many pairs touch at all.
pub fn prob2(inp: &str) -> (r: Option<u32>)
    ensures
        ({
            let lines = s_split(inp.spec_bytes(), 10);
            match s_count(lines, s_stop(lines), true) {
                Some(v) => if v <= u32::MAX {
                    r is Some && r->0 as int == v
                } else {
                    r is None
                },
                None => r is None,
            }
        }),
{
    solve(inp, true)
}

} // verus!
