//! Reading production catalogs from text and scoring each one with the
//! scheduler.
//!
//! A line describes one catalog by seven numbers: a label, then the ore
//! cost of the ore unit, the ore cost of the clay unit, the ore and clay
//! costs of the obsidian unit, and the ore and obsidian costs of the
//! output unit.

use crate::scheduler::cat_wf;
use crate::scheduler::lemma_run_bounds;
use crate::scheduler::score;
use crate::scheduler::s_run;
use crate::scheduler::Catalog;
use crate::scheduler::MAX_COST;
use crate::text::is_digit;
use crate::text::parse_numbers;
use crate::text::s_nums;
use crate::text::s_split;
use crate::text::split;
use vstd::prelude::*;
use vstd::string::StrSliceExecFns;
use vstd::string::StringSliceAdditionalSpecFns;

verus! {

/// The cost matrix a line's seven numbers describe: unit kinds 0 and 1
/// cost ore alone, kind 2 costs ore and clay, kind 3 costs ore and
/// obsidian.
pub open spec fn s_cat_of(nums: Seq<int>) -> Seq<Seq<int>> {
    seq![
        seq![nums[1], 0, 0, 0],
        seq![nums[2], 0, 0, 0],
        seq![nums[3], nums[4], 0, 0],
        seq![nums[5], 0, nums[6], 0],
    ]
}

/// The catalog a line describes, where its numbers are readable, seven
/// in count, non-negative and within the engine's capacity.
pub open spec fn s_line_cat(line: Seq<u8>) -> Option<Seq<Seq<int>>> {
    let nums = s_nums(line);
    if {
        &&& forall|j: int| 0 <= j < nums.len() ==> #[trigger] nums[j] <= 1000000
        &&& nums.len() == 7
        &&& forall|j: int| 1 <= j < 7 ==> 0 <= #[trigger] nums[j] <= MAX_COST as int
    } {
        Some(s_cat_of(nums))
    } else {
        None
    }
}

/// The weighted quality sum of the first `n` catalogs at a horizon of
/// 24 steps, or `None` where a line is unreadable or the sum leaves the
/// machine word.
pub open spec fn s_prob1_sum(lines: Seq<Seq<u8>>, n: int) -> Option<int>
    decreases n,
{
    if n <= 0 {
        Some(0)
    } else {
        match (s_prob1_sum(lines, n - 1), s_line_cat(lines[n - 1])) {
            (Some(a), Some(cat)) => if a + n * s_run(cat, 24) <= i64::MAX {
                Some(a + n * s_run(cat, 24))
            } else {
                None
            },
            _ => None,
        }
    }
}

/// The product of the scores of the first `n` catalogs at a horizon of
/// 32 steps.
pub open spec fn s_prob2_prod(lines: Seq<Seq<u8>>, n: int) -> Option<int>
    decreases n,
{
    if n <= 0 {
        Some(1)
    } else {
        match (s_prob2_prod(lines, n - 1), s_line_cat(lines[n - 1])) {
            (Some(p), Some(cat)) => Some(p * s_run(cat, 32)),
            _ => None,
        }
    }
}

proof fn lemma_prob1_none(lines: Seq<Seq<u8>>, k: int, n: int)
    requires
        0 <= k < n,
        s_prob1_sum(lines, k + 1) is None,
    ensures
        s_prob1_sum(lines, n) is None,
    decreases n - k,
{
    if k + 1 < n {
        lemma_prob1_none(lines, k + 1, n);
    }
}

proof fn lemma_prob2_none(lines: Seq<Seq<u8>>, k: int, n: int)
    requires
        0 <= k < n,
        s_prob2_prod(lines, k + 1) is None,
    ensures
        s_prob2_prod(lines, n) is None,
    decreases n - k,
{
    if k + 1 < n {
        lemma_prob2_none(lines, k + 1, n);
    }
}

/// Reads the catalog of one line, or says why the line fails: the
/// result mirrors `s_line_cat` exactly.
fn line_cat(bs: &Vec<u8>, lo: usize, hi: usize) -> (r: Option<Catalog>)
    requires
        lo <= hi <= bs@.len(),
    ensures
        match r {
            Some(cat) => {
                &&& s_line_cat(bs@.subrange(lo as int, hi as int)) == Some(cat@)
                &&& cat_wf(cat@)
            },
            None => s_line_cat(bs@.subrange(lo as int, hi as int)) is None,
        },
{
    let ghost line = bs@.subrange(lo as int, hi as int);
    let parsed = parse_numbers(bs, lo, hi, 1000000);
    match parsed {
        None => None,
        Some(nums) => {
            if nums.len() != 7 {
                return None;
            }
            let c1 = nums[1];
            let c2 = nums[2];
            let c3 = nums[3];
            let c4 = nums[4];
            let c5 = nums[5];
            let c6 = nums[6];
            proof {
                assert(nums@.map_values(|x: i64| x as int)[1] == c1 as int);
                assert(nums@.map_values(|x: i64| x as int)[2] == c2 as int);
                assert(nums@.map_values(|x: i64| x as int)[3] == c3 as int);
                assert(nums@.map_values(|x: i64| x as int)[4] == c4 as int);
                assert(nums@.map_values(|x: i64| x as int)[5] == c5 as int);
                assert(nums@.map_values(|x: i64| x as int)[6] == c6 as int);
            }
            if c1 > MAX_COST || c2 > MAX_COST || c3 > MAX_COST || c4 > MAX_COST || c5 > MAX_COST
                || c6 > MAX_COST {
                return None;
            }
            let cat = Catalog {
                costs: [
                    [c1, 0, 0, 0],
                    [c2, 0, 0, 0],
                    [c3, c4, 0, 0],
                    [c5, 0, c6, 0],
                ],
            };
            proof {
                let nv = s_nums(line);
                assert(cat@[0] =~= s_cat_of(nv)[0]);
                assert(cat@[1] =~= s_cat_of(nv)[1]);
                assert(cat@[2] =~= s_cat_of(nv)[2]);
                assert(cat@[3] =~= s_cat_of(nv)[3]);
                assert(cat@ =~= s_cat_of(nv));
                assert(cat_wf(cat@));
            }
            Some(cat)
        },
    }
}

/// The sum over all catalogs of the line number times the best output
/// at a horizon of 24 steps. `None` where a line is unreadable, a cost
/// is beyond the engine's capacity, or the sum leaves the machine word.
pub fn prob1(inp: &str) -> (r: Option<i64>)
    ensures
        ({
            let lines = s_split(inp.spec_bytes(), 10);
            match s_prob1_sum(lines, lines.len() as int) {
                Some(v) => r is Some && r->0 as int == v,
                None => r is None,
            }
        }),
{
    let bytes: Vec<u8> = inp.as_bytes_vec();
    let pieces = split(&bytes, 10);
    let ghost lines = s_split(bytes@, 10);
    let n = pieces.len();
    let mut sum: i64 = 0;
    let mut k: usize = 0;
    while k < n
        invariant
            k <= n,
            n == lines.len(),
            bytes@ == inp.spec_bytes(),
            lines == s_split(bytes@, 10),
            pieces@.len() == n,
            forall|j: int|
                0 <= j < n ==> {
                    &&& #[trigger] pieces@[j].0 <= pieces@[j].1 <= bytes@.len()
                    &&& bytes@.subrange(pieces@[j].0 as int, pieces@[j].1 as int) == lines[j]
                },
            s_prob1_sum(lines, k as int) == Some(sum as int),
            0 <= sum,
        decreases n - k,
    {
        let (lo, hi) = pieces[k];
        let cat_o = line_cat(&bytes, lo, hi);
        match cat_o {
            None => {
                proof {
                    lemma_prob1_none(lines, k as int, n as int);
                }
                return None;
            },
            Some(cat) => {
                let sc = score(&cat, 24);
                proof {
                    lemma_run_bounds(cat@, 24);
                    assert((k as int + 1) * (sc as int) <= (k as int + 1) * 576)
                        by (nonlinear_arith)
                        requires 0 <= sc as int <= 576, 0 <= k as int;
                    assert(0 <= (k as int + 1) * (sc as int)) by (nonlinear_arith)
                        requires 0 <= sc as int, 0 <= k as int;
                    assert((k as int + 1) * 576 <= 0x7fff_ffff_ffff_ffff_0000)
                        by (nonlinear_arith)
                        requires k as int + 1 <= 0xffff_ffff_ffff_ffff;
                }
                let inc: i128 = (k as i128 + 1) * (sc as i128);
                if (sum as i128) + inc > i64::MAX as i128 {
                    proof {
                        lemma_prob1_none(lines, k as int, n as int);
                    }
                    return None;
                }
                sum = ((sum as i128) + inc) as i64;
            },
        }
        k = k + 1;
    }
    Some(sum)
}

/// The product of the best outputs of the first three catalogs at a
/// horizon of 32 steps; fewer catalogs multiply as they are. `None`
/// where one of those lines is unreadable or beyond capacity.
pub fn prob2(inp: &str) -> (r: Option<i64>)
    ensures
        ({
            let lines = s_split(inp.spec_bytes(), 10);
            let m = if lines.len() > 3 {
                3int
            } else {
                lines.len() as int
            };
            match s_prob2_prod(lines, m) {
                Some(v) => r is Some && r->0 as int == v,
                None => r is None,
            }
        }),
{
    let bytes: Vec<u8> = inp.as_bytes_vec();
    let pieces = split(&bytes, 10);
    let ghost lines = s_split(bytes@, 10);
    let n = pieces.len();
    let m = if n > 3 {
        3
    } else {
        n
    };
    let mut prod: i64 = 1;
    let mut k: usize = 0;
    while k < m
        invariant
            k <= m <= 3,
            m <= n,
            n == lines.len(),
            m as int == (if lines.len() > 3 {
                3int
            } else {
                lines.len() as int
            }),
            bytes@ == inp.spec_bytes(),
            lines == s_split(bytes@, 10),
            pieces@.len() == n,
            forall|j: int|
                0 <= j < n ==> {
                    &&& #[trigger] pieces@[j].0 <= pieces@[j].1 <= bytes@.len()
                    &&& bytes@.subrange(pieces@[j].0 as int, pieces@[j].1 as int) == lines[j]
                },
            s_prob2_prod(lines, k as int) == Some(prod as int),
            0 <= prod,
            k == 0 ==> prod == 1,
            k == 1 ==> prod <= 1024,
            k == 2 ==> prod <= 1048576,
            k == 3 ==> prod <= 1073741824,
        decreases m - k,
    {
        let (lo, hi) = pieces[k];
        let cat_o = line_cat(&bytes, lo, hi);
        match cat_o {
            None => {
                proof {
                    lemma_prob2_none(lines, k as int, m as int);
                }
                return None;
            },
            Some(cat) => {
                let sc = score(&cat, 32);
                proof {
                    lemma_run_bounds(cat@, 32);
                    assert(0 <= (prod as int) * (sc as int) <= 1073741824) by (nonlinear_arith)
                        requires
                            0 <= sc as int <= 1024,
                            0 <= prod as int <= 1048576;
                    if k == 0 {
                        assert((prod as int) * (sc as int) <= 1024) by (nonlinear_arith)
                            requires prod as int == 1, 0 <= sc as int <= 1024;
                    }
                    if k == 1 {
                        assert((prod as int) * (sc as int) <= 1048576) by (nonlinear_arith)
                            requires 0 <= prod as int <= 1024, 0 <= sc as int <= 1024;
                    }
                }
                prod = prod * sc;
            },
        }
        k = k + 1;
    }
    Some(prod)
}

} // verus!
