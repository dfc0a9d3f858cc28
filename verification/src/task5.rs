//! Rearranging labelled crates between stacks: a drawing of the stacks,
//! then move orders, and the answer is the label on top of each stack.
//!
//! One part moves crates one at a time, reversing them; the other moves
//! each block in one lift, keeping its order.

use crate::text::is_digit;
use crate::text::s_nums;
use crate::text::s_split;
use crate::text::s_stop;
use crate::text::lemma_stop_at;
use crate::text::parse_numbers;
use crate::text::split;
use vstd::prelude::*;
use vstd::string::StrSliceExecFns;
use vstd::string::StringSliceAdditionalSpecFns;

verus! {

/// The stacks as sequences, bottom first.
pub open spec fn sview(g: Seq<Vec<u8>>) -> Seq<Seq<u8>> {
    g.map_values(|r: Vec<u8>| r@)
}

/// One drawing row folded onto the stacks, column by column: column `i`
/// sits at character `4 i + 1`, and a bracket at `4 i` marks a crate.
pub open spec fn s_cols(stacks: Seq<Seq<u8>>, line: Seq<u8>, i: int) -> Seq<Seq<u8>>
    decreases line.len() - i,
{
    if i < 0 || 4 * i + 1 >= line.len() {
        stacks
    } else {
        let padded = if i < stacks.len() {
            stacks
        } else {
            stacks.push(Seq::empty())
        };
        let st2 = if line[4 * i] == 91 {
            padded.update(i, padded[i].push(line[4 * i + 1]))
        } else {
            padded
        };
        s_cols(st2, line, i + 1)
    }
}

/// The stacks drawn by the first `k` lines, read top to bottom; the
/// numbering row adds nothing, and a row of fewer than three characters
/// cannot be read.
pub open spec fn s_header(lines: Seq<Seq<u8>>, k: int) -> Option<Seq<Seq<u8>>>
    decreases k,
{
    if k <= 0 {
        Some(Seq::empty())
    } else {
        match s_header(lines, k - 1) {
            None => None,
            Some(st) => {
                let line = lines[k - 1];
                if line.len() < 3 {
                    None
                } else if is_digit(line[2]) {
                    Some(st)
                } else {
                    Some(s_cols(st, line, 0))
                }
            },
        }
    }
}

/// Crates moved one at a time: each lift takes the top of `from` and
/// drops it on `to`.
pub open spec fn s_move_single(st: Seq<Seq<u8>>, n: int, from: int, to: int) -> Option<
    Seq<Seq<u8>>,
>
    decreases n,
{
    if n <= 0 {
        Some(st)
    } else if !(0 <= from < st.len() && 0 <= to < st.len()) {
        None
    } else if st[from].len() == 0 {
        None
    } else {
        let c = st[from].last();
        let s1 = st.update(from, st[from].drop_last());
        let s2 = s1.update(to, s1[to].push(c));
        s_move_single(s2, n - 1, from, to)
    }
}

/// A whole block lifted at once, keeping its order.
pub open spec fn s_move_block(st: Seq<Seq<u8>>, n: int, from: int, to: int) -> Option<
    Seq<Seq<u8>>,
> {
    if !(0 <= from < st.len() && 0 <= to < st.len()) {
        None
    } else if n < 0 || n > st[from].len() {
        None
    } else {
        let block = st[from].skip(st[from].len() - n);
        let s1 = st.update(from, st[from].take(st[from].len() - n));
        Some(s1.update(to, s1[to] + block))
    }
}

/// The first `k` move orders applied in turn: each order holds three
/// numbers, the count and the one-based source and target.
pub open spec fn s_moves(
    st: Seq<Seq<u8>>,
    mlines: Seq<Seq<u8>>,
    k: int,
    block_mode: bool,
) -> Option<Seq<Seq<u8>>>
    decreases k,
{
    if k <= 0 {
        Some(st)
    } else {
        match s_moves(st, mlines, k - 1, block_mode) {
            None => None,
            Some(s) => {
                let nums = s_nums(mlines[k - 1]);
                if !({
                    &&& nums.len() == 3
                    &&& forall|j: int| 0 <= j < nums.len() ==> #[trigger] nums[j] <= 1000000
                    &&& nums[1] >= 1
                    &&& nums[2] >= 1
                }) {
                    None
                } else if block_mode {
                    s_move_block(s, nums[0], nums[1] - 1, nums[2] - 1)
                } else {
                    s_move_single(s, nums[0], nums[1] - 1, nums[2] - 1)
                }
            },
        }
    }
}

/// The labels on top of the first `k` stacks; an empty stack has none.
pub open spec fn s_tops(st: Seq<Seq<u8>>, k: int) -> Option<Seq<char>>
    decreases k,
{
    if k <= 0 {
        Some(Seq::empty())
    } else {
        match s_tops(st, k - 1) {
            None => None,
            Some(cs) => if st[k - 1].len() == 0 {
                None
            } else {
                Some(cs.push(st[k - 1].last() as char))
            },
        }
    }
}

/// The whole rearrangement: the drawing up to the first blank line, the
/// stacks flipped bottom-up, the orders up to the next blank line, and
/// the top labels read off.
pub open spec fn s_crane(bs: Seq<u8>, block_mode: bool) -> Option<Seq<char>> {
    let lines = s_split(bs, 10);
    let e1 = s_stop(lines);
    match s_header(lines, e1) {
        None => None,
        Some(st0) => {
            let st = st0.map_values(|s: Seq<u8>| s.reverse());
            let mlines = if e1 + 1 <= lines.len() {
                lines.skip(e1 + 1)
            } else {
                Seq::empty()
            };
            match s_moves(st, mlines, s_stop(mlines), block_mode) {
                None => None,
                Some(fin) => s_tops(fin, fin.len() as int),
            }
        },
    }
}

/// Relies on String::push: appends one character at the end.
#[verifier::external_body]
fn push_char(s: &mut String, c: char)
    ensures
        final(s)@ == old(s)@.push(c),
{
    s.push(c)
}

/// Reads the drawing of one row onto the stacks.
fn read_row(stacks: &mut Vec<Vec<u8>>, bs: &Vec<u8>, lo: usize, hi: usize)
    requires
        lo <= hi <= bs@.len(),
    ensures
        sview(final(stacks)@) == s_cols(sview(old(stacks)@), bs@.subrange(lo as int, hi as int), 0),
{
    let ghost line = bs@.subrange(lo as int, hi as int);
    let ghost st0 = sview(stacks@);
    let mut i: usize = 0;
    proof {
        assert(s_cols(st0, line, 0) == s_cols(sview(stacks@), line, 0));
    }
    let len = hi - lo;
    while (4 * (i as u128)) + 1 < (len as u128)
        invariant
            lo <= hi <= bs@.len(),
            len == hi - lo,
            line == bs@.subrange(lo as int, hi as int),
            i <= hi - lo,
            st0 == sview(old(stacks)@),
            s_cols(st0, line, 0) == s_cols(sview(stacks@), line, i as int),
            stacks@.len() >= i,
        decreases hi - lo - i,
    {
        let ghost pre = sview(stacks@);
        if i == stacks.len() {
            stacks.push(Vec::new());
            proof {
                assert(sview(stacks@) =~= pre.push(Seq::empty()));
            }
        }
        let ghost padded = sview(stacks@);
        proof {
            assert(i < stacks@.len());
            assert(padded == (if (i as int) < pre.len() {
                pre
            } else {
                pre.push(Seq::<u8>::empty())
            }));
        }
        let p = lo + 4 * i;
        proof {
            assert(line[4 * (i as int)] == bs@[p as int]);
            assert(line[4 * (i as int) + 1] == bs@[p as int + 1]);
        }
        if bs[p] == 91 {
            let c = bs[p + 1];
            let ghost before = sview(stacks@);
            stacks[i].push(c);
            proof {
                assert(sview(stacks@) =~= before.update(i as int, before[i as int].push(c)));
            }
        }
        proof {
            assert(s_cols(pre, line, i as int) == s_cols(sview(stacks@), line, i as int + 1));
        }
        i = i + 1;
    }
    proof {
        assert(s_cols(sview(stacks@), line, i as int) == sview(stacks@));
    }
}

/// Carries one move order out, one crate at a time.
fn move_single(stacks: &mut Vec<Vec<u8>>, n: usize, from: usize, to: usize) -> (ok: bool)
    ensures
        ({
            match s_move_single(sview(old(stacks)@), n as int, from as int, to as int) {
                Some(st) => ok && sview(final(stacks)@) == st,
                None => !ok,
            }
        }),
{
    let ghost st0 = sview(stacks@);
    let mut done: usize = 0;
    while done < n
        invariant
            done <= n,
            st0 == sview(old(stacks)@),
            s_move_single(st0, n as int, from as int, to as int) == s_move_single(
                sview(stacks@),
                (n - done) as int,
                from as int,
                to as int,
            ),
        decreases n - done,
    {
        if from >= stacks.len() || to >= stacks.len() {
            return false;
        }
        let ghost pre = sview(stacks@);
        proof {
            assert(pre.len() == stacks@.len());
            assert(pre[from as int] == stacks@[from as int]@);
        }
        let c = match stacks[from].pop() {
            Some(c) => c,
            None => {
                return false;
            },
        };
        proof {
            assert(sview(stacks@) =~= pre.update(from as int, pre[from as int].drop_last()));
        }
        let ghost mid = sview(stacks@);
        stacks[to].push(c);
        proof {
            assert(sview(stacks@) =~= mid.update(to as int, mid[to as int].push(c)));
        }
        done = done + 1;
    }
    true
}

/// Carries one move order out in a single lift.
fn move_block(stacks: &mut Vec<Vec<u8>>, n: usize, from: usize, to: usize) -> (ok: bool)
    ensures
        ({
            match s_move_block(sview(old(stacks)@), n as int, from as int, to as int) {
                Some(st) => ok && sview(final(stacks)@) == st,
                None => !ok,
            }
        }),
{
    let ghost st0 = sview(stacks@);
    if from >= stacks.len() || to >= stacks.len() {
        return false;
    }
    if n > stacks[from].len() {
        return false;
    }
    let ghost from0 = st0[from as int];
    let ghost len0 = from0.len() as int;
    let ghost block = from0.skip(len0 - n);
    let mut tmp: Vec<u8> = Vec::new();
    let mut done: usize = 0;
    proof {
        assert(from0.take(len0) =~= from0);
        assert(st0.update(from as int, from0) =~= st0);
    }
    while done < n
        invariant
            done <= n <= from0.len(),
            (from as int) < st0.len(),
            (to as int) < st0.len(),
            st0 == sview(old(stacks)@),
            sview(stacks@) =~= st0.update(from as int, from0.take(len0 - done)),
            from0 == st0[from as int],
            len0 == from0.len() as int,
            tmp@.len() == done,
            forall|j: int| 0 <= j < done ==> tmp@[j] == from0[len0 - 1 - j],
        decreases n - done,
    {
        let ghost pre = sview(stacks@);
        proof {
            assert(pre.len() == st0.len());
            assert(stacks@.len() == pre.len());
            assert(pre[from as int] == stacks@[from as int]@);
            assert(pre[from as int] == from0.take(len0 - done));
            assert(pre[from as int].len() == len0 - done);
        }
        let c = match stacks[from].pop() {
            Some(c) => c,
            None => {
                proof {
                    assert(false);
                }
                return false;
            },
        };
        tmp.push(c);
        proof {
            assert(sview(stacks@) =~= pre.update(from as int, pre[from as int].drop_last()));
            assert(from0.take(len0 - done).drop_last() =~= from0.take(len0 - done - 1));
            assert(c == from0[len0 - done - 1]);
            assert(sview(stacks@) =~= st0.update(from as int, from0.take(len0 - (done + 1))));
        }
        done = done + 1;
    }
    let ghost s1 = st0.update(from as int, from0.take(len0 - n));
    let mut put: usize = 0;
    while put < n
        invariant
            put <= n <= from0.len(),
            (from as int) < st0.len(),
            (to as int) < s1.len(),
            st0 == sview(old(stacks)@),
            from0 == st0[from as int],
            s1 == st0.update(from as int, from0.take(len0 - n)),
            len0 == from0.len() as int,
            block == from0.skip(len0 - n),
            sview(stacks@) =~= s1.update(to as int, s1[to as int] + block.take(put as int)),
            tmp@.len() == n - put,
            forall|j: int| 0 <= j < n - put ==> tmp@[j] == from0[len0 - 1 - j],
        decreases n - put,
    {
        let ghost pre = sview(stacks@);
        let c = match tmp.pop() {
            Some(c) => c,
            None => {
                proof {
                    assert(false);
                }
                return false;
            },
        };
        proof {
            assert(sview(stacks@).len() == s1.len());
            assert(stacks@.len() == sview(stacks@).len());
            assert(sview(stacks@)[to as int] == stacks@[to as int]@);
        }
        stacks[to].push(c);
        proof {
            assert(c == from0[len0 - 1 - (n - put - 1)]);
            assert(c == block[put as int]);
            assert(block.take(put + 1) =~= block.take(put as int).push(c));
            assert(sview(stacks@) =~= pre.update(to as int, pre[to as int].push(c)));
            assert((s1[to as int] + block.take(put as int)).push(c) =~= s1[to as int]
                + block.take(put + 1));
            assert(sview(stacks@) =~= s1.update(to as int, s1[to as int] + block.take(put + 1)));
        }
        put = put + 1;
    }
    proof {
        assert(block.take(n as int) =~= block);
    }
    true
}

/// What both parts share: draw the stacks, run the orders, read the
/// tops.
fn solve(inp: &str, block_mode: bool) -> (r: Option<String>)
    ensures
        ({
            match s_crane(inp.spec_bytes(), block_mode) {
                Some(cs) => r is Some && r->0@ == cs,
                None => r is None,
            }
        }),
{
    let bytes: Vec<u8> = inp.as_bytes_vec();
    let pieces = split(&bytes, 10);
    let ghost lines = s_split(bytes@, 10);
    let n = pieces.len();
    let mut stacks: Vec<Vec<u8>> = Vec::new();
    let mut k: usize = 0;
    // The drawing, read until the first blank line.
    loop
        invariant
            k <= n,
            n == lines.len(),
            bytes@ == inp.spec_bytes(),
            lines == s_split(bytes@, 10),
            pieces@.len() == n,
            forall|j: int|
                0 <= j < n ==> {
                    &&& #[trigger] pieces@[j].0 <= pieces@[j].1 <= bytes@.len()
                    &&& bytes@.subrange(pieces@[j].0 as int, pieces@[j].1 as int) == lines[j]
                },
            forall|j: int| 0 <= j < k ==> (#[trigger] lines[j]).len() != 0,
            s_header(lines, k as int) == Some(sview(stacks@)),
        ensures
            s_header(lines, s_stop(lines)) == Some(sview(stacks@)),
            k as int == s_stop(lines),
        decreases n - k,
    {
        if k >= n {
            proof {
                lemma_stop_at(lines, n as int);
            }
            break;
        }
        let (lo, hi) = pieces[k];
        if lo == hi {
            proof {
                lemma_stop_at(lines, k as int);
            }
            break;
        }
        proof {
            assert(lines[k as int].len() == hi - lo);
        }
        if hi - lo < 3 {
            proof {
                lemma_stop_min(lines, k as int + 1);
                lemma_header_none(lines, k as int, s_stop(lines));
            }
            return None;
        }
        let third = bytes[lo + 2];
        proof {
            assert(lines[k as int][2] == bytes@[lo as int + 2]);
        }
        if !(48 <= third && third <= 57) {
            read_row(&mut stacks, &bytes, lo, hi);
        }
        k = k + 1;
    }
    // Flip each stack so its bottom comes first.
    let ghost st_top_down = sview(stacks@);
    let mut flipped: Vec<Vec<u8>> = Vec::new();
    let mut f: usize = 0;
    while f < stacks.len()
        invariant
            f <= stacks@.len(),
            st_top_down == sview(stacks@),
            flipped@.len() == f,
            forall|j: int| 0 <= j < f ==> (#[trigger] flipped@[j])@ == st_top_down[j].reverse(),
        decreases stacks@.len() - f,
    {
        let src = &stacks[f];
        let m = src.len();
        let mut rev: Vec<u8> = Vec::new();
        let mut i: usize = 0;
        while i < m
            invariant
                i <= m,
                m == src@.len(),
                src@ == st_top_down[f as int],
                f < st_top_down.len(),
                rev@.len() == i,
                forall|j: int| 0 <= j < i ==> rev@[j] == src@[m - 1 - j],
            decreases m - i,
        {
            let c = src[m - 1 - i];
            rev.push(c);
            i = i + 1;
        }
        proof {
            assert(rev@ =~= st_top_down[f as int].reverse());
        }
        flipped.push(rev);
        f = f + 1;
    }
    let mut stacks = flipped;
    proof {
        assert(sview(stacks@) =~= st_top_down.map_values(|s: Seq<u8>| s.reverse()));
    }
    let ghost st_start = sview(stacks@);
    let ghost mlines = if k as int + 1 <= lines.len() {
        lines.skip(k as int + 1)
    } else {
        Seq::<Seq<u8>>::empty()
    };
    // The orders, read until the next blank line or the end.
    let mut m: usize = 0;
    let base = if k < n {
        k + 1
    } else {
        n
    };
    proof {
        if k < n {
            assert(mlines =~= lines.skip(k as int + 1));
        } else {
            assert(mlines =~= Seq::<Seq<u8>>::empty());
        }
        assert(mlines.len() == n - base);
        assert(forall|j: int| 0 <= j < mlines.len() ==> mlines[j] == lines[base + j]);
    }
    loop
        invariant
            m <= n - base,
            base <= n,
            n == lines.len(),
            bytes@ == inp.spec_bytes(),
            lines == s_split(bytes@, 10),
            pieces@.len() == n,
            forall|j: int|
                0 <= j < n ==> {
                    &&& #[trigger] pieces@[j].0 <= pieces@[j].1 <= bytes@.len()
                    &&& bytes@.subrange(pieces@[j].0 as int, pieces@[j].1 as int) == lines[j]
                },
            mlines.len() == n - base,
            forall|j: int| 0 <= j < mlines.len() ==> mlines[j] == lines[base + j],
            forall|j: int| 0 <= j < m ==> (#[trigger] mlines[j]).len() != 0,
            s_moves(st_start, mlines, m as int, block_mode) == Some(sview(stacks@)),
            s_header(lines, s_stop(lines)) == Some(st_top_down),
            st_start == st_top_down.map_values(|s: Seq<u8>| s.reverse()),
            mlines == (if s_stop(lines) + 1 <= lines.len() {
                lines.skip(s_stop(lines) + 1)
            } else {
                Seq::<Seq<u8>>::empty()
            }),
        ensures
            s_moves(st_start, mlines, s_stop(mlines), block_mode) == Some(sview(stacks@)),
        decreases n - base - m,
    {
        if base + m >= n {
            proof {
                lemma_stop_at(mlines, mlines.len() as int);
            }
            break;
        }
        let (lo, hi) = pieces[base + m];
        if lo == hi {
            proof {
                lemma_stop_at(mlines, m as int);
            }
            break;
        }
        proof {
            assert(mlines[m as int] == lines[base + m]);
            assert(mlines[m as int].len() == hi - lo);
        }
        let nums = match parse_numbers(&bytes, lo, hi, 1000000) {
            Some(v) => v,
            None => {
                proof {
                    lemma_stop_min(mlines, m as int + 1);
                    lemma_moves_none(st_start, mlines, m as int, s_stop(mlines), block_mode);
                }
                return None;
            },
        };
        if nums.len() != 3 {
            proof {
                lemma_stop_min(mlines, m as int + 1);
                lemma_moves_none(st_start, mlines, m as int, s_stop(mlines), block_mode);
            }
            return None;
        }
        let count = nums[0];
        let from1 = nums[1];
        let to1 = nums[2];
        proof {
            assert(nums@.map_values(|x: i64| x as int)[0] == count as int);
            assert(nums@.map_values(|x: i64| x as int)[1] == from1 as int);
            assert(nums@.map_values(|x: i64| x as int)[2] == to1 as int);
        }
        if from1 < 1 || to1 < 1 {
            proof {
                lemma_stop_min(mlines, m as int + 1);
                lemma_moves_none(st_start, mlines, m as int, s_stop(mlines), block_mode);
            }
            return None;
        }
        let ok = if block_mode {
            move_block(&mut stacks, count as usize, (from1 - 1) as usize, (to1 - 1) as usize)
        } else {
            move_single(&mut stacks, count as usize, (from1 - 1) as usize, (to1 - 1) as usize)
        };
        if !ok {
            proof {
                lemma_stop_min(mlines, m as int + 1);
                lemma_moves_none(st_start, mlines, m as int, s_stop(mlines), block_mode);
            }
            return None;
        }
        m = m + 1;
    }
    // Read the top labels off.
    let mut out = String::new();
    let ghost fin = sview(stacks@);
    let mut t: usize = 0;
    while t < stacks.len()
        invariant
            t <= stacks@.len(),
            fin == sview(stacks@),
            s_tops(fin, t as int) == Some(out@),
            bytes@ == inp.spec_bytes(),
            lines == s_split(bytes@, 10),
            s_header(lines, s_stop(lines)) == Some(st_top_down),
            st_start == st_top_down.map_values(|s: Seq<u8>| s.reverse()),
            mlines == (if s_stop(lines) + 1 <= lines.len() {
                lines.skip(s_stop(lines) + 1)
            } else {
                Seq::<Seq<u8>>::empty()
            }),
            s_moves(st_start, mlines, s_stop(mlines), block_mode) == Some(fin),
        decreases stacks@.len() - t,
    {
        if stacks[t].len() == 0 {
            proof {
                lemma_tops_none(fin, t as int, fin.len() as int);
            }
            return None;
        }
        let c = stacks[t][stacks[t].len() - 1];
        push_char(&mut out, c as char);
        proof {
            assert(fin[t as int].last() == c);
        }
        t = t + 1;
    }
    Some(out)
}

proof fn lemma_header_none(lines: Seq<Seq<u8>>, k: int, e: int)
    requires
        0 <= k,
        s_header(lines, k + 1) is None,
    ensures
        k < e ==> s_header(lines, e) is None,
    decreases e - k,
{
    if k + 1 < e {
        lemma_header_none(lines, k + 1, e);
    }
}

proof fn lemma_stop_min(lines: Seq<Seq<u8>>, j: int)
    requires
        0 <= j <= lines.len(),
        forall|k: int| 0 <= k < j ==> (#[trigger] lines[k]).len() != 0,
    ensures
        j <= s_stop(lines) <= lines.len(),
    decreases j + lines.len(),
{
    if lines.len() > 0 && lines[0].len() != 0 {
        assert forall|k: int| 0 <= k < j - 1 implies (#[trigger] lines.skip(1)[k]).len() != 0 by {
            assert(lines.skip(1)[k] == lines[k + 1]);
        }
        lemma_stop_min(lines.skip(1), if j > 0 {
            j - 1
        } else {
            0
        });
    }
}

proof fn lemma_moves_none(
    st: Seq<Seq<u8>>,
    mlines: Seq<Seq<u8>>,
    k: int,
    e: int,
    block_mode: bool,
)
    requires
        0 <= k,
        s_moves(st, mlines, k + 1, block_mode) is None,
    ensures
        k < e ==> s_moves(st, mlines, e, block_mode) is None,
    decreases e - k,
{
    if k + 1 < e {
        lemma_moves_none(st, mlines, k + 1, e, block_mode);
    }
}

proof fn lemma_tops_none(st: Seq<Seq<u8>>, k: int, e: int)
    requires
        0 <= k,
        s_tops(st, k + 1) is None,
    ensures
        k < e ==> s_tops(st, e) is None,
    decreases e - k,
{
    if k + 1 < e {
        lemma_tops_none(st, k + 1, e);
    }
}

/// The top labels after moving crates one at a time.
pub fn prob1(inp: &str) -> (r: Option<String>)
    ensures
        ({
            match s_crane(inp.spec_bytes(), false) {
                Some(cs) => r is Some && r->0@ == cs,
                None => r is None,
            }
        }),
{
    solve(inp, false)
}

/// The top labels after moving each block in one lift.
pub fn prob2(inp: &str) -> (r: Option<String>)
    ensures
        ({
            match s_crane(inp.spec_bytes(), true) {
                Some(cs) => r is Some && r->0@ == cs,
                None => r is None,
            }
        }),
{
    solve(inp, true)
}

} // verus!
