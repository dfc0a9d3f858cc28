//! A one-register machine drawing on a small screen: `noop` burns one
//! cycle, `addx` burns two and then adds to the register. One part sums
//! signal strengths at six probe cycles, the other renders the screen.

use crate::text::lemma_find_at;
use crate::text::lemma_stop_at;
use crate::text::s_find;
use crate::text::s_signed_val;
use crate::text::s_split;
use crate::text::s_stop;
use crate::text::parse_signed;
use crate::text::split;
use vstd::prelude::*;
use vstd::string::StrSliceExecFns;
use vstd::string::StringExecFns;
use vstd::string::StringSliceAdditionalSpecFns;

verus! {

pub enum Command {
    Nop,
    Addx(i64),
}

pub open spec fn noop_word() -> Seq<u8> {
    seq![110u8, 111u8, 111u8, 112u8]
}

pub open spec fn addx_word() -> Seq<u8> {
    seq![97u8, 100u8, 100u8, 120u8]
}

/// The command a line holds: its first word names it, and for `addx`
/// the second word is the signed amount, within the machine's range.
pub open spec fn s_cmd(line: Seq<u8>) -> Option<Command> {
    let sp = s_find(line, 32) as int;
    if line.take(sp) == noop_word() {
        Some(Command::Nop)
    } else if line.take(sp) == addx_word() {
        if sp >= line.len() {
            None
        } else {
            let rest = line.skip(sp + 1);
            match s_signed_val(rest.take(s_find(rest, 32) as int), 0x7fff_ffff) {
                Some(v) => Some(Command::Addx(v as i64)),
                None => None,
            }
        }
    } else {
        None
    }
}

/// The program: commands of the lines before the first blank one.
pub open spec fn s_program(lines: Seq<Seq<u8>>, n: int) -> Option<Seq<Command>>
    decreases n,
{
    if n <= 0 {
        Some(Seq::empty())
    } else {
        match (s_program(lines, n - 1), s_cmd(lines[n - 1])) {
            (Some(cs), Some(c)) => Some(cs.push(c)),
            _ => None,
        }
    }
}

/// The register values, one per cycle: `noop` shows the register once,
/// `addx` shows it twice and then adds.
pub open spec fn s_xs(cmds: Seq<Command>, i: int, x: int) -> Seq<int>
    decreases cmds.len() - i,
{
    if i < 0 || i >= cmds.len() {
        Seq::empty()
    } else {
        match cmds[i] {
            Command::Nop => seq![x] + s_xs(cmds, i + 1, x),
            Command::Addx(v) => seq![x, x] + s_xs(cmds, i + 1, x + v),
        }
    }
}

pub open spec fn is_probe(c: int) -> bool {
    c == 20 || c == 60 || c == 100 || c == 140 || c == 180 || c == 220
}

/// The summed signal strength over the first `n` cycles.
pub open spec fn s_signal(xs: Seq<int>, n: int) -> int
    decreases n,
{
    if n <= 0 {
        0
    } else {
        s_signal(xs, n - 1) + if is_probe(n) {
            n * xs[n - 1]
        } else {
            0
        }
    }
}

pub open spec fn s_pixel(c: int, x: int) -> char {
    if -1 <= x - (c % 40) + 1 <= 1 {
        '#'
    } else {
        '.'
    }
}

/// The screen: one pixel per cycle, and a line break at the end of
/// every row of forty.
pub open spec fn s_render(xs: Seq<int>, n: int) -> Seq<char>
    decreases n,
{
    if n <= 0 {
        Seq::empty()
    } else {
        s_render(xs, n - 1) + seq![s_pixel(n, xs[n - 1])] + if n % 40 == 0 {
            seq!['\n']
        } else {
            Seq::empty()
        }
    }
}

proof fn lemma_program_none(lines: Seq<Seq<u8>>, k: int, n: int)
    requires
        0 <= k < n,
        s_program(lines, k + 1) is None,
    ensures
        s_program(lines, n) is None,
    decreases n - k,
{
    if k + 1 < n {
        lemma_program_none(lines, k + 1, n);
    }
}

proof fn lemma_stop_ge(lines: Seq<Seq<u8>>, j: int)
    requires
        0 <= j <= lines.len(),
        forall|k: int| 0 <= k < j ==> (#[trigger] lines[k]).len() != 0,
    ensures
        j <= s_stop(lines) <= lines.len(),
    decreases j + lines.len(),
{
    if lines.len() > 0 && lines[0].len() != 0 {
        assert forall|k: int| 0 <= k < j - 1 implies (#[trigger] lines.skip(1)[k]).len() != 0 by {
            assert(lines.skip(1)[k] == lines[k + 1]);
        }
        lemma_stop_ge(lines.skip(1), if j > 0 {
            j - 1
        } else {
            0
        });
    }
}

impl Command {
    /// Reads one command line.
    pub fn parse(bs: &Vec<u8>, lo: usize, hi: usize) -> (r: Option<Command>)
        requires
            lo <= hi <= bs@.len(),
        ensures
            match r {
                Some(c) => s_cmd(bs@.subrange(lo as int, hi as int)) == Some(c),
                None => s_cmd(bs@.subrange(lo as int, hi as int)) is None,
            },
            match r {
                Some(Command::Addx(v)) => -0x7fff_ffff <= v <= 0x7fff_ffff,
                _ => true,
            },
    {
        let ghost line = bs@.subrange(lo as int, hi as int);
        let mut sp: usize = lo;
        while sp < hi && bs[sp] != 32
            invariant
                lo <= sp <= hi <= bs@.len(),
                forall|k: int| lo <= k < sp ==> bs@[k] != 32,
            decreases hi - sp,
        {
            sp = sp + 1;
        }
        proof {
            lemma_find_at(line, 32, sp - lo);
        }
        let w_noop = sp - lo == 4 && bs[lo] == 110 && bs[lo + 1] == 111 && bs[lo + 2] == 111 && bs[lo
            + 3] == 112;
        let w_addx = sp - lo == 4 && bs[lo] == 97 && bs[lo + 1] == 100 && bs[lo + 2] == 100 && bs[lo
            + 3] == 120;
        proof {
            let w1 = line.take(sp - lo);
            if w_noop {
                assert(w1 =~= noop_word());
            } else {
                if w1 == noop_word() {
                    assert(w1.len() == 4);
                    assert(line[0] == 110 && line[1] == 111 && line[2] == 111 && line[3] == 112);
                    assert(false);
                }
            }
            if w_addx {
                assert(w1 =~= addx_word());
            } else {
                if w1 == addx_word() {
                    assert(w1.len() == 4);
                    assert(line[0] == 97 && line[1] == 100 && line[2] == 100 && line[3] == 120);
                    assert(false);
                }
            }
        }
        if w_noop {
            return Some(Command::Nop);
        }
        if !w_addx {
            return None;
        }
        if sp == hi {
            return None;
        }
        let lo2 = sp + 1;
        let ghost rest = line.skip(sp - lo + 1);
        proof {
            assert(rest =~= bs@.subrange(lo2 as int, hi as int));
        }
        let mut sp2: usize = lo2;
        while sp2 < hi && bs[sp2] != 32
            invariant
                lo2 <= sp2 <= hi <= bs@.len(),
                forall|k: int| lo2 <= k < sp2 ==> bs@[k] != 32,
            decreases hi - sp2,
        {
            sp2 = sp2 + 1;
        }
        proof {
            lemma_find_at(rest, 32, sp2 - lo2);
            assert(rest.take(sp2 - lo2) =~= bs@.subrange(lo2 as int, sp2 as int));
        }
        match parse_signed(bs, lo2, sp2, 0x7fff_ffff) {
            Some(v) => Some(Command::Addx(v)),
            None => None,
        }
    }
}

/// Shared front half: the parsed program and the register trace.
fn trace(inp: &str) -> (r: Option<Vec<i128>>)
    ensures
        ({
            let lines = s_split(inp.spec_bytes(), 10);
            match s_program(lines, s_stop(lines)) {
                Some(cmds) => r is Some && r->0@.map_values(|v: i128| v as int) == s_xs(
                    cmds,
                    0,
                    1,
                ) && (forall|j: int|
                    0 <= j < r->0@.len() ==> -1 - (j + 1) * 0x7fff_ffff <= (
                    #[trigger] r->0@[j]) as int <= 1 + (j + 1) * 0x7fff_ffff),
                None => r is None,
            }
        }),
{
    let bytes: Vec<u8> = inp.as_bytes_vec();
    let pieces = split(&bytes, 10);
    let ghost lines = s_split(bytes@, 10);
    let n = pieces.len();
    let mut cmds: Vec<Command> = Vec::new();
    let mut k: usize = 0;
    loop
        invariant_except_break
            k <= n,
            n == lines.len(),
            bytes@ == inp.spec_bytes(),
            lines == s_split(bytes@, 10),
            pieces@.len() == n,
            forall|j: int|
                0 <= j < n ==> {
                    &&& #[trigger] pieces@[j].0 <= pieces@[j].1 <= bytes@.len()
                    &&& bytes@.subrange(pieces@[j].0 as int, pieces@[j].1 as int) == lines[j]
                },
            forall|j: int| 0 <= j < k ==> (#[trigger] lines[j]).len() != 0,
            s_program(lines, k as int) == Some(cmds@),
            forall|j: int|
                0 <= j < cmds@.len() ==> match #[trigger] cmds@[j] {
                    Command::Addx(v) => -0x7fff_ffff <= v <= 0x7fff_ffff,
                    Command::Nop => true,
                },
            cmds@.len() == k,
        ensures
            s_program(lines, s_stop(lines)) == Some(cmds@),
            cmds@.len() <= n,
            forall|j: int|
                0 <= j < cmds@.len() ==> match #[trigger] cmds@[j] {
                    Command::Addx(v) => -0x7fff_ffff <= v <= 0x7fff_ffff,
                    Command::Nop => true,
                },
        decreases n - k,
    {
        if k >= n {
            proof {
                lemma_stop_at(lines, n as int);
            }
            break;
        }
        let (lo, hi) = pieces[k];
        if lo == hi {
            proof {
                lemma_stop_at(lines, k as int);
            }
            break;
        }
        match Command::parse(&bytes, lo, hi) {
            None => {
                proof {
                    assert(s_program(lines, k as int + 1) is None);
                    lemma_stop_ge(lines, k as int + 1);
                    if k as int + 1 < s_stop(lines) {
                        lemma_program_none(lines, k as int, s_stop(lines));
                    }
                }
                return None;
            },
            Some(c) => {
                cmds.push(c);
            },
        }
        k = k + 1;
    }
    // Replay the program, recording the register at every cycle.
    let m = cmds.len();
    let mut xs: Vec<i128> = Vec::new();
    let mut x: i128 = 1;
    let mut i: usize = 0;
    proof {
        assert(s_xs(cmds@, 0, 1) == xs@.map_values(|v: i128| v as int) + s_xs(cmds@, 0, 1));
    }
    while i < m
        invariant
            i <= m,
            m == cmds@.len() <= n,
            forall|j: int|
                0 <= j < cmds@.len() ==> match #[trigger] cmds@[j] {
                    Command::Addx(v) => -0x7fff_ffff <= v <= 0x7fff_ffff,
                    Command::Nop => true,
                },
            -1 - (i as int) * 0x7fff_ffff <= x as int <= 1 + (i as int) * 0x7fff_ffff,
            s_xs(cmds@, 0, 1) == xs@.map_values(|v: i128| v as int) + s_xs(
                cmds@,
                i as int,
                x as int,
            ),
            forall|j: int|
                0 <= j < xs@.len() ==> -1 - (j + 1) * 0x7fff_ffff <= (#[trigger] xs@[j]) as int
                    <= 1 + (j + 1) * 0x7fff_ffff,
            i <= xs@.len() <= 2 * i,
        decreases m - i,
    {
        let ghost xs0 = xs@;
        let ghost x0 = x as int;
        proof {
            assert((i as int) * 0x7fff_ffff <= (xs@.len() + 1) * 0x7fff_ffff
                && (i as int) * 0x7fff_ffff <= (xs@.len() + 2) * 0x7fff_ffff) by (nonlinear_arith)
                requires i as int <= xs@.len();
        }
        match cmds[i] {
            Command::Nop => {
                xs.push(x);
                proof {
                    assert(s_xs(cmds@, i as int, x0) == seq![x0] + s_xs(cmds@, i + 1, x0));
                    assert(xs@.map_values(|v: i128| v as int) =~= xs0.map_values(
                        |v: i128| v as int,
                    ).push(x0));
                    assert(xs0.map_values(|v: i128| v as int).push(x0) + s_xs(cmds@, i + 1, x0)
                        =~= xs0.map_values(|v: i128| v as int) + (seq![x0] + s_xs(
                        cmds@,
                        i + 1,
                        x0,
                    )));
                }
            },
            Command::Addx(v) => {
                xs.push(x);
                xs.push(x);
                proof {
                    assert((i as int + 1) * 0x7fff_ffff == (i as int) * 0x7fff_ffff + 0x7fff_ffff)
                        by (nonlinear_arith);
                    assert(s_xs(cmds@, i as int, x0) == seq![x0, x0] + s_xs(
                        cmds@,
                        i + 1,
                        x0 + v,
                    ));
                    assert(xs@.map_values(|v2: i128| v2 as int) =~= xs0.map_values(
                        |v2: i128| v2 as int,
                    ).push(x0).push(x0));
                    assert(xs0.map_values(|v2: i128| v2 as int).push(x0).push(x0) + s_xs(
                        cmds@,
                        i + 1,
                        x0 + v,
                    ) =~= xs0.map_values(|v2: i128| v2 as int) + (seq![x0, x0] + s_xs(
                        cmds@,
                        i + 1,
                        x0 + v,
                    )));
                }
                x = x + v as i128;
            },
        }
        i = i + 1;
    }
    proof {
        assert(s_xs(cmds@, m as int, x as int) =~= Seq::<int>::empty());
        assert(xs@.map_values(|v: i128| v as int) + Seq::<int>::empty() =~= xs@.map_values(
            |v: i128| v as int,
        ));
    }
    Some(xs)
}

/// The summed signal strength at the six probe cycles.
pub fn prob1(inp: &str) -> (r: Option<i64>)
    ensures
        ({
            let lines = s_split(inp.spec_bytes(), 10);
            match s_program(lines, s_stop(lines)) {
                Some(cmds) => r is Some && r->0 as int == s_signal(
                    s_xs(cmds, 0, 1),
                    s_xs(cmds, 0, 1).len() as int,
                ),
                None => r is None,
            }
        }),
{
    let xs = trace(inp);
    match xs {
        None => None,
        Some(xs) => {
            let ghost gxs = xs@.map_values(|v: i128| v as int);
            let n = xs.len();
            let mut sum: i128 = 0;
            let mut c: usize = 0;
            while c < n
                invariant
                    c <= n,
                    n == xs@.len(),
                    gxs == xs@.map_values(|v: i128| v as int),
                    forall|j: int|
                        0 <= j < xs@.len() ==> -1 - (j + 1) * 0x7fff_ffff <= (
                        #[trigger] xs@[j]) as int <= 1 + (j + 1) * 0x7fff_ffff,
                    sum as int == s_signal(gxs, c as int),
                    -0x700_0000_0000_0000 <= sum as int <= 0x700_0000_0000_0000,
                decreases n - c,
            {
                let cycle = c + 1;
                if cycle == 20 || cycle == 60 || cycle == 100 || cycle == 140 || cycle == 180
                    || cycle == 220 {
                    proof {
                        assert(gxs[c as int] == xs@[c as int] as int);
                        assert((c as int + 1) * 0x7fff_ffff <= 220 * 0x7fff_ffff)
                            by (nonlinear_arith)
                            requires 0 <= c as int + 1 <= 220;
                        assert(-0x8000_0000_0000 <= gxs[c as int] <= 0x8000_0000_0000);
                        assert(-0x100_0000_0000_0000 <= (cycle as int) * gxs[c as int]
                            <= 0x100_0000_0000_0000) by (nonlinear_arith)
                            requires
                                -0x8000_0000_0000 <= gxs[c as int] <= 0x8000_0000_0000,
                                0 < cycle as int <= 220;
                    }
                    sum = sum + (cycle as i128) * xs[c];
                    proof {
                        assert forall|j: int|
                            0 <= j < gxs.len() && j < 220 implies -0x8000_0000_0000
                            <= #[trigger] gxs[j] <= 0x8000_0000_0000 by {
                            assert(gxs[j] == xs@[j] as int);
                            assert((j + 1) * 0x7fff_ffff <= 220 * 0x7fff_ffff)
                                by (nonlinear_arith)
                                requires 0 <= j + 1 <= 220;
                        }
                        lemma_signal_bound(gxs, cycle as int);
                    }
                } else {
                    proof {
                        assert(s_signal(gxs, cycle as int) == s_signal(gxs, c as int));
                    }
                }
                c = c + 1;
            }
            Some(sum as i64)
        },
    }
}

/// Probe sums stay within six bounded contributions.
proof fn lemma_signal_bound(xs: Seq<int>, n: int)
    requires
        forall|j: int|
            0 <= j < xs.len() && j < 220 ==> -0x8000_0000_0000 <= #[trigger] xs[j]
                <= 0x8000_0000_0000,
        n <= xs.len(),
    ensures
        n < 20 ==> s_signal(xs, n) == 0,
        n < 60 ==> -0x100_0000_0000_0000 <= s_signal(xs, n) <= 0x100_0000_0000_0000,
        n < 100 ==> -2 * 0x100_0000_0000_0000 <= s_signal(xs, n) <= 2 * 0x100_0000_0000_0000,
        n < 140 ==> -3 * 0x100_0000_0000_0000 <= s_signal(xs, n) <= 3 * 0x100_0000_0000_0000,
        n < 180 ==> -4 * 0x100_0000_0000_0000 <= s_signal(xs, n) <= 4 * 0x100_0000_0000_0000,
        n < 220 ==> -5 * 0x100_0000_0000_0000 <= s_signal(xs, n) <= 5 * 0x100_0000_0000_0000,
        -6 * 0x100_0000_0000_0000 <= s_signal(xs, n) <= 6 * 0x100_0000_0000_0000,
    decreases n,
{
    if n > 0 {
        lemma_signal_bound(xs, n - 1);
        if is_probe(n) {
            assert(-0x100_0000_0000_0000 <= n * xs[n - 1] <= 0x100_0000_0000_0000)
                by (nonlinear_arith)
                requires
                    -0x8000_0000_0000 <= xs[n - 1] <= 0x8000_0000_0000,
                    0 < n <= 220;
        }
    }
}

/// The rendered screen.
pub fn prob2(inp: &str) -> (r: Option<String>)
    ensures
        ({
            let lines = s_split(inp.spec_bytes(), 10);
            match s_program(lines, s_stop(lines)) {
                Some(cmds) => r is Some && r->0@ == s_render(
                    s_xs(cmds, 0, 1),
                    s_xs(cmds, 0, 1).len() as int,
                ),
                None => r is None,
            }
        }),
{
    let xs = trace(inp);
    match xs {
        None => None,
        Some(xs) => {
            proof {
                reveal_strlit("#");
                reveal_strlit(".");
                reveal_strlit("\n");
            }
            let ghost gxs = xs@.map_values(|v: i128| v as int);
            let n = xs.len();
            let mut out = String::new();
            let mut c: usize = 0;
            while c < n
                invariant
                    c <= n,
                    n == xs@.len(),
                    gxs == xs@.map_values(|v: i128| v as int),
                    forall|j: int|
                        0 <= j < xs@.len() ==> -1 - (j + 1) * 0x7fff_ffff <= (
                        #[trigger] xs@[j]) as int <= 1 + (j + 1) * 0x7fff_ffff,
                    out@ == s_render(gxs, c as int),
                    "#"@ =~= seq!['#'],
                    "."@ =~= seq!['.'],
                    "\n"@ =~= seq!['\n'],
                decreases n - c,
            {
                let cycle = c + 1;
                let col = (cycle % 40) as i128;
                proof {
                    assert(gxs[c as int] == xs@[c as int] as int);
                    assert((cycle % 40) as int == (cycle as int) % 40);
                    assert((c as int + 1) * 0x7fff_ffff <= 0x2_0000_0000_0000_0000 * 0x7fff_ffff)
                        by (nonlinear_arith)
                        requires 0 <= c as int + 1 <= 0x2_0000_0000_0000_0000;
                }
                let d = xs[c] - col + 1;
                if -1 <= d && d <= 1 {
                    out.append("#");
                } else {
                    out.append(".");
                }
                if cycle % 40 == 0 {
                    out.append("\n");
                }
                c = c + 1;
            }
            Some(out)
        },
    }
}

} // verus!
