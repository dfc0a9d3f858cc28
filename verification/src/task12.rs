//! Shortest walks over a hill grid: from the summit marker back to the
//! start marker, or back to any lowest cell, stepping only where the
//! downhill rule allows.
//!
//! The walk runs backward from the summit: a step from a cell is
//! allowed when the cell's height is at most one above its neighbour's.

use crate::text::s_split;
use crate::text::split;
use std::collections::HashSet;
use vstd::arithmetic::div_mod::lemma_fundamental_div_mod_converse;
use vstd::prelude::*;
use vstd::string::StrSliceExecFns;
use vstd::string::StringSliceAdditionalSpecFns;

verus! {

broadcast use vstd::std_specs::hash::group_hash_axioms;

/// The height a map byte stands for: the start marker is lowest, the
/// summit marker highest, letters grade in between.
pub open spec fn s_cell(b: u8) -> Option<u8> {
    if b == 83 {
        Some(0u8)
    } else if b == 69 {
        Some(25u8)
    } else if 97 <= b <= 122 {
        Some((b - 97) as u8)
    } else {
        None
    }
}

/// The heights of one row's first `m` bytes.
pub open spec fn s_row(line: Seq<u8>, m: int) -> Option<Seq<u8>>
    decreases m,
{
    if m <= 0 {
        Some(Seq::empty())
    } else {
        match (s_row(line, m - 1), s_cell(line[m - 1])) {
            (Some(hs), Some(h)) => Some(hs.push(h)),
            _ => None,
        }
    }
}

/// The height grid of the first `n` lines.
pub open spec fn s_grid(lines: Seq<Seq<u8>>, n: int) -> Option<Seq<Seq<u8>>>
    decreases n,
{
    if n <= 0 {
        Some(Seq::empty())
    } else {
        match (s_grid(lines, n - 1), s_row(lines[n - 1], lines[n - 1].len() as int)) {
            (Some(g), Some(row)) => Some(g.push(row)),
            _ => None,
        }
    }
}

/// The last position of byte `b` in one line, if any.
pub open spec fn s_mark_row(line: Seq<u8>, b: u8) -> Option<int>
    decreases line.len(),
{
    if line.len() == 0 {
        None
    } else if line.last() == b {
        Some(line.len() - 1)
    } else {
        s_mark_row(line.drop_last(), b)
    }
}

/// The last position of byte `b` in the first `n` lines, row-major.
pub open spec fn s_mark(lines: Seq<Seq<u8>>, n: int, b: u8) -> Option<(int, int)>
    decreases n,
{
    if n <= 0 {
        None
    } else {
        match s_mark_row(lines[n - 1], b) {
            Some(j) => Some((n - 1, j)),
            None => s_mark(lines, n - 1, b),
        }
    }
}

pub open spec fn s_mark_or_origin(lines: Seq<Seq<u8>>, n: int, b: u8) -> (int, int) {
    match s_mark(lines, n, b) {
        Some(p) => p,
        None => (0, 0),
    }
}

/// Whether the walk may step onto `(a, b)` from height `cur`.
pub open spec fn s_ok_move(
    g: Seq<Seq<u8>>,
    vis: Set<(int, int)>,
    cur: int,
    a: int,
    b: int,
) -> bool {
    &&& 0 <= a < g.len()
    &&& 0 <= b < g[a].len()
    &&& cur <= g[a][b] + 1
    &&& !vis.contains((a, b))
}

/// The unvisited reachable neighbours of `p`, in a fixed order.
pub open spec fn s_neigh(g: Seq<Seq<u8>>, vis: Set<(int, int)>, p: (int, int)) -> Seq<(int, int)> {
    let cur = g[p.0][p.1] as int;
    (if s_ok_move(g, vis, cur, p.0, p.1 + 1) {
        seq![(p.0, p.1 + 1)]
    } else {
        Seq::empty()
    }) + (if s_ok_move(g, vis, cur, p.0, p.1 - 1) {
        seq![(p.0, p.1 - 1)]
    } else {
        Seq::empty()
    }) + (if s_ok_move(g, vis, cur, p.0 + 1, p.1) {
        seq![(p.0 + 1, p.1)]
    } else {
        Seq::empty()
    }) + (if s_ok_move(g, vis, cur, p.0 - 1, p.1) {
        seq![(p.0 - 1, p.1)]
    } else {
        Seq::empty()
    })
}

pub open spec fn s_in_grid(g: Seq<Seq<u8>>, p: (int, int)) -> bool {
    0 <= p.0 < g.len() && 0 <= p.1 < g[p.0].len()
}

/// The breadth-first walk, fuelled: pull the head, stop when it is the
/// target, otherwise push its unvisited neighbours, marked visited as
/// they are pushed. A head outside the grid walks nowhere.
pub open spec fn s_bfs(
    g: Seq<Seq<u8>>,
    vis: Set<(int, int)>,
    queue: Seq<((int, int), int)>,
    to_start: bool,
    target: (int, int),
    fuel: nat,
) -> Option<int>
    decreases fuel,
{
    if fuel == 0 || queue.len() == 0 {
        None
    } else {
        let (p, d) = queue[0];
        let done = if to_start {
            p == target
        } else {
            s_in_grid(g, p) && g[p.0][p.1] == 0
        };
        if done {
            Some(d)
        } else {
            let ns = if s_in_grid(g, p) {
                s_neigh(g, vis, p)
            } else {
                Seq::empty()
            };
            s_bfs(
                g,
                Set::new(|q: (int, int)| vis.contains(q) || ns.contains(q)),
                queue.skip(1) + ns.map_values(|q: (int, int)| (q, d + 1)),
                to_start,
                target,
                (fuel - 1) as nat,
            )
        }
    }
}

/// Fuel that outlasts the walk: one pull per cell plus the seed.
pub open spec fn s_fuel(bs: Seq<u8>) -> nat {
    if bs.len() + 2 <= usize::MAX {
        (bs.len() + 2) as nat
    } else {
        usize::MAX as nat
    }
}

/// The whole puzzle over the raw text.
pub open spec fn s_hill(bs: Seq<u8>, to_start: bool) -> Option<int> {
    let lines = s_split(bs, 10);
    match s_grid(lines, lines.len() as int) {
        None => None,
        Some(g) => {
            let start = s_mark_or_origin(lines, lines.len() as int, 83);
            let end = s_mark_or_origin(lines, lines.len() as int, 69);
            s_bfs(g, Set::empty(), seq![(end, 0)], to_start, start, s_fuel(bs))
        },
    }
}

/// The heights as sequences.
pub open spec fn rows_view(g: Seq<Vec<u8>>) -> Seq<Seq<u8>> {
    g.map_values(|r: Vec<u8>| r@)
}

pub open spec fn s_pack(a: int, b: int) -> int {
    a * 0x1_0000_0000_0000_0000 + b
}

/// The coordinates a set of packed words stands for.
pub open spec fn vis_of(s: Set<u128>) -> Set<(int, int)> {
    Set::new(
        |q: (int, int)|
            0 <= q.0 < 0x1_0000_0000_0000_0000 && 0 <= q.1 < 0x1_0000_0000_0000_0000
                && s.contains(s_pack(q.0, q.1) as u128),
    )
}

proof fn lemma_pack_injective(a1: int, b1: int, a2: int, b2: int)
    requires
        0 <= a1 < 0x1_0000_0000_0000_0000,
        0 <= b1 < 0x1_0000_0000_0000_0000,
        0 <= a2 < 0x1_0000_0000_0000_0000,
        0 <= b2 < 0x1_0000_0000_0000_0000,
        s_pack(a1, b1) == s_pack(a2, b2),
    ensures
        a1 == a2 && b1 == b2,
{
    lemma_fundamental_div_mod_converse(s_pack(a1, b1), 0x1_0000_0000_0000_0000, a1, b1);
    lemma_fundamental_div_mod_converse(s_pack(a2, b2), 0x1_0000_0000_0000_0000, a2, b2);
}

/// The hill, its start and its summit.
pub struct HillMap {
    pub elevations: Vec<Vec<u8>>,
    pub start: (usize, usize),
    pub end: (usize, usize),
}

impl HillMap {
    /// Reads the map; every byte must be a height letter or a marker.
    /// Markers fall back to the origin where they are missing, and the
    /// later of two markers wins.
    pub fn from_string(inp: &str) -> (r: Option<HillMap>)
        ensures
            ({
                let lines = s_split(inp.spec_bytes(), 10);
                match r {
                    Some(hm) => {
                        &&& s_grid(lines, lines.len() as int) == Some(
                            rows_view(hm.elevations@),
                        )
                        &&& (hm.start.0 as int, hm.start.1 as int) == s_mark_or_origin(
                            lines,
                            lines.len() as int,
                            83,
                        )
                        &&& (hm.end.0 as int, hm.end.1 as int) == s_mark_or_origin(
                            lines,
                            lines.len() as int,
                            69,
                        )
                    },
                    None => s_grid(lines, lines.len() as int) is None,
                }
            }),
    {
        let bytes: Vec<u8> = inp.as_bytes_vec();
        let pieces = split(&bytes, 10);
        let ghost lines = s_split(bytes@, 10);
        let n = pieces.len();
        let mut grid: Vec<Vec<u8>> = Vec::new();
        let mut start: (usize, usize) = (0, 0);
        let mut end: (usize, usize) = (0, 0);
        let ghost mut gstart: Option<(int, int)> = None;
        let ghost mut gend: Option<(int, int)> = None;
        let mut i: usize = 0;
        while i < n
            invariant
                i <= n,
                n == lines.len(),
                bytes@ == inp.spec_bytes(),
                lines == s_split(bytes@, 10),
                pieces@.len() == n,
                forall|j: int|
                    0 <= j < n ==> {
                        &&& #[trigger] pieces@[j].0 <= pieces@[j].1 <= bytes@.len()
                        &&& bytes@.subrange(pieces@[j].0 as int, pieces@[j].1 as int) == lines[j]
                    },
                s_grid(lines, i as int) == Some(rows_view(grid@)),
                grid@.len() == i,
                gstart == s_mark(lines, i as int, 83),
                gend == s_mark(lines, i as int, 69),
                (start.0 as int, start.1 as int) == (match gstart {
                    Some(p) => p,
                    None => (0int, 0int),
                }),
                (end.0 as int, end.1 as int) == (match gend {
                    Some(p) => p,
                    None => (0int, 0int),
                }),
            decreases n - i,
        {
            let (lo, hi) = pieces[i];
            let ghost line = lines[i as int];
            let mut row: Vec<u8> = Vec::new();
            let mut srow: Option<usize> = None;
            let mut erow: Option<usize> = None;
            let mut j: usize = lo;
            proof {
                assert(line.len() == hi - lo);
            }
            while j < hi
                invariant
                    lo <= j <= hi <= bytes@.len(),
                    i < n,
                    n == lines.len(),
                    bytes@ == inp.spec_bytes(),
                    lines == s_split(bytes@, 10),
                    line == lines[i as int],
                    s_grid(lines, i as int) is Some,
                    line == bytes@.subrange(lo as int, hi as int),
                    s_row(line, j - lo) == Some(row@),
                    row@.len() == j - lo,
                    (match srow {
                        Some(v) => Some(v as int),
                        None => None,
                    }) == s_mark_row(line.take(j - lo), 83),
                    (match erow {
                        Some(v) => Some(v as int),
                        None => None,
                    }) == s_mark_row(line.take(j - lo), 69),
                    srow is Some ==> srow->0 < j - lo,
                    erow is Some ==> erow->0 < j - lo,
                decreases hi - j,
            {
                let b = bytes[j];
                proof {
                    assert(line[j - lo] == bytes@[j as int]);
                    assert(line.take(j - lo + 1).drop_last() =~= line.take(j - lo));
                    assert(line.take(j - lo + 1).last() == line[j - lo]);
                }
                let h: u8 = if b == 83 {
                    srow = Some(j - lo);
                    0
                } else if b == 69 {
                    erow = Some(j - lo);
                    25
                } else if 97 <= b && b <= 122 {
                    b - 97
                } else {
                    proof {
                        lemma_row_none(line, j - lo + 1, line.len() as int);
                        lemma_grid_none(lines, i as int, n as int);
                    }
                    return None;
                };
                row.push(h);
                j = j + 1;
            }
            proof {
                assert(line.take(hi - lo) =~= line);
            }
            match srow {
                Some(v) => {
                    start = (i, v);
                    proof {
                        gstart = Some((i as int, v as int));
                    }
                },
                None => {
                },
            }
            match erow {
                Some(v) => {
                    end = (i, v);
                    proof {
                        gend = Some((i as int, v as int));
                    }
                },
                None => {
                },
            }
            let ghost grid0 = grid@;
            grid.push(row);
            proof {
                assert(rows_view(grid@) =~= rows_view(grid0).push(grid@[grid@.len() - 1]@));
            }
            i = i + 1;
        }
        Some(HillMap { elevations: grid, start, end })
    }

    /// The neighbours the walk may step to from `p`, none of them
    /// already visited; order is fixed.
    pub fn neighbours_unvisited(&self, seen: &HashSet<u128>, p: (usize, usize)) -> (r: Vec<
        (usize, usize),
    >)
        requires
            s_in_grid(rows_view(self.elevations@), (p.0 as int, p.1 as int)),
        ensures
            r@.map_values(|q: (usize, usize)| (q.0 as int, q.1 as int)) == s_neigh(
                rows_view(self.elevations@),
                vis_of(seen@),
                (p.0 as int, p.1 as int),
            ),
    {
        let ghost g = rows_view(self.elevations@);
        let ghost vis = vis_of(seen@);
        let cur = self.elevations[p.0][p.1];
        proof {
            assert(g[p.0 as int] == self.elevations@[p.0 as int]@);
        }
        let mut out: Vec<(usize, usize)> = Vec::new();
        proof {
            assert((p.0 as int) < g.len());
            assert((p.1 as int) < g[p.0 as int].len());
        }
        self.try_move(seen, cur, p.0, p.1, 0, 1, &mut out);
        self.try_move(seen, cur, p.0, p.1, 0, 2, &mut out);
        self.try_move(seen, cur, p.0, p.1, 1, 0, &mut out);
        self.try_move(seen, cur, p.0, p.1, 2, 0, &mut out);
        proof {
            let m = |q: (usize, usize)| (q.0 as int, q.1 as int);
            assert(out@.map_values(m) =~= s_neigh(g, vis, (p.0 as int, p.1 as int)));
        }
        out
    }

    /// Tries one direction: `da`/`db` are 0 for no move, 1 for a step
    /// up the index, 2 for a step down.
    fn try_move(
        &self,
        seen: &HashSet<u128>,
        cur: u8,
        a: usize,
        b: usize,
        da: u8,
        db: u8,
        out: &mut Vec<(usize, usize)>,
    )
        requires
            da == 0 || da == 1 || da == 2,
            db == 0 || db == 1 || db == 2,
            (a as int) < rows_view(self.elevations@).len(),
            (b as int) < rows_view(self.elevations@)[a as int].len(),
        ensures
            ({
                let g = rows_view(self.elevations@);
                let na = a as int + (if da == 1 { 1int } else if da == 2 { -1int } else { 0int });
                let nb = b as int + (if db == 1 { 1int } else if db == 2 { -1int } else { 0int });
                if s_ok_move(g, vis_of(seen@), cur as int, na, nb) {
                    final(out)@.map_values(|q: (usize, usize)| (q.0 as int, q.1 as int)) == old(
                        out,
                    )@.map_values(|q: (usize, usize)| (q.0 as int, q.1 as int)).push((na, nb))
                } else {
                    final(out)@ == old(out)@
                }
            }),
    {
        let ghost g = rows_view(self.elevations@);
        let ghost na = a as int + (if da == 1 { 1int } else if da == 2 { -1int } else { 0int });
        let ghost nb = b as int + (if db == 1 { 1int } else if db == 2 { -1int } else { 0int });
        let rows = self.elevations.len();
        proof {
            assert(g.len() == self.elevations@.len());
        }
        if da == 2 && a == 0 {
            return ;
        }
        let xa = if da == 1 {
            a + 1
        } else if da == 2 {
            a - 1
        } else {
            a
        };
        if xa >= rows {
            return ;
        }
        proof {
            assert(g[na] == self.elevations@[na]@);
        }
        let cols = self.elevations[xa].len();
        if db == 2 && b == 0 {
            return ;
        }
        proof {
            assert(g[a as int] == self.elevations@[a as int]@);
        }
        let cols_a = self.elevations[a].len();
        let xb = if db == 1 {
            b + 1
        } else if db == 2 {
            b - 1
        } else {
            b
        };
        if xb >= cols {
            return ;
        }
        let h = self.elevations[xa][xb];
        if (cur as u32) > (h as u32) + 1 {
            return ;
        }
        let key = (xa as u128) * 0x1_0000_0000_0000_0000u128 + (xb as u128);
        proof {
            assert(key as int == s_pack(na, nb));
        }
        if seen.contains(&key) {
            proof {
                assert(vis_of(seen@).contains((na, nb)));
            }
            return ;
        }
        proof {
            assert(!vis_of(seen@).contains((na, nb)));
            assert(s_ok_move(g, vis_of(seen@), cur as int, na, nb));
        }
        let ghost out0 = out@;
        out.push((xa, xb));
        proof {
            assert(out@.map_values(|q: (usize, usize)| (q.0 as int, q.1 as int)) =~= out0
                .map_values(|q: (usize, usize)| (q.0 as int, q.1 as int)).push((na, nb)));
        }
    }
}

/// The queue as the model sees it, from the head onward.
pub open spec fn qview(q: Seq<((usize, usize), usize)>, qi: int) -> Seq<((int, int), int)> {
    q.skip(qi).map_values(|e: ((usize, usize), usize)| ((e.0.0 as int, e.0.1 as int), e.1 as int))
}

proof fn lemma_vis_insert(s: Set<u128>, a: int, b: int)
    requires
        0 <= a < 0x1_0000_0000_0000_0000,
        0 <= b < 0x1_0000_0000_0000_0000,
    ensures
        vis_of(s.insert(s_pack(a, b) as u128)) =~= vis_of(s).insert((a, b)),
{
    assert forall|q: (int, int)|
        vis_of(s.insert(s_pack(a, b) as u128)).contains(q) == vis_of(s).insert(
            (a, b),
        ).contains(q) by {
        if q == (a, b) {
        } else if 0 <= q.0 < 0x1_0000_0000_0000_0000 && 0 <= q.1 < 0x1_0000_0000_0000_0000 {
            if s_pack(q.0, q.1) == s_pack(a, b) {
                lemma_pack_injective(q.0, q.1, a, b);
            }
        }
    }
}

impl HillMap {
    /// Walks breadth-first from the summit until the wanted cell is
    /// pulled, spending one unit of fuel per pull.
    pub fn solve(&self, to_start: bool, fuel: usize) -> (r: Option<usize>)
        ensures
            ({
                let g = rows_view(self.elevations@);
                let target = (self.start.0 as int, self.start.1 as int);
                let seed = ((self.end.0 as int, self.end.1 as int), 0int);
                match r {
                    Some(v) => s_bfs(g, Set::empty(), seq![seed], to_start, target, fuel as nat)
                        == Some(v as int),
                    None => s_bfs(g, Set::empty(), seq![seed], to_start, target, fuel as nat)
                        is None,
                }
            }),
    {
        let ghost g = rows_view(self.elevations@);
        let ghost target = (self.start.0 as int, self.start.1 as int);
        let ghost seed = ((self.end.0 as int, self.end.1 as int), 0int);
        let mut queue: Vec<((usize, usize), usize)> = Vec::new();
        queue.push((self.end, 0));
        let mut qi: usize = 0;
        let mut fuel_left = fuel;
        let mut seen: HashSet<u128> = HashSet::new();
        proof {
            assert(qview(queue@, 0) =~= seq![seed]);
            assert(vis_of(seen@) =~= Set::<(int, int)>::empty());
        }
        loop
            invariant_except_break
                qi <= queue@.len(),
                fuel_left <= fuel,
                g == rows_view(self.elevations@),
                target == (self.start.0 as int, self.start.1 as int),
                seed == ((self.end.0 as int, self.end.1 as int), 0int),
                s_bfs(g, vis_of(seen@), qview(queue@, qi as int), to_start, target,
                    fuel_left as nat)
                    == s_bfs(g, Set::empty(), seq![seed], to_start, target, fuel as nat),
                forall|j: int|
                    qi <= j < queue@.len() ==> (#[trigger] queue@[j]).1 <= fuel - fuel_left,
            ensures
                s_bfs(g, Set::empty(), seq![seed], to_start, target, fuel as nat) is None,
            decreases fuel_left,
        {
            if fuel_left == 0 || qi >= queue.len() {
                proof {
                    if qi >= queue@.len() {
                        assert(qview(queue@, qi as int) =~= Seq::<((int, int), int)>::empty());
                    }
                }
                break;
            }
            let (p, d) = queue[qi];
            proof {
                assert(qview(queue@, qi as int)[0] == ((p.0 as int, p.1 as int), d as int));
            }
            let in_grid = if p.0 < self.elevations.len() {
                p.1 < self.elevations[p.0].len()
            } else {
                false
            };
            proof {
                if p.0 < self.elevations.len() {
                    assert(g[p.0 as int] == self.elevations@[p.0 as int]@);
                }
                assert(in_grid == s_in_grid(g, (p.0 as int, p.1 as int)));
            }
            let done = if to_start {
                p.0 == self.start.0 && p.1 == self.start.1
            } else {
                in_grid && self.elevations[p.0][p.1] == 0
            };
            if done {
                return Some(d);
            }
            let ns: Vec<(usize, usize)> = if in_grid {
                self.neighbours_unvisited(&seen, p)
            } else {
                Vec::new()
            };
            let ghost ns_model = ns@.map_values(|q: (usize, usize)| (q.0 as int, q.1 as int));
            proof {
                if !in_grid {
                    assert(ns_model =~= Seq::<(int, int)>::empty());
                }
            }
            let ghost vis0 = vis_of(seen@);
            let ghost queue0 = queue@;
            let m = ns.len();
            let mut b: usize = 0;
            while b < m
                invariant
                    b <= m,
                    m == ns@.len(),
                    ns_model == ns@.map_values(|q: (usize, usize)| (q.0 as int, q.1 as int)),
                    vis0 == vis_of(seen@) || true,
                    queue@ == queue0 + ns@.take(b as int).map_values(
                        |q: (usize, usize)| (q, (d + 1) as usize),
                    ),
                    vis_of(seen@) =~= Set::new(
                        |q: (int, int)|
                            vis0.contains(q) || ns_model.take(b as int).contains(q),
                    ),
                    d <= fuel - fuel_left,
                    fuel_left >= 1,
                    fuel_left <= fuel,
                decreases m - b,
            {
                let q = ns[b];
                proof {
                    assert(ns_model[b as int] == (q.0 as int, q.1 as int));
                }
                let key = (q.0 as u128) * 0x1_0000_0000_0000_0000u128 + (q.1 as u128);
                let ghost seen0 = seen@;
                let ghost qb = queue@;
                queue.push((q, d + 1));
                seen.insert(key);
                proof {
                    assert(key as int == s_pack(q.0 as int, q.1 as int));
                    lemma_vis_insert(seen0, q.0 as int, q.1 as int);
                    assert(ns@.take(b + 1) =~= ns@.take(b as int).push(q));
                    assert(queue@ =~= queue0 + ns@.take(b + 1).map_values(
                        |q2: (usize, usize)| (q2, (d + 1) as usize),
                    ));
                    assert forall|q2: (int, int)|
                        vis_of(seen@).contains(q2) == Set::new(
                            |q3: (int, int)|
                                vis0.contains(q3) || ns_model.take(b + 1).contains(q3),
                        ).contains(q2) by {
                        assert(ns_model.take(b + 1) =~= ns_model.take(b as int).push(
                            (q.0 as int, q.1 as int),
                        ));
                        if q2 == (q.0 as int, q.1 as int) {
                            assert(ns_model.take(b + 1).contains(q2)) by {
                                assert(ns_model.take(b + 1).last() == q2);
                            }
                        }
                    }
                    assert(vis_of(seen@) =~= Set::new(
                        |q2: (int, int)|
                            vis0.contains(q2) || ns_model.take(b + 1).contains(q2),
                    ));
                }
                b = b + 1;
            }
            proof {
                assert(ns@.take(m as int) =~= ns@);
                assert(ns_model.take(m as int) =~= ns_model);
            }
            qi = qi + 1;
            fuel_left = fuel_left - 1;
            proof {
                let old_q = qview(queue0, qi - 1);
                let head = ((p.0 as int, p.1 as int), d as int);
                assert(old_q[0] == head);
                let spec_ns = if s_in_grid(g, (p.0 as int, p.1 as int)) {
                    s_neigh(g, vis0, (p.0 as int, p.1 as int))
                } else {
                    Seq::<(int, int)>::empty()
                };
                assert(spec_ns == ns_model);
                assert(qview(queue@, qi as int) =~= old_q.skip(1) + spec_ns.map_values(
                    |q2: (int, int)| (q2, d as int + 1),
                ));
                assert(vis_of(seen@) =~= Set::new(
                    |q2: (int, int)| vis0.contains(q2) || spec_ns.contains(q2),
                ));
                assert(s_bfs(g, vis0, old_q, to_start, target, (fuel_left + 1) as nat) == s_bfs(
                    g,
                    vis_of(seen@),
                    qview(queue@, qi as int),
                    to_start,
                    target,
                    fuel_left as nat,
                ));
            }
        }
        None
    }
}

/// Fewest steps from the summit marker back to the start marker.
pub fn prob1(inp: &str) -> (r: Option<usize>)
    ensures
        match r {
            Some(v) => s_hill(inp.spec_bytes(), true) == Some(v as int),
            None => s_hill(inp.spec_bytes(), true) is None,
        },
{
    hill_walk(inp, true)
}

/// Fewest steps from the summit marker back to any lowest cell.
pub fn prob2(inp: &str) -> (r: Option<usize>)
    ensures
        match r {
            Some(v) => s_hill(inp.spec_bytes(), false) == Some(v as int),
            None => s_hill(inp.spec_bytes(), false) is None,
        },
{
    hill_walk(inp, false)
}

fn hill_walk(inp: &str, to_start: bool) -> (r: Option<usize>)
    ensures
        match r {
            Some(v) => s_hill(inp.spec_bytes(), to_start) == Some(v as int),
            None => s_hill(inp.spec_bytes(), to_start) is None,
        },
{
    let bytes: Vec<u8> = inp.as_bytes_vec();
    let bl = bytes.len();
    let fuel = if bl <= usize::MAX - 2 {
        bl + 2
    } else {
        usize::MAX
    };
    proof {
        assert(fuel as nat == s_fuel(inp.spec_bytes()));
    }
    match HillMap::from_string(inp) {
        None => None,
        Some(map) => map.solve(to_start, fuel),
    }
}

proof fn lemma_row_none(line: Seq<u8>, k: int, m: int)
    requires
        0 < k <= m <= line.len(),
        s_row(line, k) is None,
    ensures
        s_row(line, m) is None,
    decreases m - k,
{
    if k < m {
        lemma_row_none(line, k + 1, m);
    }
}

proof fn lemma_grid_none(lines: Seq<Seq<u8>>, k: int, n: int)
    requires
        0 <= k < n,
        s_grid(lines, k + 1) is None,
    ensures
        s_grid(lines, n) is None,
    decreases n - k,
{
    if k + 1 < n {
        lemma_grid_none(lines, k + 1, n);
    }
}

} // verus!
