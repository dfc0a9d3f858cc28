//! A bounded-horizon production scheduler.
//!
//! A catalog lists four unit kinds; a unit of kind `k` produces one unit of
//! resource `k` per time step, and building it costs a fixed amount of each
//! resource. Starting from one unit of baseline production of resource 0,
//! the engine explores every way of building at most one unit per step over
//! a fixed horizon, and reports the largest reachable balance of the output
//! resource (kind 3).
//!
//! The search keeps a frontier of states, one set per time step. Each step
//! every state branches (build one affordable, eligible, non-capped kind, or
//! build nothing), every branch is advanced one tick (production is paid
//! out, clipped to what the remaining horizon can spend), and the frontier
//! is deduplicated on (production rates, balances).

use std::collections::HashSet;
use vstd::arithmetic::div_mod::lemma_fundamental_div_mod_converse;
use vstd::prelude::*;

verus! {

broadcast use vstd::std_specs::hash::group_hash_axioms;

/// Costs above this bound are beyond the engine's capacity.
pub const MAX_COST: i64 = 4000;

/// Horizons above this bound are beyond the engine's capacity.
pub const MAX_STEPS: usize = 40;

/// The static rules of a problem: `costs[k][r]` is what one unit of kind
/// `k` costs in resource `r`.
pub struct Catalog {
    pub costs: [[i64; 4]; 4],
}

/// Whether a state still needs this step's decision, or already carries
/// one and waits for the tick.
#[derive(Clone, Copy)]
pub enum Phase {
    NeedsDecision,
    AwaitingTick,
}

/// One point of the search space.
#[derive(Clone, Copy)]
pub struct State {
    /// Units of each resource produced per step by active units.
    pub rates: [i64; 4],
    /// Resources banked.
    pub bal: [i64; 4],
    /// The unit kind queued to become active at the next tick, if any.
    pub queued: Option<usize>,
    /// Bitmask over unit kinds still allowed at the current decision point.
    pub eligible: u8,
    pub phase: Phase,
}

/// The mathematical image of a state.
#[verifier::ext_equal]
pub ghost struct GState {
    pub rates: Seq<int>,
    pub bal: Seq<int>,
    pub queued: Option<int>,
    pub eligible: u8,
    pub deciding: bool,
}

impl View for Catalog {
    type V = Seq<Seq<int>>;

    open spec fn view(&self) -> Seq<Seq<int>> {
        Seq::new(4, |k: int| Seq::new(4, |r: int| self.costs@[k]@[r] as int))
    }
}

impl View for State {
    type V = GState;

    open spec fn view(&self) -> GState {
        GState {
            rates: Seq::new(4, |r: int| self.rates@[r] as int),
            bal: Seq::new(4, |r: int| self.bal@[r] as int),
            queued: match self.queued {
                Some(k) => Some(k as int),
                None => None,
            },
            eligible: self.eligible,
            deciding: self.phase is NeedsDecision,
        }
    }
}

/// A usable catalog: a four-by-four cost matrix of bounded, non-negative
/// entries.
pub open spec fn cat_wf(c: Seq<Seq<int>>) -> bool {
    &&& c.len() == 4
    &&& forall|k: int| 0 <= k < 4 ==> (#[trigger] c[k]).len() == 4
    &&& forall|k: int, r: int| 0 <= k < 4 && 0 <= r < 4 ==> 0 <= #[trigger] c[k][r] <= MAX_COST
}

pub open spec fn s_max2(a: int, b: int) -> int {
    if a >= b {
        a
    } else {
        b
    }
}

pub open spec fn s_min2(a: int, b: int) -> int {
    if a <= b {
        a
    } else {
        b
    }
}

/// The most of resource `r` any single build can spend: producing more of
/// an intermediate resource per step than that is never useful.
pub open spec fn s_caps(c: Seq<Seq<int>>) -> Seq<int> {
    Seq::new(4, |r: int| s_max2(s_max2(c[0][r], c[1][r]), s_max2(c[2][r], c[3][r])))
}

/// Whether unit kind `k` is still eligible by the mask.
pub open spec fn s_bit(mask: u8, k: int) -> bool {
    mask & (1u8 << (k as u8)) != 0
}

/// Whether the balances cover kind `k`'s recipe.
pub open spec fn s_affordable(c: Seq<Seq<int>>, s: GState, k: int) -> bool {
    forall|r: int| 0 <= r < 4 ==> s.bal[r] >= #[trigger] c[k][r]
}

/// The branch generator's gate for kind `k`: eligible, not yet at the
/// production cap (the output kind is never capped), and affordable.
pub open spec fn s_buildable(c: Seq<Seq<int>>, caps: Seq<int>, s: GState, k: int) -> bool {
    &&& s_bit(s.eligible, k)
    &&& (k == 3 || s.rates[k] < caps[k])
    &&& s_affordable(c, s, k)
}

/// The state that queues a build of kind `k`: the recipe is paid at once,
/// the kind's own eligibility bit is cleared, and the tick is awaited.
pub open spec fn s_build(c: Seq<Seq<int>>, s: GState, k: int) -> GState {
    GState {
        rates: s.rates,
        bal: Seq::new(4, |r: int| s.bal[r] - c[k][r]),
        queued: Some(k),
        eligible: s.eligible & !(1u8 << (k as u8)),
        deciding: false,
    }
}

/// The state that builds nothing this step; kinds attempted by sibling
/// branches are struck from its eligibility.
pub open spec fn s_idle(s: GState, attempted: u8) -> GState {
    GState {
        rates: s.rates,
        bal: s.bal,
        queued: None,
        eligible: s.eligible & !attempted,
        deciding: false,
    }
}

/// The build branches for kinds `k..4`, then the do-nothing branch.
pub open spec fn s_branch_from(
    c: Seq<Seq<int>>,
    caps: Seq<int>,
    s: GState,
    k: int,
    attempted: u8,
) -> Seq<GState>
    decreases 4 - k,
{
    if k >= 4 {
        seq![s_idle(s, attempted)]
    } else if s_buildable(c, caps, s, k) {
        seq![s_build(c, s, k)] + s_branch_from(c, caps, s, k + 1, attempted | (1u8 << (k as u8)))
    } else {
        s_branch_from(c, caps, s, k + 1, attempted)
    }
}

/// All decisions open to a state: on the last step only doing nothing (a
/// unit built then could never produce), otherwise one build branch per
/// buildable kind plus the do-nothing branch.
pub open spec fn s_branch(c: Seq<Seq<int>>, caps: Seq<int>, s: GState, last: bool) -> Seq<GState> {
    if last {
        seq![s_idle(s, 0)]
    } else {
        s_branch_from(c, caps, s, 0, 0)
    }
}

/// One tick: production is added to the balances, intermediate resources
/// are clipped to what the remaining steps can spend, and a queued unit
/// becomes active, producing from the next step onward.
pub open spec fn s_tick(caps: Seq<int>, s: GState, remaining: int) -> GState {
    GState {
        rates: match s.queued {
            Some(k) => s.rates.update(k, s.rates[k] + 1),
            None => s.rates,
        },
        bal: Seq::new(
            4,
            |r: int|
                if r == 3 {
                    s.bal[3] + s.rates[3]
                } else {
                    s_min2(s.bal[r] + s.rates[r], caps[r] * remaining)
                },
        ),
        queued: None,
        eligible: s.eligible,
        deciding: true,
    }
}

/// The frontier normalization before deduplication: the eligibility mask
/// is an artifact of the step just finished and carries nothing forward.
pub open spec fn s_norm(s: GState) -> GState {
    GState { eligible: 0xf, ..s }
}

/// A state's full yield for one step: branch, tick, normalize.
pub open spec fn s_ticked_branches(
    c: Seq<Seq<int>>,
    caps: Seq<int>,
    s: GState,
    last: bool,
    remaining: int,
) -> Seq<GState> {
    s_branch(c, caps, s, last).map_values(|b: GState| s_norm(s_tick(caps, b, remaining)))
}

/// One full step of the whole frontier, before deduplication.
pub open spec fn s_expand(
    c: Seq<Seq<int>>,
    caps: Seq<int>,
    f: Seq<GState>,
    last: bool,
    remaining: int,
) -> Seq<GState>
    decreases f.len(),
{
    if f.len() == 0 {
        Seq::empty()
    } else {
        s_expand(c, caps, f.drop_last(), last, remaining) + s_ticked_branches(
            c,
            caps,
            f.last(),
            last,
            remaining,
        )
    }
}

/// Whether some state of `f` has the same rates and balances as `x`.
pub open spec fn s_has_core(f: Seq<GState>, x: GState) -> bool {
    exists|j: int| 0 <= j < f.len() && (#[trigger] f[j]).rates == x.rates && f[j].bal == x.bal
}

/// Keeps the first state of each (rates, balances) class, in order.
pub open spec fn s_dedup(f: Seq<GState>) -> Seq<GState>
    decreases f.len(),
{
    if f.len() == 0 {
        Seq::empty()
    } else if s_has_core(f.drop_last(), f.last()) {
        s_dedup(f.drop_last())
    } else {
        s_dedup(f.drop_last()).push(f.last())
    }
}

/// The single seed state: one unit of baseline production of resource 0.
pub open spec fn s_init() -> GState {
    GState {
        rates: seq![1, 0, 0, 0],
        bal: seq![0, 0, 0, 0],
        queued: None,
        eligible: 0xf,
        deciding: true,
    }
}

/// The frontier after `t` of `steps` time steps.
pub open spec fn s_frontier(c: Seq<Seq<int>>, steps: int, t: int) -> Seq<GState>
    decreases t,
{
    if t <= 0 {
        seq![s_init()]
    } else {
        s_dedup(
            s_expand(c, s_caps(c), s_frontier(c, steps, t - 1), t == steps, steps - t),
        )
    }
}

/// The largest banked amount of the output resource over a frontier.
pub open spec fn s_max_geodes(f: Seq<GState>) -> int
    decreases f.len(),
{
    if f.len() == 0 {
        0
    } else {
        s_max2(s_max_geodes(f.drop_last()), f.last().bal[3])
    }
}

/// What the whole search returns for a catalog and a horizon.
pub open spec fn s_run(c: Seq<Seq<int>>, steps: int) -> int {
    s_max_geodes(s_frontier(c, steps, steps))
}

pub open spec fn caps_ok(caps: Seq<int>) -> bool {
    caps.len() == 4 && forall|r: int| 0 <= r < 4 ==> 0 <= #[trigger] caps[r] <= MAX_COST
}

/// What holds of every frontier state after `t` of `steps` ticks: the
/// fields are normalized, balances are non-negative and clipped, and
/// production rates of intermediate resources respect the caps.
pub open spec fn gwf(s: GState, caps: Seq<int>, steps: int, t: int) -> bool {
    &&& s.rates.len() == 4
    &&& s.bal.len() == 4
    &&& s.queued is None
    &&& s.deciding
    &&& s.eligible == 0xf
    &&& forall|r: int| 0 <= r < 4 ==> 0 <= #[trigger] s.rates[r]
    &&& forall|r: int| 0 <= r < 4 ==> 0 <= #[trigger] s.bal[r]
    &&& forall|r: int| 1 <= r < 3 ==> #[trigger] s.rates[r] <= caps[r]
    &&& s.rates[0] <= s_max2(caps[0], 1)
    &&& s.rates[3] <= t
    &&& forall|r: int| 0 <= r < 3 ==> #[trigger] s.bal[r] <= caps[r] * (steps - t)
    &&& s.bal[3] <= t * steps
}

/// What holds of every branch the generator makes of a frontier state
/// `s`, before the tick.
pub open spec fn s_branch_wf(b: GState, s: GState, caps: Seq<int>) -> bool {
    &&& b.rates == s.rates
    &&& b.bal.len() == 4
    &&& !b.deciding
    &&& forall|r: int| 0 <= r < 4 ==> 0 <= #[trigger] b.bal[r] <= s.bal[r]
    &&& match b.queued {
        Some(k) => 0 <= k < 4 && (k != 3 ==> s.rates[k] < caps[k]),
        None => true,
    }
}

/// The caps a usable catalog derives are themselves bounded.
pub proof fn lemma_caps_ok(c: Seq<Seq<int>>)
    requires
        cat_wf(c),
    ensures
        caps_ok(s_caps(c)),
{
}

/// Every branch pays its recipe out of what it has: balances never go
/// negative, and a queued kind was under its cap.
pub proof fn lemma_branch_from_wf(
    c: Seq<Seq<int>>,
    caps: Seq<int>,
    s: GState,
    k: int,
    attempted: u8,
)
    requires
        cat_wf(c),
        s.rates.len() == 4,
        s.bal.len() == 4,
        forall|r: int| 0 <= r < 4 ==> 0 <= #[trigger] s.bal[r],
        0 <= k <= 4,
    ensures
        forall|j: int|
            0 <= j < s_branch_from(c, caps, s, k, attempted).len() ==> s_branch_wf(
                #[trigger] s_branch_from(c, caps, s, k, attempted)[j],
                s,
                caps,
            ),
    decreases 4 - k,
{
    if k >= 4 {
        assert(s_branch_wf(s_idle(s, attempted), s, caps));
        let whole = s_branch_from(c, caps, s, k, attempted);
        assert(whole == seq![s_idle(s, attempted)]);
        assert forall|j: int| 0 <= j < whole.len() implies s_branch_wf(whole[j], s, caps) by {
            assert(whole[j] == s_idle(s, attempted));
        }
    } else if s_buildable(c, caps, s, k) {
        let att2 = attempted | (1u8 << (k as u8));
        lemma_branch_from_wf(c, caps, s, k + 1, att2);
        assert(s_branch_wf(s_build(c, s, k), s, caps));
        let whole = s_branch_from(c, caps, s, k, attempted);
        let rest = s_branch_from(c, caps, s, k + 1, att2);
        assert forall|j: int| 0 <= j < whole.len() implies s_branch_wf(whole[j], s, caps) by {
            if j == 0 {
                assert(whole[0] == s_build(c, s, k));
            } else {
                assert(whole[j] == rest[j - 1]);
            }
        }
    } else {
        lemma_branch_from_wf(c, caps, s, k + 1, attempted);
        assert(s_branch_from(c, caps, s, k, attempted) == s_branch_from(c, caps, s, k + 1, attempted));
    }
}

/// As the one before, over the whole branch set of a step.
pub proof fn lemma_branch_wf(c: Seq<Seq<int>>, caps: Seq<int>, s: GState, last: bool)
    requires
        cat_wf(c),
        s.rates.len() == 4,
        s.bal.len() == 4,
        forall|r: int| 0 <= r < 4 ==> 0 <= #[trigger] s.bal[r],
    ensures
        forall|j: int|
            0 <= j < s_branch(c, caps, s, last).len() ==> s_branch_wf(
                #[trigger] s_branch(c, caps, s, last)[j],
                s,
                caps,
            ),
{
    if last {
        assert(s_branch_wf(s_idle(s, 0), s, caps));
    } else {
        lemma_branch_from_wf(c, caps, s, 0, 0);
    }
}

/// The branch generator always yields at least the do-nothing branch.
pub proof fn lemma_branch_nonempty(c: Seq<Seq<int>>, caps: Seq<int>, s: GState, last: bool)
    ensures
        s_branch(c, caps, s, last).len() >= 1,
{
    lemma_branch_from_len(c, caps, s, 0, 0);
}

proof fn lemma_branch_from_len(c: Seq<Seq<int>>, caps: Seq<int>, s: GState, k: int, attempted: u8)
    ensures
        s_branch_from(c, caps, s, k, attempted).len() >= 1,
    decreases 4 - k,
{
    if k < 4 {
        if s_buildable(c, caps, s, k) {
            lemma_branch_from_len(c, caps, s, k + 1, attempted | (1u8 << (k as u8)));
        } else {
            lemma_branch_from_len(c, caps, s, k + 1, attempted);
        }
    }
}

/// A tick of a well-formed branch lands in a well-formed frontier state
/// of the next step.
pub proof fn lemma_tick_wf(b: GState, s: GState, caps: Seq<int>, steps: int, t: int)
    requires
        caps_ok(caps),
        gwf(s, caps, steps, t),
        s_branch_wf(b, s, caps),
        0 <= t < steps,
    ensures
        gwf(s_norm(s_tick(caps, b, steps - t - 1)), caps, steps, t + 1),
{
    let n = s_norm(s_tick(caps, b, steps - t - 1));
    assert forall|r: int| 0 <= r < 4 implies 0 <= #[trigger] n.bal[r] by {
        if r < 3 {
            assert(caps[r] * (steps - t - 1) >= 0) by (nonlinear_arith)
                requires caps[r] >= 0, steps - t - 1 >= 0;
        }
    }
    assert forall|r: int| 0 <= r < 3 implies #[trigger] n.bal[r] <= caps[r] * (steps - (t + 1)) by {
    }
    assert(n.bal[3] <= (t + 1) * steps) by (nonlinear_arith)
        requires
            n.bal[3] <= s.bal[3] + s.rates[3],
            s.bal[3] <= t * steps,
            s.rates[3] <= t,
            t < steps;
    match b.queued {
        Some(k) => {
            assert(n.rates == s.rates.update(k, s.rates[k] + 1));
        },
        None => {},
    }
}

/// The mathematical image of a vector of states.
pub open spec fn views(v: Seq<State>) -> Seq<GState> {
    v.map_values(|x: State| x@)
}

/// The image of an exec caps table.
pub open spec fn caps_view(a: [i64; 4]) -> Seq<int> {
    Seq::new(4, |r: int| a@[r] as int)
}

/// Looks the catalog over once for the per-resource maximum spend.
pub fn derive_caps(cat: &Catalog) -> (r: [i64; 4])
    requires
        cat_wf(cat@),
    ensures
        caps_view(r) == s_caps(cat@),
{
    let mut caps = [0i64; 4];
    let mut r: usize = 0;
    while r < 4
        invariant
            r <= 4,
            cat_wf(cat@),
            forall|i: int| 0 <= i < r ==> caps@[i] as int == s_caps(cat@)[i],
        decreases 4 - r,
    {
        let mut m = cat.costs[0][r];
        if cat.costs[1][r] > m {
            m = cat.costs[1][r];
        }
        if cat.costs[2][r] > m {
            m = cat.costs[2][r];
        }
        if cat.costs[3][r] > m {
            m = cat.costs[3][r];
        }
        caps[r] = m;
        r = r + 1;
    }
    proof {
        assert(caps_view(caps) =~= s_caps(cat@));
    }
    caps
}

/// Whether the balances cover kind `k`'s recipe.
fn affordable(cat: &Catalog, s: &State, k: usize) -> (r: bool)
    requires
        k < 4,
    ensures
        r == s_affordable(cat@, s@, k as int),
{
    proof {
        assert(s@.bal[0] == s.bal@[0] as int);
        assert(s@.bal[1] == s.bal@[1] as int);
        assert(s@.bal[2] == s.bal@[2] as int);
        assert(s@.bal[3] == s.bal@[3] as int);
        assert(cat@[k as int][0] == cat.costs@[k as int]@[0] as int);
        assert(cat@[k as int][1] == cat.costs@[k as int]@[1] as int);
        assert(cat@[k as int][2] == cat.costs@[k as int]@[2] as int);
        assert(cat@[k as int][3] == cat.costs@[k as int]@[3] as int);
    }
    let ok = s.bal[0] >= cat.costs[k][0] && s.bal[1] >= cat.costs[k][1] && s.bal[2]
        >= cat.costs[k][2] && s.bal[3] >= cat.costs[k][3];
    proof {
        if ok {
            assert forall|r: int| 0 <= r < 4 implies s@.bal[r] >= #[trigger] cat@[k as int][r] by {
                assert(s@.bal[r] == s.bal@[r] as int);
                assert(cat@[k as int][r] == cat.costs@[k as int]@[r] as int);
            }
        }
    }
    ok
}

/// The branch generator: every way the state may spend this step.
pub fn branch(cat: &Catalog, caps: &[i64; 4], s: &State, last: bool) -> (r: Vec<State>)
    requires
        cat_wf(cat@),
        caps_view(*caps) == s_caps(cat@),
        forall|r: int| 0 <= r < 4 ==> 0 <= #[trigger] s@.bal[r] <= 200000,
    ensures
        views(r@) == s_branch(cat@, caps_view(*caps), s@, last),
{
    let ghost c = cat@;
    let ghost gcaps = caps_view(*caps);
    let mut out: Vec<State> = Vec::new();
    if last {
        out.push(
            State {
                rates: s.rates,
                bal: s.bal,
                queued: None,
                eligible: s.eligible & !0u8,
                phase: Phase::AwaitingTick,
            },
        );
        proof {
            assert(out@[0]@ == s_idle(s@, 0));
            assert(views(out@) =~= s_branch(c, gcaps, s@, true));
        }
        return out;
    }
    let mut attempted: u8 = 0;
    let mut k: usize = 0;
    while k < 4
        invariant
            k <= 4,
            cat_wf(c),
            c == cat@,
            gcaps == caps_view(*caps),
            gcaps == s_caps(c),
            forall|r: int| 0 <= r < 4 ==> 0 <= #[trigger] s@.bal[r] <= 200000,
            s_branch_from(c, gcaps, s@, 0, 0) =~= views(out@) + s_branch_from(
                c,
                gcaps,
                s@,
                k as int,
                attempted,
            ),
        decreases 4 - k,
    {
        let eligible_bit = s.eligible & (1u8 << k) != 0;
        let under_cap = k == 3 || s.rates[k] < caps[k];
        let afford = affordable(cat, s, k);
        proof {
            assert((1u8 << k) == (1u8 << (k as u8)));
            assert(s@.rates[k as int] == s.rates@[k as int] as int);
            assert(gcaps[k as int] == caps@[k as int] as int);
        }
        proof {
            assert(s@.bal[0] == s.bal@[0] as int);
            assert(s@.bal[1] == s.bal@[1] as int);
            assert(s@.bal[2] == s.bal@[2] as int);
            assert(s@.bal[3] == s.bal@[3] as int);
            assert(c[k as int][0] == cat.costs@[k as int]@[0] as int);
            assert(c[k as int][1] == cat.costs@[k as int]@[1] as int);
            assert(c[k as int][2] == cat.costs@[k as int]@[2] as int);
            assert(c[k as int][3] == cat.costs@[k as int]@[3] as int);
            assert(0 <= c[k as int][0] <= MAX_COST);
            assert(0 <= c[k as int][1] <= MAX_COST);
            assert(0 <= c[k as int][2] <= MAX_COST);
            assert(0 <= c[k as int][3] <= MAX_COST);
        }
        if eligible_bit && under_cap && afford {
            assert(s_buildable(c, gcaps, s@, k as int));
            let nb = [
                s.bal[0] - cat.costs[k][0],
                s.bal[1] - cat.costs[k][1],
                s.bal[2] - cat.costs[k][2],
                s.bal[3] - cat.costs[k][3],
            ];
            let ns = State {
                rates: s.rates,
                bal: nb,
                queued: Some(k),
                eligible: s.eligible & !(1u8 << k),
                phase: Phase::AwaitingTick,
            };
            let ghost out0 = out@;
            out.push(ns);
            proof {
                assert(ns@.bal =~= s_build(c, s@, k as int).bal);
                assert(ns@ == s_build(c, s@, k as int));
                assert(views(out@) =~= views(out0).push(ns@));
                assert(s_branch_from(c, gcaps, s@, k as int, attempted) == seq![
                    s_build(c, s@, k as int),
                ] + s_branch_from(c, gcaps, s@, k + 1, attempted | (1u8 << (k as u8))));
                assert(views(out0).push(ns@) + s_branch_from(
                    c,
                    gcaps,
                    s@,
                    k + 1,
                    attempted | (1u8 << (k as u8)),
                ) =~= views(out0) + s_branch_from(c, gcaps, s@, k as int, attempted));
            }
            attempted = attempted | (1u8 << k);
        } else {
            proof {
                assert(!s_buildable(c, gcaps, s@, k as int));
                assert(s_branch_from(c, gcaps, s@, k as int, attempted) == s_branch_from(
                    c,
                    gcaps,
                    s@,
                    k + 1,
                    attempted,
                ));
            }
        }
        k = k + 1;
    }
    let idle = State {
        rates: s.rates,
        bal: s.bal,
        queued: None,
        eligible: s.eligible & !attempted,
        phase: Phase::AwaitingTick,
    };
    let ghost out0 = out@;
    out.push(idle);
    proof {
        assert(idle@ == s_idle(s@, attempted));
        assert(s_branch_from(c, gcaps, s@, 4, attempted) == seq![s_idle(s@, attempted)]);
        assert(views(out@) =~= views(out0).push(idle@));
        assert(views(out@) =~= s_branch_from(c, gcaps, s@, 0, 0));
    }
    out
}

/// Bounds under which a state packs injectively into one machine word.
pub open spec fn key_bounds(s: GState) -> bool {
    &&& s.rates.len() == 4
    &&& s.bal.len() == 4
    &&& forall|r: int| 0 <= r < 4 ==> 0 <= #[trigger] s.rates[r]
    &&& forall|r: int| 0 <= r < 4 ==> 0 <= #[trigger] s.bal[r]
    &&& s.rates[0] < 4096
    &&& s.rates[1] < 4096
    &&& s.rates[2] < 4096
    &&& s.rates[3] < 64
    &&& s.bal[0] < 262144
    &&& s.bal[1] < 262144
    &&& s.bal[2] < 262144
    &&& s.bal[3] < 2048
}

/// The packed form of a state's rates and balances.
pub open spec fn s_key(s: GState) -> int {
    ((((((s.rates[0] * 4096 + s.rates[1]) * 4096 + s.rates[2]) * 64 + s.rates[3]) * 262144
        + s.bal[0]) * 262144 + s.bal[1]) * 262144 + s.bal[2]) * 2048 + s.bal[3]
}

/// Unpacking one packed level: quotient and remainder are determined.
proof fn lemma_unpack(x: int, q: int, m: int, r: int)
    requires
        m > 0,
        x == q * m + r,
        0 <= r < m,
        0 <= q,
    ensures
        q == x / m,
        r == x % m,
{
    lemma_fundamental_div_mod_converse(x, m, q, r);
}

/// Two states under the packing bounds with one key share rates and
/// balances.
proof fn lemma_key_injective(a: GState, b: GState)
    requires
        key_bounds(a),
        key_bounds(b),
        s_key(a) == s_key(b),
    ensures
        a.rates == b.rates,
        a.bal == b.bal,
{
    let a6 = ((((a.rates[0] * 4096 + a.rates[1]) * 4096 + a.rates[2]) * 64 + a.rates[3]) * 262144
        + a.bal[0]) * 262144 + a.bal[1];
    let a5 = (((a.rates[0] * 4096 + a.rates[1]) * 4096 + a.rates[2]) * 64 + a.rates[3]) * 262144
        + a.bal[0];
    let a4 = ((a.rates[0] * 4096 + a.rates[1]) * 4096 + a.rates[2]) * 64 + a.rates[3];
    let a3 = (a.rates[0] * 4096 + a.rates[1]) * 4096 + a.rates[2];
    let a2 = a.rates[0] * 4096 + a.rates[1];
    let b6 = ((((b.rates[0] * 4096 + b.rates[1]) * 4096 + b.rates[2]) * 64 + b.rates[3]) * 262144
        + b.bal[0]) * 262144 + b.bal[1];
    let b5 = (((b.rates[0] * 4096 + b.rates[1]) * 4096 + b.rates[2]) * 64 + b.rates[3]) * 262144
        + b.bal[0];
    let b4 = ((b.rates[0] * 4096 + b.rates[1]) * 4096 + b.rates[2]) * 64 + b.rates[3];
    let b3 = (b.rates[0] * 4096 + b.rates[1]) * 4096 + b.rates[2];
    let b2 = b.rates[0] * 4096 + b.rates[1];
    lemma_unpack(s_key(a), a6 * 262144 + a.bal[2], 2048, a.bal[3]);
    lemma_unpack(s_key(b), b6 * 262144 + b.bal[2], 2048, b.bal[3]);
    lemma_unpack(a6 * 262144 + a.bal[2], a6, 262144, a.bal[2]);
    lemma_unpack(b6 * 262144 + b.bal[2], b6, 262144, b.bal[2]);
    lemma_unpack(a6, a5, 262144, a.bal[1]);
    lemma_unpack(b6, b5, 262144, b.bal[1]);
    lemma_unpack(a5, a4, 262144, a.bal[0]);
    lemma_unpack(b5, b4, 262144, b.bal[0]);
    lemma_unpack(a4, a3, 64, a.rates[3]);
    lemma_unpack(b4, b3, 64, b.rates[3]);
    lemma_unpack(a3, a2, 4096, a.rates[2]);
    lemma_unpack(b3, b2, 4096, b.rates[2]);
    lemma_unpack(a2, a.rates[0], 4096, a.rates[1]);
    lemma_unpack(b2, b.rates[0], 4096, b.rates[1]);
    assert(a.rates =~= b.rates);
    assert(a.bal =~= b.bal);
}

/// Packs a state's rates and balances into one machine word.
fn key(s: &State) -> (r: u128)
    requires
        key_bounds(s@),
    ensures
        r as int == s_key(s@),
{
    proof {
        assert(s@.rates[0] == s.rates@[0] as int);
        assert(s@.rates[1] == s.rates@[1] as int);
        assert(s@.rates[2] == s.rates@[2] as int);
        assert(s@.rates[3] == s.rates@[3] as int);
        assert(s@.bal[0] == s.bal@[0] as int);
        assert(s@.bal[1] == s.bal@[1] as int);
        assert(s@.bal[2] == s.bal@[2] as int);
        assert(s@.bal[3] == s.bal@[3] as int);
    }
    let k = ((((((s.rates[0] as u128 * 4096 + s.rates[1] as u128) * 4096 + s.rates[2] as u128)
        * 64 + s.rates[3] as u128) * 262144 + s.bal[0] as u128) * 262144 + s.bal[1] as u128)
        * 262144 + s.bal[2] as u128) * 2048 + s.bal[3] as u128;
    k
}

/// Deduplication keeps only cores already present, so membership of a
/// core is unchanged.
proof fn lemma_dedup_cores(f: Seq<GState>, x: GState)
    ensures
        s_has_core(s_dedup(f), x) == s_has_core(f, x),
    decreases f.len(),
{
    if f.len() > 0 {
        lemma_dedup_cores(f.drop_last(), x);
        lemma_dedup_cores(f.drop_last(), f.last());
        if s_has_core(f.drop_last(), f.last()) {
            if s_has_core(f, x) && !s_has_core(f.drop_last(), x) {
                let j = choose|j: int|
                    0 <= j < f.len() && (#[trigger] f[j]).rates == x.rates && f[j].bal == x.bal;
                if j < f.len() - 1 {
                    assert(f.drop_last()[j] == f[j]);
                    assert(false);
                }
                assert(j == f.len() - 1);
                let i = choose|i: int|
                    0 <= i < f.drop_last().len() && (#[trigger] f.drop_last()[i]).rates
                        == f.last().rates && f.drop_last()[i].bal == f.last().bal;
                assert(f[i].rates == x.rates && f[i].bal == x.bal);
            }
        } else {
            let d = s_dedup(f.drop_last()).push(f.last());
            if s_has_core(f, x) {
                let j = choose|j: int|
                    0 <= j < f.len() && (#[trigger] f[j]).rates == x.rates && f[j].bal == x.bal;
                if j == f.len() - 1 {
                    assert(d[d.len() - 1] == f.last());
                    assert(s_has_core(d, x));
                } else {
                    assert(f.drop_last()[j] == f[j]);
                    assert(s_has_core(f.drop_last(), x));
                    let i = choose|i: int|
                        0 <= i < s_dedup(f.drop_last()).len() && (#[trigger] s_dedup(
                            f.drop_last(),
                        )[i]).rates == x.rates && s_dedup(f.drop_last())[i].bal == x.bal;
                    assert(d[i] == s_dedup(f.drop_last())[i]);
                    assert(s_has_core(d, x));
                }
            }
            if s_has_core(d, x) {
                let j = choose|j: int|
                    0 <= j < d.len() && (#[trigger] d[j]).rates == x.rates && d[j].bal == x.bal;
                if j == d.len() - 1 {
                    assert(f.last().rates == x.rates);
                    assert(s_has_core(f, x));
                } else {
                    assert(d[j] == s_dedup(f.drop_last())[j]);
                    assert(s_has_core(s_dedup(f.drop_last()), x));
                    let i = choose|i: int|
                        0 <= i < f.drop_last().len() && (#[trigger] f.drop_last()[i]).rates
                            == x.rates && f.drop_last()[i].bal == x.bal;
                    assert(f[i] == f.drop_last()[i]);
                    assert(s_has_core(f, x));
                }
            }
        }
    }
}

/// Every deduplicated state comes from the frontier it was drawn from.
pub proof fn lemma_dedup_sub(f: Seq<GState>)
    ensures
        forall|j: int|
            0 <= j < s_dedup(f).len() ==> exists|i: int|
                0 <= i < f.len() && #[trigger] s_dedup(f)[j] == f[i],
    decreases f.len(),
{
    if f.len() > 0 {
        lemma_dedup_sub(f.drop_last());
        let d = s_dedup(f);
        assert forall|j: int| 0 <= j < d.len() implies exists|i: int|
            0 <= i < f.len() && #[trigger] d[j] == f[i] by {
            if s_has_core(f.drop_last(), f.last()) {
                assert(d == s_dedup(f.drop_last()));
                let i = choose|i: int|
                    0 <= i < f.drop_last().len() && #[trigger] s_dedup(f.drop_last())[j] == f.drop_last()[i];
                assert(f.drop_last()[i] == f[i]);
                assert(d[j] == f[i]);
            } else {
                if j == d.len() - 1 {
                    assert(d[j] == f.last());
                    assert(f.last() == f[f.len() - 1]);
                } else {
                    assert(d[j] == s_dedup(f.drop_last())[j]);
                    let i = choose|i: int|
                        0 <= i < f.drop_last().len() && #[trigger] s_dedup(f.drop_last())[j]
                            == f.drop_last()[i];
                    assert(f.drop_last()[i] == f[i]);
                    assert(d[j] == f[i]);
                }
            }
        }
    }
}

/// A non-empty frontier stays non-empty through deduplication.
pub proof fn lemma_dedup_nonempty(f: Seq<GState>)
    requires
        f.len() >= 1,
    ensures
        s_dedup(f).len() >= 1,
    decreases f.len(),
{
    if f.len() > 1 && s_has_core(f.drop_last(), f.last()) {
        lemma_dedup_nonempty(f.drop_last());
    } else if f.len() == 1 && s_has_core(f.drop_last(), f.last()) {
        assert(false);
    }
}

/// The frontier deduplicator: keeps the first state of each (rates,
/// balances) class.
pub fn dedup(v: Vec<State>) -> (r: Vec<State>)
    requires
        forall|j: int| 0 <= j < v@.len() ==> key_bounds(#[trigger] v@[j]@),
    ensures
        views(r@) == s_dedup(views(v@)),
{
    let mut seen: HashSet<u128> = HashSet::new();
    let mut out: Vec<State> = Vec::new();
    let n = v.len();
    let mut i: usize = 0;
    proof {
        assert(views(v@).take(0) =~= Seq::<GState>::empty());
        assert(views(out@) =~= Seq::<GState>::empty());
    }
    while i < n
        invariant
            i <= n,
            n == v@.len(),
            forall|j: int| 0 <= j < v@.len() ==> key_bounds(#[trigger] v@[j]@),
            views(out@) == s_dedup(views(v@).take(i as int)),
            forall|j: int| 0 <= j < out@.len() ==> key_bounds(#[trigger] out@[j]@),
            forall|j: int|
                0 <= j < out@.len() ==> seen@.contains((s_key(#[trigger] out@[j]@) as u128)),
            forall|kk: u128|
                #[trigger] seen@.contains(kk) ==> exists|j: int|
                    0 <= j < out@.len() && s_key(#[trigger] out@[j]@) == kk as int,
        decreases n - i,
    {
        let x = v[i];
        let kk = key(&x);
        let ghost prefix = views(v@).take(i as int);
        let newly = seen.insert(kk);
        if newly {
            let ghost out0 = out@;
            out.push(x);
            proof {
                // The key was absent, so no kept state shares the core.
                assert(!s_has_core(views(out0), x@)) by {
                    if s_has_core(views(out0), x@) {
                        let j = choose|j: int|
                            0 <= j < views(out0).len() && (#[trigger] views(out0)[j]).rates
                                == x@.rates && views(out0)[j].bal == x@.bal;
                        assert(s_key(views(out0)[j]) == s_key(x@));
                        assert(seen@.remove(kk).contains((s_key(out0[j]@) as u128)));
                    }
                }
                lemma_dedup_cores(prefix, x@);
                assert(!s_has_core(prefix, x@));
                assert(views(v@).take(i + 1).drop_last() =~= prefix);
                assert(views(v@).take(i + 1).last() == x@);
                assert(views(out@) =~= views(out0).push(x@));
                assert(views(out@) =~= s_dedup(views(v@).take(i + 1)));
                assert forall|kk2: u128| #[trigger] seen@.contains(kk2) implies exists|j: int|
                    0 <= j < out@.len() && s_key(#[trigger] out@[j]@) == kk2 as int by {
                    if kk2 == kk {
                        assert(out@[out@.len() - 1]@ == x@);
                        assert(s_key(out@[out@.len() - 1]@) == kk2 as int);
                    } else {
                        let j = choose|j: int|
                            0 <= j < out0.len() && s_key(#[trigger] out0[j]@) == kk2 as int;
                        assert(s_key(out@[j]@) == kk2 as int);
                    }
                }
            }
        } else {
            proof {
                let j = choose|j: int|
                    0 <= j < out@.len() && s_key(#[trigger] out@[j]@) == kk as int;
                lemma_key_injective(out@[j]@, x@);
                assert(views(out@)[j] == out@[j]@);
                assert(views(out@)[j].rates == x@.rates && views(out@)[j].bal == x@.bal);
                assert(s_has_core(views(out@), x@));
                lemma_dedup_cores(prefix, x@);
                assert(s_has_core(prefix, x@));
                assert(views(v@).take(i + 1).drop_last() =~= prefix);
                assert(views(v@).take(i + 1).last() == x@);
                assert(views(out@) =~= s_dedup(views(v@).take(i + 1)));
            }
        }
        i = i + 1;
    }
    proof {
        assert(views(v@).take(n as int) =~= views(v@));
    }
    out
}

/// The tick applier: one time unit passes.
pub fn tick(caps: &[i64; 4], s: State, remaining: usize) -> (r: State)
    requires
        remaining <= MAX_STEPS,
        forall|r: int| 0 <= r < 4 ==> 0 <= #[trigger] caps@[r] <= MAX_COST,
        forall|r: int| 0 <= r < 4 ==> 0 <= #[trigger] s@.bal[r] <= 200000,
        forall|r: int| 0 <= r < 4 ==> 0 <= #[trigger] s@.rates[r] <= 5000,
        match s@.queued {
            Some(k) => 0 <= k < 4,
            None => true,
        },
    ensures
        r@ == s_tick(caps_view(*caps), s@, remaining as int),
{
    let ghost gcaps = caps_view(*caps);
    let ghost old_s = s@;
    proof {
        assert(old_s.bal[0] == s.bal@[0] as int);
        assert(old_s.bal[1] == s.bal@[1] as int);
        assert(old_s.bal[2] == s.bal@[2] as int);
        assert(old_s.bal[3] == s.bal@[3] as int);
        assert(old_s.rates[0] == s.rates@[0] as int);
        assert(old_s.rates[1] == s.rates@[1] as int);
        assert(old_s.rates[2] == s.rates@[2] as int);
        assert(old_s.rates[3] == s.rates@[3] as int);
        assert(gcaps[0] == caps@[0] as int);
        assert(gcaps[1] == caps@[1] as int);
        assert(gcaps[2] == caps@[2] as int);
        assert(caps@[0] as int <= MAX_COST && caps@[0] as int >= 0);
        assert(caps@[1] as int <= MAX_COST && caps@[1] as int >= 0);
        assert(caps@[2] as int <= MAX_COST && caps@[2] as int >= 0);
    }
    let rem = remaining as i64;
    proof {
        assert(0 <= (caps@[0] as int) * (rem as int) <= 160000) by (nonlinear_arith)
            requires 0 <= caps@[0] as int <= 4000, 0 <= rem as int <= 40;
        assert(0 <= (caps@[1] as int) * (rem as int) <= 160000) by (nonlinear_arith)
            requires 0 <= caps@[1] as int <= 4000, 0 <= rem as int <= 40;
        assert(0 <= (caps@[2] as int) * (rem as int) <= 160000) by (nonlinear_arith)
            requires 0 <= caps@[2] as int <= 4000, 0 <= rem as int <= 40;
    }
    let mut bal = s.bal;
    let b0 = bal[0] + s.rates[0];
    let c0 = caps[0] * rem;
    bal[0] = if b0 <= c0 { b0 } else { c0 };
    let b1 = bal[1] + s.rates[1];
    let c1 = caps[1] * rem;
    bal[1] = if b1 <= c1 { b1 } else { c1 };
    let b2 = bal[2] + s.rates[2];
    let c2 = caps[2] * rem;
    bal[2] = if b2 <= c2 { b2 } else { c2 };
    bal[3] = bal[3] + s.rates[3];
    let mut rates = s.rates;
    match s.queued {
        Some(k) => {
            rates[k] = rates[k] + 1;
        },
        None => {},
    }
    let out = State { rates, bal, queued: None, eligible: s.eligible, phase: Phase::NeedsDecision };
    proof {
        assert(out@.bal =~= s_tick(gcaps, old_s, remaining as int).bal);
        assert(out@.rates =~= s_tick(gcaps, old_s, remaining as int).rates);
        assert(out@ == s_tick(gcaps, old_s, remaining as int));
    }
    out
}

/// Resets the eligibility mask for the next decision point.
fn normalize(s: State) -> (r: State)
    ensures
        r@ == s_norm(s@),
{
    State { rates: s.rates, bal: s.bal, queued: s.queued, eligible: 0xf, phase: s.phase }
}

/// Frontier bounds imply the packing bounds.
proof fn lemma_gwf_key_bounds(s: GState, caps: Seq<int>, steps: int, t: int)
    requires
        gwf(s, caps, steps, t),
        caps_ok(caps),
        0 <= t <= steps <= MAX_STEPS,
    ensures
        key_bounds(s),
{
    assert(s.bal[0] <= caps[0] * (steps - t));
    assert(caps[0] * (steps - t) <= 160000) by (nonlinear_arith)
        requires 0 <= caps[0] <= 4000, 0 <= steps - t <= 40;
    assert(caps[1] * (steps - t) <= 160000) by (nonlinear_arith)
        requires 0 <= caps[1] <= 4000, 0 <= steps - t <= 40;
    assert(caps[2] * (steps - t) <= 160000) by (nonlinear_arith)
        requires 0 <= caps[2] <= 4000, 0 <= steps - t <= 40;
    assert(t * steps <= 1600) by (nonlinear_arith)
        requires 0 <= t <= 40, 0 <= steps <= 40;
}

/// The aggregator: the best banked amount of the output resource.
pub fn max_geodes(v: &Vec<State>) -> (r: i64)
    requires
        forall|j: int| 0 <= j < v@.len() ==> (#[trigger] v@[j]@).bal[3] >= 0,
    ensures
        r as int == s_max_geodes(views(v@)),
{
    let n = v.len();
    let mut acc: i64 = 0;
    let mut i: usize = 0;
    proof {
        assert(views(v@).take(0) =~= Seq::<GState>::empty());
    }
    while i < n
        invariant
            i <= n,
            n == v@.len(),
            acc as int == s_max_geodes(views(v@).take(i as int)),
            forall|j: int| 0 <= j < v@.len() ==> (#[trigger] v@[j]@).bal[3] >= 0,
            acc >= 0,
        decreases n - i,
    {
        proof {
            assert(v@[i as int]@.bal[3] == v@[i as int].bal@[3] as int);
            assert(views(v@).take(i + 1).drop_last() =~= views(v@).take(i as int));
            assert(views(v@).take(i + 1).last() == v@[i as int]@);
        }
        let g = v[i].bal[3];
        if g > acc {
            acc = g;
        }
        i = i + 1;
    }
    proof {
        assert(views(v@).take(n as int) =~= views(v@));
    }
    acc
}

/// The scheduler driver: seeds the search, then branches, ticks and
/// deduplicates the frontier once per time step, and reads off the best
/// output balance. The result is a function of the catalog and the
/// horizon alone: repeated runs return the same number.
pub fn score(cat: &Catalog, steps: usize) -> (r: i64)
    requires
        cat_wf(cat@),
        1 <= steps <= MAX_STEPS,
    ensures
        r as int == s_run(cat@, steps as int),
{
    let ghost c = cat@;
    let ghost gsteps = steps as int;
    let caps = derive_caps(cat);
    let ghost gcaps = caps_view(caps);
    proof {
        lemma_caps_ok(c);
    }
    let mut frontier: Vec<State> = Vec::new();
    frontier.push(
        State {
            rates: [1, 0, 0, 0],
            bal: [0, 0, 0, 0],
            queued: None,
            eligible: 0xf,
            phase: Phase::NeedsDecision,
        },
    );
    proof {
        assert(frontier@[0]@.rates =~= s_init().rates);
        assert(frontier@[0]@.bal =~= s_init().bal);
        assert(frontier@[0]@ == s_init());
        assert(views(frontier@) =~= s_frontier(c, gsteps, 0));
        assert(gwf(s_init(), gcaps, gsteps, 0));
    }
    let mut t: usize = 0;
    while t < steps
        invariant
            t <= steps,
            1 <= steps <= MAX_STEPS,
            cat_wf(c),
            c == cat@,
            gsteps == steps as int,
            gcaps == caps_view(caps),
            gcaps == s_caps(c),
            caps_ok(gcaps),
            views(frontier@) == s_frontier(c, gsteps, t as int),
            forall|j: int|
                0 <= j < frontier@.len() ==> gwf(
                    (#[trigger] frontier@[j])@,
                    gcaps,
                    gsteps,
                    t as int,
                ),
        decreases steps - t,
    {
        let last = t == steps - 1;
        let remaining = steps - t - 1;
        let n = frontier.len();
        let mut next: Vec<State> = Vec::new();
        let mut i: usize = 0;
        proof {
            assert(views(frontier@).take(0) =~= Seq::<GState>::empty());
            assert(s_expand(c, gcaps, views(frontier@).take(0), last, remaining as int)
                =~= Seq::<GState>::empty());
            assert(views(next@) =~= Seq::<GState>::empty());
        }
        while i < n
            invariant
                i <= n,
                n == frontier@.len(),
                t < steps,
                1 <= steps <= MAX_STEPS,
                cat_wf(c),
                c == cat@,
                gsteps == steps as int,
                gcaps == caps_view(caps),
                gcaps == s_caps(c),
                caps_ok(gcaps),
                last == (t == steps - 1),
                remaining == steps - t - 1,
                forall|j: int|
                    0 <= j < frontier@.len() ==> gwf(
                        (#[trigger] frontier@[j])@,
                        gcaps,
                        gsteps,
                        t as int,
                    ),
                views(next@) == s_expand(
                    c,
                    gcaps,
                    views(frontier@).take(i as int),
                    last,
                    remaining as int,
                ),
                forall|j: int|
                    0 <= j < next@.len() ==> gwf(
                        (#[trigger] next@[j])@,
                        gcaps,
                        gsteps,
                        t as int + 1,
                    ),
        decreases n - i,
        {
            let s = frontier[i];
            let ghost gs = s@;
            proof {
                assert(gwf(gs, gcaps, gsteps, t as int));
                assert forall|r: int| 0 <= r < 4 implies 0 <= #[trigger] gs.bal[r] <= 200000 by {
                    if r < 3 {
                        assert(gs.bal[r] <= gcaps[r] * (gsteps - t));
                        assert(gcaps[r] * (gsteps - t) <= 160000) by (nonlinear_arith)
                            requires 0 <= gcaps[r] <= 4000, 0 <= gsteps - t <= 40;
                    } else {
                        assert(gs.bal[3] <= t as int * gsteps);
                        assert(t as int * gsteps <= 1600) by (nonlinear_arith)
                            requires 0 <= t as int <= 40, 0 <= gsteps <= 40;
                    }
                }
            }
            let branches = branch(cat, &caps, &s, last);
            proof {
                lemma_branch_wf(c, gcaps, gs, last);
            }
            let m = branches.len();
            let mut b: usize = 0;
            proof {
                assert(s_ticked_branches(c, gcaps, gs, last, remaining as int).take(0)
                    =~= Seq::<GState>::empty());
                assert(views(next@) + Seq::<GState>::empty() =~= views(next@));
            }
            while b < m
                invariant
                    b <= m,
                    m == branches@.len(),
                    t < steps,
                    1 <= steps <= MAX_STEPS,
                    cat_wf(c),
                    c == cat@,
                    gsteps == steps as int,
                    gcaps == caps_view(caps),
                    gcaps == s_caps(c),
                    caps_ok(gcaps),
                    remaining == steps - t - 1,
                    gwf(gs, gcaps, gsteps, t as int),
                    views(branches@) == s_branch(c, gcaps, gs, last),
                    forall|j: int|
                        0 <= j < branches@.len() ==> s_branch_wf(
                            (#[trigger] views(branches@)[j]),
                            gs,
                            gcaps,
                        ),
                    views(next@) == s_expand(
                        c,
                        gcaps,
                        views(frontier@).take(i as int),
                        last,
                        remaining as int,
                    ) + s_ticked_branches(c, gcaps, gs, last, remaining as int).take(b as int),
                    forall|j: int|
                        0 <= j < next@.len() ==> gwf(
                            (#[trigger] next@[j])@,
                            gcaps,
                            gsteps,
                            t as int + 1,
                        ),
                decreases m - b,
            {
                let ghost gb = branches@[b as int]@;
                proof {
                    assert(views(branches@)[b as int] == gb);
                    assert(s_branch_wf(gb, gs, gcaps));
                    assert forall|r: int| 0 <= r < 4 implies 0 <= #[trigger] gb.bal[r] <= 200000
                        && 0 <= gb.rates[r] <= 5000 by {
                        assert(gb.bal[r] <= gs.bal[r]);
                        if r < 3 {
                            assert(gs.bal[r] <= gcaps[r] * (gsteps - t));
                            assert(gcaps[r] * (gsteps - t) <= 160000) by (nonlinear_arith)
                                requires 0 <= gcaps[r] <= 4000, 0 <= gsteps - t <= 40;
                        } else {
                            assert(gs.bal[3] <= t as int * gsteps);
                            assert(t as int * gsteps <= 1600) by (nonlinear_arith)
                                requires 0 <= t as int <= 40, 0 <= gsteps <= 40;
                        }
                        assert(gb.rates == gs.rates);
                        if r == 0 {
                            assert(gs.rates[0] <= s_max2(gcaps[0], 1));
                        }
                        if r == 3 {
                            assert(gs.rates[3] <= t as int);
                        }
                    }
                }
                proof {
                    assert forall|r: int| 0 <= r < 4 implies 0 <= #[trigger] caps@[r] <= MAX_COST by {
                        assert(gcaps[r] == caps@[r] as int);
                    }
                }
                let nb = normalize(tick(&caps, branches[b], remaining));
                let ghost next0 = next@;
                next.push(nb);
                proof {
                    assert(nb@ == s_norm(s_tick(gcaps, gb, remaining as int)));
                    lemma_tick_wf(gb, gs, gcaps, gsteps, t as int);
                    assert(s_ticked_branches(c, gcaps, gs, last, remaining as int)[b as int]
                        == nb@);
                    assert(s_ticked_branches(c, gcaps, gs, last, remaining as int).take(b + 1)
                        =~= s_ticked_branches(c, gcaps, gs, last, remaining as int).take(
                        b as int,
                    ).push(nb@));
                    assert(views(next@) =~= views(next0).push(nb@));
                    assert(views(next@) =~= s_expand(
                        c,
                        gcaps,
                        views(frontier@).take(i as int),
                        last,
                        remaining as int,
                    ) + s_ticked_branches(c, gcaps, gs, last, remaining as int).take(b + 1));
                }
                b = b + 1;
            }
            proof {
                assert(s_ticked_branches(c, gcaps, gs, last, remaining as int).take(m as int)
                    =~= s_ticked_branches(c, gcaps, gs, last, remaining as int));
                assert(views(frontier@).take(i + 1).drop_last() =~= views(frontier@).take(
                    i as int,
                ));
                assert(views(frontier@).take(i + 1).last() == gs);
                assert(s_expand(c, gcaps, views(frontier@).take(i + 1), last, remaining as int)
                    == s_expand(c, gcaps, views(frontier@).take(i as int), last, remaining as int)
                    + s_ticked_branches(c, gcaps, gs, last, remaining as int));
            }
            i = i + 1;
        }
        proof {
            assert(views(frontier@).take(n as int) =~= views(frontier@));
            assert forall|j: int| 0 <= j < next@.len() implies key_bounds(
                #[trigger] next@[j]@,
            ) by {
                lemma_gwf_key_bounds(next@[j]@, gcaps, gsteps, t as int + 1);
            }
        }
        let ghost fnext = views(next@);
        frontier = dedup(next);
        proof {
            assert(views(frontier@) == s_dedup(fnext));
            assert(s_frontier(c, gsteps, t as int + 1) == s_dedup(
                s_expand(
                    c,
                    gcaps,
                    s_frontier(c, gsteps, t as int),
                    t as int + 1 == gsteps,
                    gsteps - (t as int + 1),
                ),
            ));
            lemma_dedup_sub(fnext);
            assert forall|j: int| 0 <= j < frontier@.len() implies gwf(
                (#[trigger] frontier@[j])@,
                gcaps,
                gsteps,
                t as int + 1,
            ) by {
                assert(views(frontier@)[j] == frontier@[j]@);
                let i2 = choose|i2: int|
                    0 <= i2 < fnext.len() && #[trigger] s_dedup(fnext)[j] == fnext[i2];
                assert(gwf(fnext[i2], gcaps, gsteps, t as int + 1));
            }
        }
        t = t + 1;
    }
    proof {
        assert forall|j: int| 0 <= j < frontier@.len() implies (#[trigger] frontier@[j]@).bal[3]
            >= 0 by {
            assert(gwf(frontier@[j]@, gcaps, gsteps, gsteps));
        }
    }
    max_geodes(&frontier)
}

/// Every state of one step's expansion is a well-formed state of the
/// next step.
pub proof fn lemma_expand_wf(c: Seq<Seq<int>>, f: Seq<GState>, steps: int, t: int, last: bool, rem: int)
    requires
        cat_wf(c),
        caps_ok(s_caps(c)),
        0 <= t < steps <= MAX_STEPS,
        last == (t + 1 == steps),
        rem == steps - t - 1,
        forall|j: int| 0 <= j < f.len() ==> gwf(#[trigger] f[j], s_caps(c), steps, t),
    ensures
        forall|j: int|
            0 <= j < s_expand(c, s_caps(c), f, last, rem).len() ==> gwf(
                #[trigger] s_expand(c, s_caps(c), f, last, rem)[j],
                s_caps(c),
                steps,
                t + 1,
            ),
    decreases f.len(),
{
    let caps = s_caps(c);
    if f.len() > 0 {
        lemma_expand_wf(c, f.drop_last(), steps, t, last, rem);
        let s = f.last();
        assert(gwf(s, caps, steps, t));
        lemma_branch_wf(c, caps, s, last);
        let tb = s_ticked_branches(c, caps, s, last, rem);
        assert forall|j: int| 0 <= j < tb.len() implies gwf(#[trigger] tb[j], caps, steps, t + 1) by {
            assert(tb[j] == s_norm(s_tick(caps, s_branch(c, caps, s, last)[j], rem)));
            assert(s_branch_wf(s_branch(c, caps, s, last)[j], s, caps));
            lemma_tick_wf(s_branch(c, caps, s, last)[j], s, caps, steps, t);
        }
        let whole = s_expand(c, caps, f, last, rem);
        let front = s_expand(c, caps, f.drop_last(), last, rem);
        assert forall|j: int| 0 <= j < whole.len() implies gwf(
            #[trigger] whole[j],
            caps,
            steps,
            t + 1,
        ) by {
            if j < front.len() {
                assert(whole[j] == front[j]);
            } else {
                assert(whole[j] == tb[j - front.len()]);
            }
        }
    }
}

/// Every state of every frontier is well formed: balances are never
/// negative and never beyond what the remaining horizon can spend, and
/// intermediate production rates respect the caps.
pub proof fn lemma_frontier_wf(c: Seq<Seq<int>>, steps: int, t: int)
    requires
        cat_wf(c),
        0 <= t <= steps <= MAX_STEPS,
        1 <= steps,
    ensures
        forall|j: int|
            0 <= j < s_frontier(c, steps, t).len() ==> gwf(
                #[trigger] s_frontier(c, steps, t)[j],
                s_caps(c),
                steps,
                t,
            ),
    decreases t,
{
    lemma_caps_ok(c);
    if t <= 0 {
        assert(gwf(s_init(), s_caps(c), steps, 0));
        assert(forall|j: int|
            0 <= j < s_frontier(c, steps, t).len() ==> #[trigger] s_frontier(c, steps, t)[j]
                == s_init());
    } else {
        lemma_frontier_wf(c, steps, t - 1);
        let prev = s_frontier(c, steps, t - 1);
        lemma_expand_wf(c, prev, steps, t - 1, t == steps, steps - t);
        let e = s_expand(c, s_caps(c), prev, t == steps, steps - t);
        lemma_dedup_sub(e);
        assert forall|j: int| 0 <= j < s_frontier(c, steps, t).len() implies gwf(
            #[trigger] s_frontier(c, steps, t)[j],
            s_caps(c),
            steps,
            t,
        ) by {
            assert(s_frontier(c, steps, t) == s_dedup(e));
            let i = choose|i: int| 0 <= i < e.len() && #[trigger] s_dedup(e)[j] == e[i];
            assert(gwf(e[i], s_caps(c), steps, t));
        }
    }
}

/// Affordability: whatever the branch generator makes of a state whose
/// balances are non-negative keeps every balance at or above zero — a
/// branch that cannot pay its recipe is never created.
pub proof fn lemma_branch_balances(c: Seq<Seq<int>>, caps: Seq<int>, s: GState, last: bool)
    requires
        cat_wf(c),
        s.rates.len() == 4,
        s.bal.len() == 4,
        forall|r: int| 0 <= r < 4 ==> 0 <= #[trigger] s.bal[r],
    ensures
        forall|j: int, r: int|
            0 <= j < s_branch(c, caps, s, last).len() && 0 <= r < 4 ==> 0 <= #[trigger] s_branch(
                c,
                caps,
                s,
                last,
            )[j].bal[r],
{
    lemma_branch_wf(c, caps, s, last);
    assert forall|j: int, r: int|
        0 <= j < s_branch(c, caps, s, last).len() && 0 <= r < 4 implies 0 <= #[trigger] s_branch(
        c,
        caps,
        s,
        last,
    )[j].bal[r] by {
        assert(s_branch_wf(s_branch(c, caps, s, last)[j], s, caps));
    }
}

/// The cap rule: in every reachable frontier state the production rate
/// of each intermediate resource stays at or under the catalog's cap,
/// as long as some recipe spends the baseline resource at all.
pub proof fn lemma_frontier_rates_capped(c: Seq<Seq<int>>, steps: int, t: int)
    requires
        cat_wf(c),
        1 <= steps <= MAX_STEPS,
        0 <= t <= steps,
        s_caps(c)[0] >= 1,
    ensures
        forall|j: int, r: int|
            0 <= j < s_frontier(c, steps, t).len() && 0 <= r < 3 ==> #[trigger] s_frontier(
                c,
                steps,
                t,
            )[j].rates[r] <= s_caps(c)[r],
{
    lemma_frontier_wf(c, steps, t);
    assert forall|j: int, r: int|
        0 <= j < s_frontier(c, steps, t).len() && 0 <= r < 3 implies #[trigger] s_frontier(
        c,
        steps,
        t,
    )[j].rates[r] <= s_caps(c)[r] by {
        assert(gwf(s_frontier(c, steps, t)[j], s_caps(c), steps, t));
    }
}

/// No late construction: at the last decision step the branch generator
/// yields the do-nothing branch alone, so no state ticked into the
/// final frontier ever has a unit queued.
pub proof fn lemma_no_late_build(c: Seq<Seq<int>>, caps: Seq<int>, s: GState)
    ensures
        s_branch(c, caps, s, true).len() == 1,
        s_branch(c, caps, s, true)[0].queued is None,
{
}

/// Frontier states carry no queued unit either: a queued unit becomes
/// active at the tick that ends its step.
pub proof fn lemma_frontier_unqueued(c: Seq<Seq<int>>, steps: int, t: int)
    requires
        cat_wf(c),
        1 <= steps <= MAX_STEPS,
        0 <= t <= steps,
    ensures
        forall|j: int|
            0 <= j < s_frontier(c, steps, t).len() ==> (#[trigger] s_frontier(
                c,
                steps,
                t,
            )[j]).queued is None,
{
    lemma_frontier_wf(c, steps, t);
    assert forall|j: int|
        0 <= j < s_frontier(c, steps, t).len() implies (#[trigger] s_frontier(
        c,
        steps,
        t,
    )[j]).queued is None by {
        assert(gwf(s_frontier(c, steps, t)[j], s_caps(c), steps, t));
    }
}

proof fn lemma_branch_from_contains(
    c: Seq<Seq<int>>,
    caps: Seq<int>,
    s: GState,
    j: int,
    attempted: u8,
    k: int,
)
    requires
        0 <= j <= k < 4,
        s_buildable(c, caps, s, k),
    ensures
        s_branch_from(c, caps, s, j, attempted).contains(s_build(c, s, k)),
    decreases 4 - j,
{
    let whole = s_branch_from(c, caps, s, j, attempted);
    if j == k {
        assert(whole[0] == s_build(c, s, k));
    } else if s_buildable(c, caps, s, j) {
        let att2 = attempted | (1u8 << (j as u8));
        lemma_branch_from_contains(c, caps, s, j + 1, att2, k);
        let rest = s_branch_from(c, caps, s, j + 1, att2);
        let i = choose|i: int| 0 <= i < rest.len() && rest[i] == s_build(c, s, k);
        assert(whole[i + 1] == s_build(c, s, k));
    } else {
        lemma_branch_from_contains(c, caps, s, j + 1, attempted, k);
        let rest = s_branch_from(c, caps, s, j + 1, attempted);
        let i = choose|i: int| 0 <= i < rest.len() && rest[i] == s_build(c, s, k);
        assert(whole[i] == s_build(c, s, k));
    }
}

/// A unit kind whose recipe costs nothing is affordable in every state
/// with non-negative balances; while it is eligible and under its cap,
/// its build branch is always generated — and branching still ends,
/// since each decision point spawns one branch per kind and no more.
pub proof fn lemma_zero_recipe_buildable(c: Seq<Seq<int>>, caps: Seq<int>, s: GState, k: int)
    requires
        cat_wf(c),
        0 <= k < 4,
        forall|r: int| 0 <= r < 4 ==> #[trigger] c[k][r] == 0,
        forall|r: int| 0 <= r < 4 ==> 0 <= #[trigger] s.bal[r],
        s.rates.len() == 4,
        s.bal.len() == 4,
        s_bit(s.eligible, k),
        k == 3 || s.rates[k] < caps[k],
    ensures
        s_buildable(c, caps, s, k),
        s_branch(c, caps, s, false).contains(s_build(c, s, k)),
{
    assert(s_affordable(c, s, k));
    lemma_branch_from_contains(c, caps, s, 0, 0, k);
}

/// The best geode count lies between zero and the largest balance bound.
proof fn lemma_max_geodes_bound(f: Seq<GState>, bound: int)
    requires
        bound >= 0,
        forall|j: int| 0 <= j < f.len() ==> (#[trigger] f[j]).bal[3] <= bound,
    ensures
        0 <= s_max_geodes(f) <= bound,
    decreases f.len(),
{
    if f.len() > 0 {
        assert(f.last() == f[f.len() - 1]);
        lemma_max_geodes_bound(f.drop_last(), bound);
    }
}

/// The frontier after `t` of `steps` time steps with the deduplicator
/// switched off.
pub open spec fn s_frontier_plain(c: Seq<Seq<int>>, steps: int, t: int) -> Seq<GState>
    decreases t,
{
    if t <= 0 {
        seq![s_init()]
    } else {
        s_expand(c, s_caps(c), s_frontier_plain(c, steps, t - 1), t == steps, steps - t)
    }
}

/// What the search would return without ever deduplicating.
pub open spec fn s_run_plain(c: Seq<Seq<int>>, steps: int) -> int {
    s_max_geodes(s_frontier_plain(c, steps, steps))
}

/// A state as ticks leave it: no queued unit, deciding, fully eligible.
pub open spec fn s_normal(x: GState) -> bool {
    x.queued is None && x.deciding && x.eligible == 0xf
}

/// Ticked branches come out normalized.
proof fn lemma_expand_normal(
    c: Seq<Seq<int>>,
    caps: Seq<int>,
    f: Seq<GState>,
    last: bool,
    rem: int,
)
    ensures
        forall|j: int|
            0 <= j < s_expand(c, caps, f, last, rem).len() ==> s_normal(
                #[trigger] s_expand(c, caps, f, last, rem)[j],
            ),
    decreases f.len(),
{
    if f.len() > 0 {
        lemma_expand_normal(c, caps, f.drop_last(), last, rem);
        let whole = s_expand(c, caps, f, last, rem);
        let front = s_expand(c, caps, f.drop_last(), last, rem);
        let tb = s_ticked_branches(c, caps, f.last(), last, rem);
        assert forall|j: int| 0 <= j < whole.len() implies s_normal(#[trigger] whole[j]) by {
            if j < front.len() {
                assert(whole[j] == front[j]);
            } else {
                assert(whole[j] == tb[j - front.len()]);
                assert(tb[j - front.len()] == s_norm(
                    s_tick(caps, s_branch(c, caps, f.last(), last)[j - front.len()], rem),
                ));
            }
        }
    }
}

/// Among normalized states, deduplication keeps membership: whatever
/// was in the frontier is still represented by an equal state.
proof fn lemma_dedup_members(f: Seq<GState>)
    requires
        forall|j: int| 0 <= j < f.len() ==> s_normal(#[trigger] f[j]),
    ensures
        forall|x: GState| #[trigger] s_dedup(f).contains(x) <==> f.contains(x),
    decreases f.len(),
{
    if f.len() > 0 {
        assert(forall|j: int| 0 <= j < f.drop_last().len() ==> s_normal(#[trigger] f.drop_last()[j]));
        lemma_dedup_members(f.drop_last());
        let d = s_dedup(f);
        assert forall|x: GState| #[trigger] d.contains(x) implies f.contains(x) by {
            if s_has_core(f.drop_last(), f.last()) {
                assert(d == s_dedup(f.drop_last()));
                assert(f.drop_last().contains(x));
                let i2 = choose|i2: int| 0 <= i2 < f.drop_last().len() && f.drop_last()[i2] == x;
                assert(f[i2] == x);
            } else {
                let i = choose|i: int| 0 <= i < d.len() && d[i] == x;
                if i < d.len() - 1 {
                    assert(s_dedup(f.drop_last())[i] == x);
                    assert(s_dedup(f.drop_last()).contains(x));
                    assert(f.drop_last().contains(x));
                    let i2 = choose|i2: int|
                        0 <= i2 < f.drop_last().len() && f.drop_last()[i2] == x;
                    assert(f[i2] == x);
                } else {
                    assert(x == f.last());
                    assert(f[f.len() - 1] == x);
                }
            }
        }
        assert forall|x: GState| f.contains(x) implies #[trigger] d.contains(x) by {
            let i = choose|i: int| 0 <= i < f.len() && f[i] == x;
            if i < f.len() - 1 {
                assert(f.drop_last()[i] == x);
                assert(f.drop_last().contains(x));
                assert(s_dedup(f.drop_last()).contains(x));
                let i2 = choose|i2: int|
                    0 <= i2 < s_dedup(f.drop_last()).len() && s_dedup(f.drop_last())[i2] == x;
                if s_has_core(f.drop_last(), f.last()) {
                    assert(d[i2] == x);
                } else {
                    assert(d[i2] == x);
                }
            } else {
                // x is the last state; either it is kept, or an equal
                // normalized state with its core was kept before it.
                if s_has_core(f.drop_last(), f.last()) {
                    let i2 = choose|i2: int|
                        0 <= i2 < f.drop_last().len() && (#[trigger] f.drop_last()[i2]).rates
                            == f.last().rates && f.drop_last()[i2].bal == f.last().bal;
                    assert(s_normal(f.drop_last()[i2]));
                    assert(s_normal(f.last()));
                    assert(f.drop_last()[i2] =~= f.last());
                    assert(f.drop_last().contains(x));
                    assert(s_dedup(f.drop_last()).contains(x));
                    let i3 = choose|i3: int|
                        0 <= i3 < s_dedup(f.drop_last()).len() && s_dedup(f.drop_last())[i3] == x;
                    assert(d[i3] == x);
                } else {
                    assert(d[d.len() - 1] == x);
                }
            }
        }
    }
}

/// Membership in one step's expansion comes from membership of a parent
/// in the frontier.
proof fn lemma_expand_contains(
    c: Seq<Seq<int>>,
    caps: Seq<int>,
    f: Seq<GState>,
    last: bool,
    rem: int,
    x: GState,
)
    ensures
        s_expand(c, caps, f, last, rem).contains(x) <==> exists|s: GState|
            f.contains(s) && #[trigger] s_ticked_branches(c, caps, s, last, rem).contains(x),
    decreases f.len(),
{
    let whole = s_expand(c, caps, f, last, rem);
    if f.len() == 0 {
        if whole.contains(x) {
            let i = choose|i: int| 0 <= i < whole.len() && whole[i] == x;
        }
        if exists|s: GState|
            f.contains(s) && #[trigger] s_ticked_branches(c, caps, s, last, rem).contains(x) {
            let s = choose|s: GState|
                f.contains(s) && #[trigger] s_ticked_branches(c, caps, s, last, rem).contains(x);
            assert(f.contains(s));
            let i = choose|i: int| 0 <= i < f.len() && f[i] == s;
        }
    } else {
        lemma_expand_contains(c, caps, f.drop_last(), last, rem, x);
        let front = s_expand(c, caps, f.drop_last(), last, rem);
        let tb = s_ticked_branches(c, caps, f.last(), last, rem);
        if whole.contains(x) {
            let i = choose|i: int| 0 <= i < whole.len() && whole[i] == x;
            if i < front.len() {
                assert(front[i] == x);
                assert(front.contains(x));
                let s = choose|s: GState|
                    f.drop_last().contains(s) && #[trigger] s_ticked_branches(
                        c,
                        caps,
                        s,
                        last,
                        rem,
                    ).contains(x);
                let i2 = choose|i2: int| 0 <= i2 < f.drop_last().len() && f.drop_last()[i2] == s;
                assert(f[i2] == s);
                assert(f.contains(s));
            } else {
                assert(tb[i - front.len()] == x);
                assert(tb.contains(x));
                assert(f[f.len() - 1] == f.last());
                assert(f.contains(f.last()));
            }
        }
        if exists|s: GState|
            f.contains(s) && #[trigger] s_ticked_branches(c, caps, s, last, rem).contains(x) {
            let s = choose|s: GState|
                f.contains(s) && #[trigger] s_ticked_branches(c, caps, s, last, rem).contains(x);
            let i = choose|i: int| 0 <= i < f.len() && f[i] == s;
            if i < f.len() - 1 {
                assert(f.drop_last()[i] == s);
                assert(f.drop_last().contains(s));
                assert(front.contains(x));
                let i2 = choose|i2: int| 0 <= i2 < front.len() && front[i2] == x;
                assert(whole[i2] == x);
            } else {
                let i2 = choose|i2: int| 0 <= i2 < tb.len() && tb[i2] == x;
                assert(whole[front.len() + i2] == x);
            }
        }
    }
}

/// Every element's geode count is at most the maximum.
proof fn lemma_max_geodes_ge(f: Seq<GState>)
    ensures
        forall|j: int| 0 <= j < f.len() ==> (#[trigger] f[j]).bal[3] <= s_max_geodes(f),
        s_max_geodes(f) >= 0,
    decreases f.len(),
{
    if f.len() > 0 {
        lemma_max_geodes_ge(f.drop_last());
        assert forall|j: int| 0 <= j < f.len() implies (#[trigger] f[j]).bal[3] <= s_max_geodes(
            f,
        ) by {
            if j < f.len() - 1 {
                assert(f.drop_last()[j] == f[j]);
            }
        }
    }
}

/// The maximum is zero or witnessed by some element.
proof fn lemma_max_geodes_witness(f: Seq<GState>)
    ensures
        s_max_geodes(f) == 0 || exists|j: int|
            0 <= j < f.len() && (#[trigger] f[j]).bal[3] == s_max_geodes(f),
    decreases f.len(),
{
    if f.len() > 0 {
        lemma_max_geodes_witness(f.drop_last());
        if s_max_geodes(f) != 0 {
            if s_max_geodes(f) == f.last().bal[3] {
                assert(f[f.len() - 1].bal[3] == s_max_geodes(f));
            } else {
                let j = choose|j: int|
                    0 <= j < f.drop_last().len() && (#[trigger] f.drop_last()[j]).bal[3]
                        == s_max_geodes(f.drop_last());
                assert(f[j].bal[3] == s_max_geodes(f));
            }
        }
    }
}

/// Frontiers with the same member states share their maximum.
proof fn lemma_max_geodes_members(f: Seq<GState>, g: Seq<GState>)
    requires
        forall|x: GState| f.contains(x) <==> g.contains(x),
    ensures
        s_max_geodes(f) == s_max_geodes(g),
{
    lemma_max_geodes_ge(f);
    lemma_max_geodes_ge(g);
    lemma_max_geodes_witness(f);
    lemma_max_geodes_witness(g);
    assert(s_max_geodes(f) <= s_max_geodes(g)) by {
        if s_max_geodes(f) != 0 {
            let j = choose|j: int|
                0 <= j < f.len() && (#[trigger] f[j]).bal[3] == s_max_geodes(f);
            assert(f.contains(f[j]));
            assert(g.contains(f[j]));
            let i = choose|i: int| 0 <= i < g.len() && g[i] == f[j];
        }
    }
    assert(s_max_geodes(g) <= s_max_geodes(f)) by {
        if s_max_geodes(g) != 0 {
            let j = choose|j: int|
                0 <= j < g.len() && (#[trigger] g[j]).bal[3] == s_max_geodes(g);
            assert(g.contains(g[j]));
            assert(f.contains(g[j]));
            let i = choose|i: int| 0 <= i < f.len() && f[i] == g[j];
        }
    }
}

/// The deduplicator is a pure optimization: with it switched off the
/// search reaches exactly the same maximum output.
pub proof fn lemma_dedup_sound(c: Seq<Seq<int>>, steps: int)
    requires
        1 <= steps,
    ensures
        s_run_plain(c, steps) == s_run(c, steps),
{
    lemma_frontier_members(c, steps, steps);
    lemma_max_geodes_members(s_frontier_plain(c, steps, steps), s_frontier(c, steps, steps));
}

/// The frontiers with and without deduplication hold the same states.
proof fn lemma_frontier_members(c: Seq<Seq<int>>, steps: int, t: int)
    requires
        0 <= t <= steps,
    ensures
        forall|x: GState|
            s_frontier_plain(c, steps, t).contains(x) <==> #[trigger] s_frontier(
                c,
                steps,
                t,
            ).contains(x),
    decreases t,
{
    let caps = s_caps(c);
    if t <= 0 {
    } else {
        lemma_frontier_members(c, steps, t - 1);
        let p = s_frontier_plain(c, steps, t - 1);
        let d = s_frontier(c, steps, t - 1);
        let ep = s_expand(c, caps, p, t == steps, steps - t);
        let ed = s_expand(c, caps, d, t == steps, steps - t);
        assert forall|x: GState| ep.contains(x) <==> ed.contains(x) by {
            lemma_expand_contains(c, caps, p, t == steps, steps - t, x);
            lemma_expand_contains(c, caps, d, t == steps, steps - t, x);
        }
        lemma_expand_normal(c, caps, d, t == steps, steps - t);
        lemma_dedup_members(ed);
        assert forall|x: GState|
            s_frontier_plain(c, steps, t).contains(x) <==> #[trigger] s_frontier(
                c,
                steps,
                t,
            ).contains(x) by {
            assert(s_frontier_plain(c, steps, t) == ep);
            assert(s_frontier(c, steps, t) == s_dedup(ed));
            assert(s_dedup(ed).contains(x) <==> ed.contains(x));
        }
    }
}

/// No frontier is ever empty: the do-nothing branch always survives,
/// so the aggregator never reads an empty collection.
pub proof fn lemma_frontier_nonempty(c: Seq<Seq<int>>, steps: int, t: int)
    requires
        0 <= t,
    ensures
        s_frontier(c, steps, t).len() >= 1,
    decreases t,
{
    if t > 0 {
        lemma_frontier_nonempty(c, steps, t - 1);
        let prev = s_frontier(c, steps, t - 1);
        let caps = s_caps(c);
        let e = s_expand(c, caps, prev, t == steps, steps - t);
        assert(e == s_expand(c, caps, prev.drop_last(), t == steps, steps - t)
            + s_ticked_branches(c, caps, prev.last(), t == steps, steps - t));
        lemma_branch_nonempty(c, caps, prev.last(), t == steps);
        lemma_dedup_nonempty(e);
    }
}

/// State `b` dominates state `a`: same production, at least as much of
/// everything in the bank, both in normalized form.
pub open spec fn s_dominates(a: GState, b: GState) -> bool {
    &&& b.rates == a.rates
    &&& a.bal.len() == 4
    &&& b.bal.len() == 4
    &&& forall|r: int| 0 <= r < 4 ==> a.bal[r] <= #[trigger] b.bal[r]
    &&& s_normal(a)
    &&& s_normal(b)
}

/// Some member of `f` dominates `a`.
pub open spec fn s_covered(f: Seq<GState>, a: GState) -> bool {
    exists|x: GState| #[trigger] f.contains(x) && s_dominates(a, x)
}

/// Every branch is a build of some buildable kind, or a do-nothing.
pub open spec fn s_branch_elem_ok(c: Seq<Seq<int>>, caps: Seq<int>, s: GState, b: GState) -> bool {
    ||| exists|k: int| 0 <= k < 4 && s_buildable(c, caps, s, k) && b == s_build(c, s, k)
    ||| exists|m: u8| b == s_idle(s, m)
}

proof fn lemma_branch_shape(c: Seq<Seq<int>>, caps: Seq<int>, s: GState, k: int, attempted: u8)
    requires
        0 <= k <= 4,
    ensures
        forall|j: int|
            0 <= j < s_branch_from(c, caps, s, k, attempted).len() ==> s_branch_elem_ok(
                c,
                caps,
                s,
                #[trigger] s_branch_from(c, caps, s, k, attempted)[j],
            ),
    decreases 4 - k,
{
    let whole = s_branch_from(c, caps, s, k, attempted);
    if k >= 4 {
        assert forall|j: int| 0 <= j < whole.len() implies s_branch_elem_ok(
            c,
            caps,
            s,
            whole[j],
        ) by {
            assert(whole[j] == s_idle(s, attempted));
        }
    } else if s_buildable(c, caps, s, k) {
        let att2 = attempted | (1u8 << (k as u8));
        lemma_branch_shape(c, caps, s, k + 1, att2);
        let rest = s_branch_from(c, caps, s, k + 1, att2);
        assert forall|j: int| 0 <= j < whole.len() implies s_branch_elem_ok(
            c,
            caps,
            s,
            whole[j],
        ) by {
            if j == 0 {
                assert(whole[0] == s_build(c, s, k));
            } else {
                assert(whole[j] == rest[j - 1]);
            }
        }
    } else {
        lemma_branch_shape(c, caps, s, k + 1, attempted);
        let rest = s_branch_from(c, caps, s, k + 1, attempted);
        assert(whole == rest);
        assert forall|j: int| 0 <= j < whole.len() implies s_branch_elem_ok(
            c,
            caps,
            s,
            whole[j],
        ) by {
            assert(whole[j] == rest[j]);
        }
    }
}

proof fn lemma_branch_has_idle(c: Seq<Seq<int>>, caps: Seq<int>, s: GState, k: int, attempted: u8)
    requires
        0 <= k <= 4,
    ensures
        exists|m: u8| #[trigger] s_branch_from(c, caps, s, k, attempted).contains(s_idle(s, m)),
    decreases 4 - k,
{
    let whole = s_branch_from(c, caps, s, k, attempted);
    if k >= 4 {
        assert(whole[0] == s_idle(s, attempted));
        assert(whole.contains(s_idle(s, attempted)));
    } else if s_buildable(c, caps, s, k) {
        let att2 = attempted | (1u8 << (k as u8));
        lemma_branch_has_idle(c, caps, s, k + 1, att2);
        let m = choose|m: u8|
            #[trigger] s_branch_from(c, caps, s, k + 1, att2).contains(s_idle(s, m));
        let rest = s_branch_from(c, caps, s, k + 1, att2);
        let i = choose|i: int| 0 <= i < rest.len() && rest[i] == s_idle(s, m);
        assert(whole[i + 1] == s_idle(s, m));
        assert(whole.contains(s_idle(s, m)));
    } else {
        lemma_branch_has_idle(c, caps, s, k + 1, attempted);
        let m = choose|m: u8|
            #[trigger] s_branch_from(c, caps, s, k + 1, attempted).contains(s_idle(s, m));
        let rest = s_branch_from(c, caps, s, k + 1, attempted);
        let i = choose|i: int| 0 <= i < rest.len() && rest[i] == s_idle(s, m);
        assert(whole[i] == s_idle(s, m));
        assert(whole.contains(s_idle(s, m)));
    }
}

/// Ticking preserves domination, even with one more step left on the
/// dominating side.
proof fn lemma_tick_dom(caps: Seq<int>, ba: GState, bb: GState, rem_a: int, rem_b: int)
    requires
        caps_ok(caps),
        bb.rates == ba.rates,
        ba.rates.len() == 4,
        ba.bal.len() == 4,
        bb.bal.len() == 4,
        forall|r: int| 0 <= r < 4 ==> ba.bal[r] <= #[trigger] bb.bal[r],
        bb.queued == ba.queued,
        match ba.queued {
            Some(k) => 0 <= k < 4,
            None => true,
        },
        0 <= rem_a <= rem_b,
    ensures
        s_dominates(s_norm(s_tick(caps, ba, rem_a)), s_norm(s_tick(caps, bb, rem_b))),
{
    let ta = s_norm(s_tick(caps, ba, rem_a));
    let tb = s_norm(s_tick(caps, bb, rem_b));
    assert forall|r: int| 0 <= r < 4 implies ta.bal[r] <= #[trigger] tb.bal[r] by {
        if r < 3 {
            assert(caps[r] * rem_a <= caps[r] * rem_b) by (nonlinear_arith)
                requires caps[r] >= 0, 0 <= rem_a <= rem_b;
        }
    }
    assert(ta.rates =~= tb.rates);
}

/// For every branch-and-tick outcome of a dominated state there is a
/// dominating outcome of the dominating state, as long as the
/// dominating side is not on its last step.
proof fn lemma_tb_sim(
    c: Seq<Seq<int>>,
    caps: Seq<int>,
    s: GState,
    s2: GState,
    last_a: bool,
    rem_a: int,
    rem_b: int,
)
    requires
        caps_ok(caps),
        s_dominates(s, s2),
        s.rates.len() == 4,
        0 <= rem_a <= rem_b,
    ensures
        forall|j: int|
            0 <= j < s_ticked_branches(c, caps, s, last_a, rem_a).len() ==> s_covered(
                s_ticked_branches(c, caps, s2, false, rem_b),
                #[trigger] s_ticked_branches(c, caps, s, last_a, rem_a)[j],
            ),
{
    let tba = s_ticked_branches(c, caps, s, last_a, rem_a);
    let tbb = s_ticked_branches(c, caps, s2, false, rem_b);
    let bra = s_branch(c, caps, s, last_a);
    let brb = s_branch(c, caps, s2, false);
    lemma_branch_shape(c, caps, s, 0, 0);
    assert forall|j: int| 0 <= j < tba.len() implies s_covered(tbb, #[trigger] tba[j]) by {
        let ba = bra[j];
        assert(tba[j] == s_norm(s_tick(caps, ba, rem_a)));
        assert(s_branch_elem_ok(c, caps, s, ba)) by {
            if last_a {
                assert(ba == s_idle(s, 0));
            }
        }
        if exists|k: int| 0 <= k < 4 && s_buildable(c, caps, s, k) && ba == s_build(c, s, k) {
            let k = choose|k: int|
                0 <= k < 4 && s_buildable(c, caps, s, k) && ba == s_build(c, s, k);
            assert(s_buildable(c, caps, s2, k)) by {
                assert(s2.eligible == 0xf && s.eligible == 0xf);
                assert forall|r: int| 0 <= r < 4 implies s2.bal[r] >= #[trigger] c[k][r] by {
                    assert(s.bal[r] >= c[k][r]);
                    assert(s.bal[r] <= s2.bal[r]);
                }
            }
            lemma_branch_from_contains(c, caps, s2, 0, 0, k);
            let bb = s_build(c, s2, k);
            let i = choose|i: int| 0 <= i < brb.len() && brb[i] == bb;
            lemma_tick_dom(caps, ba, bb, rem_a, rem_b);
            assert(tbb[i] == s_norm(s_tick(caps, bb, rem_b)));
            assert(tbb.contains(tbb[i]));
            assert(s_dominates(tba[j], tbb[i]));
            assert(s_covered(tbb, tba[j]));
        } else {
            let m = choose|m: u8| ba == s_idle(s, m);
            lemma_branch_has_idle(c, caps, s2, 0, 0);
            let m2 = choose|m2: u8|
                #[trigger] s_branch_from(c, caps, s2, 0, 0).contains(s_idle(s2, m2));
            let bb = s_idle(s2, m2);
            let i = choose|i: int| 0 <= i < brb.len() && brb[i] == bb;
            lemma_tick_dom(caps, ba, bb, rem_a, rem_b);
            assert(tbb[i] == s_norm(s_tick(caps, bb, rem_b)));
            assert(tbb.contains(tbb[i]));
            assert(s_dominates(tba[j], tbb[i]));
            assert(s_covered(tbb, tba[j]));
        }
    }
}

/// Every state reachable within the shorter horizon is dominated by a
/// state reachable within the longer one, step for step.
proof fn lemma_frontier_sim(c: Seq<Seq<int>>, ha: int, t: int)
    requires
        cat_wf(c),
        1 <= ha,
        ha + 1 <= MAX_STEPS,
        0 <= t <= ha,
    ensures
        forall|j: int|
            0 <= j < s_frontier(c, ha, t).len() ==> s_covered(
                s_frontier(c, ha + 1, t),
                #[trigger] s_frontier(c, ha, t)[j],
            ),
    decreases t,
{
    lemma_caps_ok(c);
    let caps = s_caps(c);
    let fa = s_frontier(c, ha, t);
    let fb = s_frontier(c, ha + 1, t);
    if t <= 0 {
        assert forall|j: int| 0 <= j < fa.len() implies s_covered(fb, #[trigger] fa[j]) by {
            assert(fa[j] == s_init());
            assert(fb[0] == s_init());
            assert(fb.contains(s_init()));
            assert(s_dominates(s_init(), s_init()));
            assert(s_covered(fb, fa[j]));
        }
    } else {
        lemma_frontier_sim(c, ha, t - 1);
        lemma_frontier_wf(c, ha, t - 1);
        lemma_frontier_wf(c, ha + 1, t - 1);
        let pa = s_frontier(c, ha, t - 1);
        let pb = s_frontier(c, ha + 1, t - 1);
        let la = (t == ha);
        let ea = s_expand(c, caps, pa, la, ha - t);
        let eb = s_expand(c, caps, pb, false, ha + 1 - t);
        assert((t == ha + 1) == false);
        assert(fa == s_dedup(ea));
        assert(fb == s_dedup(eb));
        lemma_dedup_sub(ea);
        lemma_expand_normal(c, caps, pb, false, ha + 1 - t);
        lemma_dedup_members(eb);
        assert forall|j: int| 0 <= j < fa.len() implies s_covered(fb, #[trigger] fa[j]) by {
            let i = choose|i: int| 0 <= i < ea.len() && #[trigger] s_dedup(ea)[j] == ea[i];
            let y = ea[i];
            assert(ea.contains(y));
            lemma_expand_contains(c, caps, pa, la, ha - t, y);
            let s = choose|s: GState|
                pa.contains(s) && #[trigger] s_ticked_branches(c, caps, s, la, ha - t).contains(
                    y,
                );
            let sj = choose|sj: int| 0 <= sj < pa.len() && pa[sj] == s;
            assert(s_covered(pb, pa[sj]));
            let s2 = choose|x: GState| #[trigger] pb.contains(x) && s_dominates(pa[sj], x);
            lemma_tb_sim(c, caps, s, s2, la, ha - t, ha + 1 - t);
            let tba = s_ticked_branches(c, caps, s, la, ha - t);
            let yj = choose|yj: int| 0 <= yj < tba.len() && tba[yj] == y;
            assert(s_covered(s_ticked_branches(c, caps, s2, false, ha + 1 - t), tba[yj]));
            let x2 = choose|x: GState|
                #[trigger] s_ticked_branches(c, caps, s2, false, ha + 1 - t).contains(x)
                    && s_dominates(tba[yj], x);
            lemma_expand_contains(c, caps, pb, false, ha + 1 - t, x2);
            assert(eb.contains(x2));
            assert(s_dedup(eb).contains(x2));
            assert(fb.contains(x2));
            assert(s_dominates(fa[j], x2));
            assert(s_covered(fb, fa[j]));
        }
    }
}

/// Lengthening the horizon by one step never lowers the best output:
/// whatever the shorter run reaches, the longer run can reach and then
/// let it sit for one more tick.
pub proof fn lemma_horizon_monotone(c: Seq<Seq<int>>, steps: int)
    requires
        cat_wf(c),
        1 <= steps,
        steps + 1 <= MAX_STEPS,
    ensures
        s_run(c, steps) <= s_run(c, steps + 1),
{
    lemma_caps_ok(c);
    let caps = s_caps(c);
    let fa = s_frontier(c, steps, steps);
    let fb = s_frontier(c, steps + 1, steps);
    let fb2 = s_frontier(c, steps + 1, steps + 1);
    lemma_max_geodes_witness(fa);
    lemma_max_geodes_ge(fa);
    lemma_max_geodes_ge(fb2);
    if s_max_geodes(fa) == 0 {
    } else {
        let j = choose|j: int| 0 <= j < fa.len() && (#[trigger] fa[j]).bal[3] == s_max_geodes(fa);
        lemma_frontier_sim(c, steps, steps);
        assert(s_covered(fb, fa[j]));
        let s2 = choose|x: GState| #[trigger] fb.contains(x) && s_dominates(fa[j], x);
        lemma_frontier_wf(c, steps + 1, steps);
        let sj = choose|sj: int| 0 <= sj < fb.len() && fb[sj] == s2;
        assert(gwf(s2, caps, steps + 1, steps));
        // One last idle step on the longer horizon.
        let tb = s_ticked_branches(c, caps, s2, true, 0);
        let x2 = s_norm(s_tick(caps, s_idle(s2, 0), 0));
        assert(s_branch(c, caps, s2, true) == seq![s_idle(s2, 0)]);
        assert(tb[0] == x2);
        assert(tb.contains(x2));
        let eb = s_expand(c, caps, fb, true, 0);
        lemma_expand_contains(c, caps, fb, true, 0, x2);
        assert(eb.contains(x2));
        lemma_expand_normal(c, caps, fb, true, 0);
        lemma_dedup_members(eb);
        assert((steps + 1 == steps + 1) == true);
        assert(fb2 == s_dedup(eb));
        assert(fb2.contains(x2));
        let xj = choose|xj: int| 0 <= xj < fb2.len() && fb2[xj] == x2;
        assert(x2.bal[3] == s2.bal[3] + s2.rates[3]);
        assert(x2.bal[3] >= s_max_geodes(fa));
        assert(s_max_geodes(fb2) >= fb2[xj].bal[3]);
    }
}

/// The search's answer lies between zero and `steps` squared: at most
/// one output unit comes on line per step.
pub proof fn lemma_run_bounds(c: Seq<Seq<int>>, steps: int)
    requires
        cat_wf(c),
        1 <= steps <= MAX_STEPS,
    ensures
        0 <= s_run(c, steps) <= steps * steps,
{
    lemma_frontier_wf(c, steps, steps);
    let f = s_frontier(c, steps, steps);
    assert(steps * steps >= 0) by (nonlinear_arith)
        requires steps >= 1;
    assert forall|j: int| 0 <= j < f.len() implies (#[trigger] f[j]).bal[3] <= steps * steps by {
        assert(gwf(f[j], s_caps(c), steps, steps));
    }
    lemma_max_geodes_bound(f, steps * steps);
}

} // verus!
