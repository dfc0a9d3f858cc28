//! Mixing an encrypted listing: each number, taken in its original
//! order, moves forward by its own value through a circular list, and
//! the grove coordinates are read at fixed offsets after the zero.
//!
//! The listing sits in a linked list of an outside crate while it is
//! mixed; every element carries its original position as a tag.

use crate::text::parse_signed;
use crate::text::s_signed_val;
use crate::text::s_split;
use crate::text::split;
use vstd::arithmetic::div_mod::lemma_fundamental_div_mod;
use vstd::arithmetic::div_mod::lemma_fundamental_div_mod_converse;
use vstd::prelude::*;
use vstd::string::StrSliceExecFns;
use vstd::string::StringSliceAdditionalSpecFns;

verus! {

#[verifier::external_type_specification]
#[verifier::external_body]
#[verifier::reject_recursive_types(T)]
pub struct ExLinkedList<T>(linked_list::LinkedList<T>);

/// What the list holds, front to back.
pub uninterp spec fn ll_contents(l: linked_list::LinkedList<(i64, usize)>) -> Seq<(i64, usize)>;

/// Relies on linked_list::LinkedList::new: the fresh list is empty.
#[verifier::external_body]
fn ll_new() -> (r: linked_list::LinkedList<(i64, usize)>)
    ensures
        ll_contents(r) == Seq::<(i64, usize)>::empty(),
{
    linked_list::LinkedList::new()
}

/// Relies on linked_list::LinkedList::push_back: appends at the back.
#[verifier::external_body]
fn ll_push_back(l: &mut linked_list::LinkedList<(i64, usize)>, x: (i64, usize))
    ensures
        ll_contents(*final(l)) == ll_contents(*old(l)).push(x),
{
    l.push_back(x)
}

/// Relies on linked_list::LinkedList::iter: the elements front to back.
#[verifier::external_body]
fn ll_to_vec(l: &linked_list::LinkedList<(i64, usize)>) -> (r: Vec<(i64, usize)>)
    ensures
        r@ == ll_contents(*l),
{
    l.iter().copied().collect()
}

/// Relies on linked_list::LinkedList::remove: takes the element at the
/// index out, or nothing when the index is beyond the end.
#[verifier::external_body]
fn ll_remove(l: &mut linked_list::LinkedList<(i64, usize)>, i: usize) -> (r: Option<(i64, usize)>)
    ensures
        i < ll_contents(*old(l)).len() ==> r == Some(ll_contents(*old(l))[i as int])
            && ll_contents(*final(l)) == ll_contents(*old(l)).remove(i as int),
        i >= ll_contents(*old(l)).len() ==> r is None && ll_contents(*final(l)) == ll_contents(
            *old(l),
        ),
{
    l.remove(i)
}

/// Relies on linked_list::LinkedList::insert, which panics beyond the
/// length, so that is kept out.
#[verifier::external_body]
fn ll_insert(l: &mut linked_list::LinkedList<(i64, usize)>, i: usize, x: (i64, usize))
    requires
        i <= ll_contents(*old(l)).len(),
    ensures
        ll_contents(*final(l)) == ll_contents(*old(l)).insert(i as int, x),
{
    l.insert(i, x)
}

/// The listing with every value scaled by the decryption key.
pub open spec fn s_scaled(s: Seq<(i64, usize)>, scale: int) -> Seq<(i64, usize)> {
    Seq::new(s.len(), |j: int| (((s[j].0 * scale) as i64), s[j].1))
}

/// The first position tagged `tag`, or the length.
pub open spec fn s_find_tag(s: Seq<(i64, usize)>, tag: int) -> int
    decreases s.len(),
{
    if s.len() == 0 {
        0
    } else if s[0].1 == tag {
        0
    } else {
        1 + s_find_tag(s.skip(1), tag)
    }
}

proof fn lemma_find_tag_le(s: Seq<(i64, usize)>, tag: int)
    ensures
        0 <= s_find_tag(s, tag) <= s.len(),
    decreases s.len(),
{
    if s.len() > 0 && s[0].1 != tag {
        lemma_find_tag_le(s.skip(1), tag);
    }
}

proof fn lemma_find_tag_at(s: Seq<(i64, usize)>, tag: int, j: int)
    requires
        0 <= j <= s.len(),
        j == s.len() || s[j].1 == tag,
        forall|k: int| 0 <= k < j ==> (#[trigger] s[k]).1 != tag,
    ensures
        s_find_tag(s, tag) == j,
    decreases s.len(),
{
    if s.len() > 0 && s[0].1 != tag {
        assert(j >= 1);
        lemma_find_tag_at(s.skip(1), tag, j - 1);
    }
}

/// One element's move: the element tagged `tag` steps forward by its
/// own value through the circle of the remaining elements. A missing
/// tag moves nothing.
pub open spec fn s_mix_one(s: Seq<(i64, usize)>, tag: int) -> Seq<(i64, usize)> {
    let j = s_find_tag(s, tag);
    if j == s.len() || s.len() < 2 {
        s
    } else {
        let node = s[j];
        let rest = s.remove(j);
        let t = (node.0 + j) % (s.len() - 1);
        rest.insert(t, node)
    }
}

/// One pass: every tag up to `k` moves once, in tag order.
pub open spec fn s_mix_pass(s: Seq<(i64, usize)>, k: int) -> Seq<(i64, usize)>
    decreases k,
{
    if k <= 0 {
        s
    } else {
        s_mix_one(s_mix_pass(s, k - 1), k - 1)
    }
}

/// `rounds` full passes over all `n` tags.
pub open spec fn s_mix_rounds(s: Seq<(i64, usize)>, n: int, rounds: int) -> Seq<(i64, usize)>
    decreases rounds,
{
    if rounds <= 0 {
        s
    } else {
        s_mix_pass(s_mix_rounds(s, n, rounds - 1), n)
    }
}

/// Moving one element keeps the count.
proof fn lemma_mix_one_len(s: Seq<(i64, usize)>, tag: int)
    ensures
        s_mix_one(s, tag).len() == s.len(),
{
    lemma_find_tag_le(s, tag);
}

proof fn lemma_mix_pass_len(s: Seq<(i64, usize)>, k: int)
    ensures
        s_mix_pass(s, k).len() == s.len(),
    decreases k,
{
    if k > 0 {
        lemma_mix_pass_len(s, k - 1);
        lemma_mix_one_len(s_mix_pass(s, k - 1), k - 1);
    }
}

proof fn lemma_mix_rounds_len(s: Seq<(i64, usize)>, n: int, rounds: int)
    ensures
        s_mix_rounds(s, n, rounds).len() == s.len(),
    decreases rounds,
{
    if rounds > 0 {
        lemma_mix_rounds_len(s, n, rounds - 1);
        lemma_mix_pass_len(s_mix_rounds(s, n, rounds - 1), n);
    }
}

/// Values within this bound cannot overflow while mixing.
pub open spec fn vals_small(s: Seq<(i64, usize)>) -> bool {
    forall|j: int| 0 <= j < s.len() ==> -0x4_0000_0000_0000 <= (#[trigger] s[j]).0
        <= 0x4_0000_0000_0000
}

proof fn lemma_mix_one_small(s: Seq<(i64, usize)>, tag: int)
    requires
        vals_small(s),
    ensures
        vals_small(s_mix_one(s, tag)),
{
    lemma_find_tag_le(s, tag);
    let j = s_find_tag(s, tag);
    if !(j == s.len() || s.len() < 2) {
        let out = s_mix_one(s, tag);
        assert forall|i: int|
            0 <= i < out.len() implies -0x4_0000_0000_0000 <= (#[trigger] out[i]).0
            <= 0x4_0000_0000_0000 by {
            let rest = s.remove(j);
            let t = (s[j].0 + j) % (s.len() - 1);
            if i == t {
            } else if i < t {
                assert(out[i] == rest[i]);
            } else {
                assert(out[i] == rest[i - 1]);
            }
        }
    }
}

proof fn lemma_mix_pass_small(s: Seq<(i64, usize)>, k: int)
    requires
        vals_small(s),
    ensures
        vals_small(s_mix_pass(s, k)),
    decreases k,
{
    if k > 0 {
        lemma_mix_pass_small(s, k - 1);
        lemma_mix_one_small(s_mix_pass(s, k - 1), k - 1);
    }
}

/// The Euclidean remainder, as the mathematical `%` gives it.
fn emod(a: i64, m: i64) -> (r: i64)
    requires
        1 <= m,
        -0x7fff_ffff_ffff_fff0 <= a <= 0x7fff_ffff_ffff_fff0,
    ensures
        r as int == (a as int) % (m as int),
        0 <= r < m,
{
    let mu = m as u64;
    if a >= 0 {
        let r = ((a as u64) % mu) as i64;
        r
    } else {
        let b = (-a) as u64;
        let rb = b % mu;
        proof {
            lemma_fundamental_div_mod(b as int, mu as int);
            let q = b as int / mu as int;
            if rb == 0 {
                assert(a as int == (-q) * (m as int) + 0) by (nonlinear_arith)
                    requires
                        b as int == q * (mu as int) + rb as int,
                        rb as int == 0,
                        a as int == -(b as int),
                        mu as int == m as int;
                lemma_fundamental_div_mod_converse(a as int, m as int, -q, 0);
            } else {
                assert(a as int == (-q - 1) * (m as int) + ((m as int) - (rb as int)))
                    by (nonlinear_arith)
                    requires
                        b as int == q * (mu as int) + rb as int,
                        a as int == -(b as int),
                        mu as int == m as int;
                lemma_fundamental_div_mod_converse(a as int, m as int, -q - 1, m - rb);
            }
        }
        if rb == 0 {
            0
        } else {
            (mu - rb) as i64
        }
    }
}

/// Mixes the listing in place: `rounds` passes, each moving every tag
/// once in tag order.
fn mix(list: &mut linked_list::LinkedList<(i64, usize)>, rounds: usize)
    requires
        vals_small(ll_contents(*old(list))),
        ll_contents(*old(list)).len() <= 1000000,
    ensures
        ll_contents(*final(list)) == s_mix_rounds(
            ll_contents(*old(list)),
            ll_contents(*old(list)).len() as int,
            rounds as int,
        ),
{
    let ghost start = ll_contents(*old(list));
    let n = ll_to_vec(list).len();
    proof {
        assert(s_mix_rounds(start, n as int, 0) == start);
    }
    let mut round: usize = 0;
    while round < rounds
        invariant
            round <= rounds,
            n == start.len() <= 1000000,
            vals_small(start),
            ll_contents(*list) == s_mix_rounds(start, n as int, round as int),
        decreases rounds - round,
    {
        let ghost base = ll_contents(*list);
        proof {
            lemma_mix_rounds_len(start, n as int, round as int);
            lemma_mix_rounds_small(start, n as int, round as int);
            assert(s_mix_pass(base, 0) == base);
        }
        let mut step: usize = 0;
        while step < n
            invariant
                step <= n,
                n == start.len() <= 1000000,
                n == base.len(),
                vals_small(start),
                vals_small(base),
                base == s_mix_rounds(start, n as int, round as int),
                ll_contents(*list) == s_mix_pass(base, step as int),
            decreases n - step,
        {
            let ghost cur = ll_contents(*list);
            proof {
                lemma_mix_pass_len(base, step as int);
                lemma_mix_pass_small(base, step as int);
                lemma_find_tag_le(cur, step as int);
            }
            let items = ll_to_vec(list);
            // Find the element whose tag is this step.
            let mut j: usize = 0;
            let len = items.len();
            while j < len && items[j].1 != step
                invariant
                    j <= len,
                    len == items@.len(),
                    items@ == cur,
                    forall|k: int| 0 <= k < j ==> (#[trigger] cur[k]).1 != step as int,
                decreases len - j,
            {
                j = j + 1;
            }
            proof {
                lemma_find_tag_at(cur, step as int, j as int);
            }
            if j < len && len >= 2 {
                let node = ll_remove(list, j);
                match node {
                    Some(node) => {
                        let t = emod(node.0 + j as i64, len as i64 - 1);
                        ll_insert(list, t as usize, node);
                        proof {
                            assert(ll_contents(*list) == s_mix_one(cur, step as int));
                        }
                    },
                    None => {
                        proof {
                            assert(false);
                        }
                    },
                }
            } else {
                proof {
                    assert(s_mix_one(cur, step as int) == cur);
                }
            }
            step = step + 1;
        }
        round = round + 1;
    }
}

proof fn lemma_mix_rounds_small(s: Seq<(i64, usize)>, n: int, rounds: int)
    requires
        vals_small(s),
    ensures
        vals_small(s_mix_rounds(s, n, rounds)),
    decreases rounds,
{
    if rounds > 0 {
        lemma_mix_rounds_small(s, n, rounds - 1);
        lemma_mix_pass_small(s_mix_rounds(s, n, rounds - 1), n);
    }
}

/// The listing's numbers, each tagged with its line number; values
/// beyond a million are past the solver's capacity.
pub open spec fn s_listing(lines: Seq<Seq<u8>>, n: int) -> Option<Seq<(i64, usize)>>
    decreases n,
{
    if n <= 0 {
        Some(Seq::empty())
    } else {
        match (s_listing(lines, n - 1), s_signed_val(lines[n - 1], 1000000)) {
            (Some(s), Some(v)) => Some(s.push((v as i64, (n - 1) as usize))),
            _ => None,
        }
    }
}

/// The grove coordinates: the values a thousand, two thousand and
/// three thousand places past the zero, summed; `None` without a zero.
pub open spec fn s_groove(s: Seq<(i64, usize)>) -> Option<int> {
    let f = s_find_zero(s);
    if f == s.len() {
        None
    } else {
        Some(
            s[(f + 1000) % (s.len() as int)].0 + s[(f + 2000) % (s.len() as int)].0 + s[(f + 3000)
                % (s.len() as int)].0,
        )
    }
}

pub open spec fn s_find_zero(s: Seq<(i64, usize)>) -> int
    decreases s.len(),
{
    if s.len() == 0 {
        0
    } else if s[0].0 == 0 {
        0
    } else {
        1 + s_find_zero(s.skip(1))
    }
}

proof fn lemma_find_zero_le(s: Seq<(i64, usize)>)
    ensures
        0 <= s_find_zero(s) <= s.len(),
    decreases s.len(),
{
    if s.len() > 0 && s[0].0 != 0 {
        lemma_find_zero_le(s.skip(1));
    }
}

proof fn lemma_find_zero_at(s: Seq<(i64, usize)>, j: int)
    requires
        0 <= j <= s.len(),
        j == s.len() || s[j].0 == 0,
        forall|k: int| 0 <= k < j ==> (#[trigger] s[k]).0 != 0,
    ensures
        s_find_zero(s) == j,
    decreases s.len(),
{
    if s.len() > 0 && s[0].0 != 0 {
        assert(j >= 1);
        lemma_find_zero_at(s.skip(1), j - 1);
    }
}

/// Reads the coordinates off a mixed listing.
fn groove(list: &linked_list::LinkedList<(i64, usize)>) -> (r: Option<i64>)
    requires
        vals_small(ll_contents(*list)),
        ll_contents(*list).len() <= 1000000,
    ensures
        match r {
            Some(v) => s_groove(ll_contents(*list)) == Some(v as int),
            None => s_groove(ll_contents(*list)) is None,
        },
{
    let ghost cur = ll_contents(*list);
    let items = ll_to_vec(list);
    let len = items.len();
    let mut f: usize = 0;
    while f < len && items[f].0 != 0
        invariant
            f <= len,
            len == items@.len(),
            items@ == cur,
            forall|k: int| 0 <= k < f ==> (#[trigger] cur[k]).0 != 0,
        decreases len - f,
    {
        f = f + 1;
    }
    proof {
        lemma_find_zero_at(cur, f as int);
    }
    if f == len {
        return None;
    }
    let ia = (f + 1000) % len;
    let ib = (f + 2000) % len;
    let ic = (f + 3000) % len;
    let a = items[ia];
    let b = items[ib];
    let c = items[ic];
    proof {
        assert(ia as int == (f as int + 1000) % (cur.len() as int));
        assert(ib as int == (f as int + 2000) % (cur.len() as int));
        assert(ic as int == (f as int + 3000) % (cur.len() as int));
    }
    Some(a.0 + b.0 + c.0)
}

/// What both parts share: read the listing, scale it, mix it for the
/// given number of rounds, read the coordinates.
fn solve(inp: &str, scale: i64, rounds: usize) -> (r: Option<i64>)
    requires
        -811589153 <= scale <= 811589153,
        scale != 0,
    ensures
        ({
            let lines = s_split(inp.spec_bytes(), 10);
            match s_listing(lines, lines.len() as int) {
                Some(s0) => {
                    let scaled = s_scaled(s0, scale as int);
                    if s0.len() <= 1000000 {
                        match s_groove(
                            s_mix_rounds(scaled, scaled.len() as int, rounds as int),
                        ) {
                            Some(v) => r is Some && r->0 as int == v,
                            None => r is None,
                        }
                    } else {
                        r is None
                    }
                },
                None => r is None,
            }
        }),
{
    let bytes: Vec<u8> = inp.as_bytes_vec();
    let pieces = split(&bytes, 10);
    let ghost lines = s_split(bytes@, 10);
    let n = pieces.len();
    if n > 1000000 {
        proof {
            lemma_listing_len(lines, n as int);
        }
        return None;
    }
    let mut list = ll_new();
    let mut k: usize = 0;
    proof {
        assert(s_scaled(Seq::empty(), scale as int) =~= Seq::<(i64, usize)>::empty());
    }
    while k < n
        invariant
            k <= n,
            n == lines.len() <= 1000000,
            bytes@ == inp.spec_bytes(),
            lines == s_split(bytes@, 10),
            pieces@.len() == n,
            -811589153 <= scale <= 811589153,
            scale != 0,
            forall|j: int|
                0 <= j < n ==> {
                    &&& #[trigger] pieces@[j].0 <= pieces@[j].1 <= bytes@.len()
                    &&& bytes@.subrange(pieces@[j].0 as int, pieces@[j].1 as int) == lines[j]
                },
            s_listing(lines, k as int) is Some,
            ll_contents(list) == s_scaled(s_listing(lines, k as int)->Some_0, scale as int),
            ll_contents(list).len() == k,
            vals_small(ll_contents(list)),
        decreases n - k,
    {
        let (lo, hi) = pieces[k];
        let v = parse_signed(&bytes, lo, hi, 1000000);
        match v {
            None => {
                proof {
                    assert(s_listing(lines, k as int + 1) is None);
                    lemma_listing_none(lines, k as int, n as int);
                }
                return None;
            },
            Some(v) => {
                let ghost pre = ll_contents(list);
                proof {
                    assert(-0x4_0000_0000_0000 <= v as int * scale as int <= 0x4_0000_0000_0000)
                        by (nonlinear_arith)
                        requires
                            -1000000 <= v as int <= 1000000,
                            -811589153 <= scale as int <= 811589153;
                }
                let scaled = v * scale;
                proof {
                    let s_prev = s_listing(lines, k as int)->Some_0;
                    let s_now = s_listing(lines, k as int + 1)->Some_0;
                    assert(s_now == s_prev.push((v, k as usize)));
                    assert(s_scaled(s_now, scale as int) =~= s_scaled(s_prev, scale as int).push(
                        (scaled, k as usize),
                    ));
                }
                ll_push_back(&mut list, (scaled, k));
            },
        }
        k = k + 1;
    }
    mix(&mut list, rounds);
    proof {
        lemma_mix_rounds_len(
            s_scaled(s_listing(lines, n as int)->Some_0, scale as int),
            n as int,
            rounds as int,
        );
        lemma_mix_rounds_small(
            s_scaled(s_listing(lines, n as int)->Some_0, scale as int),
            n as int,
            rounds as int,
        );
    }
    groove(&list)
}

proof fn lemma_listing_none(lines: Seq<Seq<u8>>, k: int, n: int)
    requires
        0 <= k < n,
        s_listing(lines, k + 1) is None,
    ensures
        s_listing(lines, n) is None,
    decreases n - k,
{
    if k + 1 < n {
        lemma_listing_none(lines, k + 1, n);
    }
}

proof fn lemma_listing_len(lines: Seq<Seq<u8>>, n: int)
    requires
        n >= 0,
    ensures
        s_listing(lines, n) is Some ==> s_listing(lines, n)->Some_0.len() == n,
    decreases n,
{
    if n > 0 {
        lemma_listing_len(lines, n - 1);
    }
}

/// The grove coordinates after one mixing pass.
pub fn prob1(inp: &str) -> (r: Option<i64>)
    ensures
        ({
            let lines = s_split(inp.spec_bytes(), 10);
            match s_listing(lines, lines.len() as int) {
                Some(s0) => {
                    let scaled = s_scaled(s0, 1);
                    if s0.len() <= 1000000 {
                        match s_groove(s_mix_rounds(scaled, scaled.len() as int, 1)) {
                            Some(v) => r is Some && r->0 as int == v,
                            None => r is None,
                        }
                    } else {
                        r is None
                    }
                },
                None => r is None,
            }
        }),
{
    solve(inp, 1, 1)
}

/// The grove coordinates after scaling by the decryption key and
/// mixing ten times.
pub fn prob2(inp: &str) -> (r: Option<i64>)
    ensures
        ({
            let lines = s_split(inp.spec_bytes(), 10);
            match s_listing(lines, lines.len() as int) {
                Some(s0) => {
                    let scaled = s_scaled(s0, 811589153);
                    if s0.len() <= 1000000 {
                        match s_groove(s_mix_rounds(scaled, scaled.len() as int, 10)) {
                            Some(v) => r is Some && r->0 as int == v,
                            None => r is None,
                        }
                    } else {
                        r is None
                    }
                },
                None => r is None,
            }
        }),
{
    solve(inp, 811589153, 10)
}

} // verus!
