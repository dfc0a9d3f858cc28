//! Splitting byte strings on a separator, shared by the solvers' parsers.

use vstd::prelude::*;

verus! {

/// Position of the first `sep` in `bs`, or `bs.len()` if there is none.
pub open spec fn s_find(bs: Seq<u8>, sep: u8) -> nat
    decreases bs.len(),
{
    if bs.len() == 0 {
        0
    } else if bs[0] == sep {
        0
    } else {
        1 + s_find(bs.skip(1), sep)
    }
}

pub proof fn lemma_find_le(bs: Seq<u8>, sep: u8)
    ensures
        s_find(bs, sep) <= bs.len(),
    decreases bs.len(),
{
    if bs.len() > 0 && bs[0] != sep {
        lemma_find_le(bs.skip(1), sep);
    }
}

/// `s_find` names the first position holding `sep`.
pub proof fn lemma_find_at(bs: Seq<u8>, sep: u8, j: int)
    requires
        0 <= j <= bs.len(),
        j == bs.len() || bs[j] == sep,
        forall|k: int| 0 <= k < j ==> bs[k] != sep,
    ensures
        s_find(bs, sep) == j,
    decreases bs.len(),
{
    if bs.len() > 0 && bs[0] != sep {
        assert(j >= 1);
        lemma_find_at(bs.skip(1), sep, j - 1);
    }
}

/// The pieces of `bs` between occurrences of `sep`; one more piece than
/// there are separators, so an empty string has one empty piece.
pub open spec fn s_split(bs: Seq<u8>, sep: u8) -> Seq<Seq<u8>>
    decreases bs.len(),
    via s_split_dec
{
    let i = s_find(bs, sep) as int;
    if i == bs.len() {
        seq![bs]
    } else {
        seq![bs.take(i)] + s_split(bs.skip(i + 1), sep)
    }
}

#[via_fn]
proof fn s_split_dec(bs: Seq<u8>, sep: u8) {
    lemma_find_le(bs, sep);
}

/// Splits `bs` on `sep`, returning the bounds of each piece.
#[verifier::rlimit(30)]
pub fn split(bs: &Vec<u8>, sep: u8) -> (r: Vec<(usize, usize)>)
    ensures
        r@.len() == s_split(bs@, sep).len(),
        forall|k: int|
            0 <= k < r@.len() ==> {
                &&& #[trigger] r@[k].0 <= r@[k].1 <= bs@.len()
                &&& bs@.subrange(r@[k].0 as int, r@[k].1 as int) == s_split(bs@, sep)[k]
            },
{
    let n = bs.len();
    let mut out: Vec<(usize, usize)> = Vec::new();
    let mut start: usize = 0;
    let mut i: usize = 0;
    proof {
        assert(bs@.skip(0) =~= bs@);
        assert(spec_pieces(bs@, Seq::empty()) =~= Seq::<Seq<u8>>::empty());
    }
    while i < n
        invariant
            start <= i <= n,
            n == bs@.len(),
            forall|k: int| start <= k < i ==> bs@[k] != sep,
            s_split(bs@, sep) =~= spec_pieces(bs@, out@) + s_split(bs@.skip(start as int), sep),
            forall|k: int| 0 <= k < out@.len() ==> #[trigger] out@[k].0 <= out@[k].1 <= bs@.len(),
        decreases n - i,
    {
        if bs[i] == sep {
            let ghost rest = bs@.skip(start as int);
            proof {
                lemma_find_at(rest, sep, i - start);
                assert(rest.take(i - start) =~= bs@.subrange(start as int, i as int));
                assert(rest.skip(i - start + 1) =~= bs@.skip(i + 1));
                assert(spec_pieces(bs@, out@.push((start, i))) =~= spec_pieces(bs@, out@).push(
                    bs@.subrange(start as int, i as int),
                ));
                assert(spec_pieces(bs@, out@).push(bs@.subrange(start as int, i as int))
                    + s_split(bs@.skip(i + 1), sep) =~= spec_pieces(bs@, out@) + (seq![
                    bs@.subrange(start as int, i as int),
                ] + s_split(bs@.skip(i + 1), sep)));
            }
            out.push((start, i));
            start = i + 1;
        }
        i = i + 1;
    }
    let ghost rest = bs@.skip(start as int);
    proof {
        lemma_find_at(rest, sep, n - start);
        assert(rest.take(n - start) =~= rest);
        assert(s_split(rest, sep) == seq![rest]);
        assert(spec_pieces(bs@, out@.push((start, n))) =~= spec_pieces(bs@, out@).push(
            bs@.subrange(start as int, n as int),
        ));
        assert(bs@.subrange(start as int, n as int) =~= rest);
        assert(spec_pieces(bs@, out@) + seq![rest] =~= spec_pieces(bs@, out@).push(rest));
    }
    out.push((start, n));
    proof {
        assert(s_split(bs@, sep) =~= spec_pieces(bs@, out@));
        assert forall|k: int|
            0 <= k < out@.len() implies bs@.subrange(out@[k].0 as int, out@[k].1 as int)
            == s_split(bs@, sep)[k] by {
            assert(s_split(bs@, sep)[k] == spec_pieces(bs@, out@)[k]);
            assert(spec_pieces(bs@, out@)[k] == bs@.subrange(out@[k].0 as int, out@[k].1 as int));
        }
    }
    out
}

/// The byte strings the recorded bounds stand for.
pub open spec fn spec_pieces(bs: Seq<u8>, ranges: Seq<(usize, usize)>) -> Seq<Seq<u8>> {
    ranges.map(|k: int, p: (usize, usize)| bs.subrange(p.0 as int, p.1 as int))
}

pub open spec fn is_digit(b: u8) -> bool {
    48 <= b <= 57
}

/// The decimal value of a run of digit bytes.
pub open spec fn s_dec(ds: Seq<u8>) -> int
    decreases ds.len(),
{
    if ds.len() == 0 {
        0
    } else {
        s_dec(ds.take(ds.len() - 1)) * 10 + (ds.last() - 48)
    }
}

/// The length of the digit prefix of `bs`.
pub open spec fn s_run_len(bs: Seq<u8>) -> nat
    decreases bs.len(),
{
    if bs.len() == 0 || !is_digit(bs[0]) {
        0
    } else {
        1 + s_run_len(bs.skip(1))
    }
}

pub proof fn lemma_run_len_le(bs: Seq<u8>)
    ensures
        s_run_len(bs) <= bs.len(),
    decreases bs.len(),
{
    if bs.len() > 0 && is_digit(bs[0]) {
        lemma_run_len_le(bs.skip(1));
    }
}

/// The values of the maximal digit runs of `bs`, in order.
pub open spec fn s_nums(bs: Seq<u8>) -> Seq<int>
    decreases bs.len(),
    via s_nums_dec
{
    if bs.len() == 0 {
        Seq::empty()
    } else if !is_digit(bs[0]) {
        s_nums(bs.skip(1))
    } else {
        let e = s_run_len(bs) as int;
        seq![s_dec(bs.take(e))] + s_nums(bs.skip(e))
    }
}

#[via_fn]
proof fn s_nums_dec(bs: Seq<u8>) {
    lemma_run_len_le(bs);
}

/// `s_run_len` names the first non-digit position.
proof fn lemma_run_len_at(bs: Seq<u8>, j: int)
    requires
        0 <= j <= bs.len(),
        j == bs.len() || !is_digit(bs[j]),
        forall|k: int| 0 <= k < j ==> is_digit(#[trigger] bs[k]),
    ensures
        s_run_len(bs) == j,
    decreases bs.len(),
{
    if bs.len() > 0 && is_digit(bs[0]) {
        assert(j >= 1);
        lemma_run_len_at(bs.skip(1), j - 1);
    }
}

/// Digit values never shrink as digits are appended.
pub proof fn lemma_dec_prefix(ds: Seq<u8>, j: int)
    requires
        0 <= j <= ds.len(),
        forall|k: int| 0 <= k < ds.len() ==> is_digit(#[trigger] ds[k]),
    ensures
        0 <= s_dec(ds.take(j)) <= s_dec(ds),
    decreases ds.len() - j,
{
    lemma_dec_nonneg(ds.take(j));
    if j < ds.len() {
        lemma_dec_prefix(ds, j + 1);
        assert(ds.take(j + 1).take(j) =~= ds.take(j));
        assert(s_dec(ds.take(j + 1)) == s_dec(ds.take(j)) * 10 + (ds[j] - 48));
        lemma_dec_nonneg(ds.take(j));
        assert(s_dec(ds.take(j)) * 10 >= s_dec(ds.take(j))) by (nonlinear_arith)
            requires s_dec(ds.take(j)) >= 0;
    } else {
        assert(ds.take(j) =~= ds);
    }
}

proof fn lemma_dec_nonneg(ds: Seq<u8>)
    requires
        forall|k: int| 0 <= k < ds.len() ==> is_digit(#[trigger] ds[k]),
    ensures
        s_dec(ds) >= 0,
    decreases ds.len(),
{
    if ds.len() > 0 {
        assert(forall|k: int|
            0 <= k < ds.len() - 1 ==> is_digit(#[trigger] ds.take(ds.len() - 1)[k]));
        lemma_dec_nonneg(ds.take(ds.len() - 1));
        assert(s_dec(ds) == s_dec(ds.take(ds.len() - 1)) * 10 + (ds.last() - 48));
        assert(s_dec(ds.take(ds.len() - 1)) * 10 >= 0) by (nonlinear_arith)
            requires s_dec(ds.take(ds.len() - 1)) >= 0;
    }
}

/// Reads every number of `bs[lo..hi]`; numbers beyond `limit` make the
/// text unreadable.
pub fn parse_numbers(bs: &Vec<u8>, lo: usize, hi: usize, limit: i64) -> (r: Option<Vec<i64>>)
    requires
        lo <= hi <= bs@.len(),
        0 < limit <= 1000000,
    ensures
        match r {
            Some(v) => {
                &&& v@.map_values(|x: i64| x as int) == s_nums(bs@.subrange(lo as int, hi as int))
                &&& forall|j: int| 0 <= j < v@.len() ==> 0 <= #[trigger] v@[j] <= limit
            },
            None => exists|j: int|
                0 <= j < s_nums(bs@.subrange(lo as int, hi as int)).len() && #[trigger] s_nums(
                    bs@.subrange(lo as int, hi as int),
                )[j] > limit,
        },
{
    let ghost whole = bs@.subrange(lo as int, hi as int);
    let mut out: Vec<i64> = Vec::new();
    let mut i: usize = lo;
    proof {
        assert(whole.skip(0) =~= whole);
        assert(out@.map_values(|x: i64| x as int) =~= Seq::<int>::empty());
    }
    while i < hi
        invariant
            lo <= i <= hi <= bs@.len(),
            0 < limit <= 1000000,
            whole == bs@.subrange(lo as int, hi as int),
            s_nums(whole) == out@.map_values(|x: i64| x as int) + s_nums(
                bs@.subrange(i as int, hi as int),
            ),
            forall|j: int| 0 <= j < out@.len() ==> 0 <= #[trigger] out@[j] <= limit,
        decreases hi - i,
    {
        let b = bs[i];
        if !(48 <= b && b <= 57) {
            proof {
                let rest = bs@.subrange(i as int, hi as int);
                assert(rest.skip(1) =~= bs@.subrange(i + 1, hi as int));
                assert(s_nums(rest) == s_nums(bs@.subrange(i + 1, hi as int)));
            }
            i = i + 1;
        } else {
            let start = i;
            let ghost rest = bs@.subrange(start as int, hi as int);
            let mut acc: i64 = 0;
            proof {
                assert(rest.take(0) =~= Seq::<u8>::empty());
            }
            while i < hi && 48 <= bs[i] && bs[i] <= 57
                invariant
                    lo <= start <= i <= hi <= bs@.len(),
                    0 < limit <= 1000000,
                    whole == bs@.subrange(lo as int, hi as int),
                    rest == bs@.subrange(start as int, hi as int),
                    s_nums(whole) == out@.map_values(|x: i64| x as int) + s_nums(rest),
                    forall|k: int| 0 <= k < i - start ==> is_digit(#[trigger] rest[k]),
                    0 <= acc <= limit,
                    acc as int == s_dec(rest.take(i - start)),
                    is_digit(rest[0]),
                decreases hi - i,
            {
                let d = bs[i] - 48;
                proof {
                    assert(rest.take(i - start + 1).take(i - start) =~= rest.take(i - start));
                    assert(rest.take(i - start + 1).last() == bs@[i as int]);
                    assert(s_dec(rest.take(i - start + 1)) == acc as int * 10 + (bs@[i as int]
                        - 48));
                }
                let big = acc * 10 + d as i64;
                if big > limit {
                    proof {
                        let e = s_run_len(rest) as int;
                        lemma_run_len_le(rest);
                        lemma_run_len_ge(rest, i - start + 1);
                        lemma_run_digits(rest);
                        let run = rest.take(e);
                        assert(forall|k: int| 0 <= k < run.len() ==> is_digit(#[trigger] run[k]));
                        assert(run.take(i - start + 1) =~= rest.take(i - start + 1));
                        lemma_dec_prefix(run, i - start + 1);
                        assert(s_dec(run) >= s_dec(run.take(i - start + 1)));
                        assert(s_nums(rest) == seq![s_dec(run)] + s_nums(rest.skip(e)));
                        assert(s_nums(rest)[0] == s_dec(run));
                        let done = out@.map_values(|x: i64| x as int);
                        assert(s_nums(whole)[done.len() as int] == s_nums(rest)[0]);
                        assert(s_nums(whole)[done.len() as int] > limit);
                    }
                    return None;
                }
                acc = big;
                i = i + 1;
            }
            let ghost e = i - start;
            proof {
                lemma_run_len_at(rest, e as int);
                assert(rest.take(e as int).len() == e);
                assert(s_nums(rest) == seq![s_dec(rest.take(e as int))] + s_nums(
                    rest.skip(e as int),
                ));
                assert(rest.skip(e as int) =~= bs@.subrange(i as int, hi as int));
            }
            let ghost out0 = out@;
            out.push(acc);
            proof {
                assert(out@.map_values(|x: i64| x as int) =~= out0.map_values(|x: i64| x as int)
                    + seq![acc as int]);
                assert(out0.map_values(|x: i64| x as int) + (seq![acc as int] + s_nums(
                    bs@.subrange(i as int, hi as int),
                )) =~= (out0.map_values(|x: i64| x as int) + seq![acc as int]) + s_nums(
                    bs@.subrange(i as int, hi as int),
                ));
            }
        }
    }
    proof {
        assert(s_nums(bs@.subrange(i as int, hi as int)) =~= Seq::<int>::empty());
        assert(out@.map_values(|x: i64| x as int) + Seq::<int>::empty() =~= out@.map_values(
            |x: i64| x as int,
        ));
    }
    Some(out)
}

/// A digit prefix of length `m` keeps the run at least that long.
proof fn lemma_run_len_ge(bs: Seq<u8>, m: int)
    requires
        0 <= m <= bs.len(),
        forall|k: int| 0 <= k < m ==> is_digit(#[trigger] bs[k]),
    ensures
        s_run_len(bs) >= m,
    decreases m,
{
    if m > 0 {
        lemma_run_len_ge(bs.skip(1), m - 1);
    }
}

/// Everything inside the digit run is a digit.
proof fn lemma_run_digits(bs: Seq<u8>)
    ensures
        forall|k: int| 0 <= k < s_run_len(bs) ==> is_digit(#[trigger] bs[k]),
    decreases bs.len(),
{
    if bs.len() > 0 && is_digit(bs[0]) {
        lemma_run_digits(bs.skip(1));
        lemma_run_len_le(bs);
        assert forall|k: int| 0 <= k < s_run_len(bs) implies is_digit(#[trigger] bs[k]) by {
            if k >= 1 {
                assert(bs.skip(1)[k - 1] == bs[k]);
            }
        }
    }
}


/// The index of the first empty line, or the line count: reading stops
/// at a blank line.
pub open spec fn s_stop(lines: Seq<Seq<u8>>) -> int
    decreases lines.len(),
{
    if lines.len() == 0 {
        0
    } else if lines[0].len() == 0 {
        0
    } else {
        1 + s_stop(lines.skip(1))
    }
}

/// `s_stop` names the first empty line.
pub proof fn lemma_stop_at(lines: Seq<Seq<u8>>, j: int)
    requires
        0 <= j <= lines.len(),
        j == lines.len() || lines[j].len() == 0,
        forall|k: int| 0 <= k < j ==> (#[trigger] lines[k]).len() != 0,
    ensures
        s_stop(lines) == j,
    decreases lines.len(),
{
    if lines.len() > 0 && lines[0].len() != 0 {
        assert(j >= 1);
        lemma_stop_at(lines.skip(1), j - 1);
    }
}

pub open spec fn s_digits_of(line: Seq<u8>) -> Seq<u8> {
    if line.len() > 0 && line[0] == 45 {
        line.skip(1)
    } else {
        line
    }
}

pub open spec fn s_digits_ok(ds: Seq<u8>, limit: int) -> bool {
    &&& ds.len() > 0
    &&& forall|k: int| 0 <= k < ds.len() ==> is_digit(#[trigger] ds[k])
    &&& s_dec(ds) <= limit
}

pub open spec fn s_signed_val(line: Seq<u8>, limit: int) -> Option<int> {
    if s_digits_ok(s_digits_of(line), limit) {
        if line.len() > 0 && line[0] == 45 {
            Some(-s_dec(s_digits_of(line)))
        } else {
            Some(s_dec(s_digits_of(line)))
        }
    } else {
        None
    }
}

/// Reads one signed decimal number: an optional minus sign, then
/// digits, nothing else.
pub fn parse_signed(bs: &Vec<u8>, lo: usize, hi: usize, limit: i64) -> (r: Option<i64>)
    requires
        lo <= hi <= bs@.len(),
        0 < limit <= 0x7fff_ffff,
    ensures
        match r {
            Some(v) => s_signed_val(bs@.subrange(lo as int, hi as int), limit as int) == Some(
                v as int,
            ) && -limit <= v <= limit,
            None => s_signed_val(bs@.subrange(lo as int, hi as int), limit as int) is None,
        },
{
    let ghost line = bs@.subrange(lo as int, hi as int);
    let neg = lo < hi && bs[lo] == 45;
    let start = if neg {
        lo + 1
    } else {
        lo
    };
    let ghost digits = if neg {
        line.skip(1)
    } else {
        line
    };
    proof {
        if lo < hi {
            assert(line[0] == bs@[lo as int]);
        }
        assert(digits =~= bs@.subrange(start as int, hi as int));
    }
    if start == hi {
        return None;
    }
    let mut acc: i64 = 0;
    let mut i: usize = start;
    proof {
        assert(digits.take(0) =~= Seq::<u8>::empty());
    }
    while i < hi
        invariant
            lo <= start <= i <= hi <= bs@.len(),
            line == bs@.subrange(lo as int, hi as int),
            digits == bs@.subrange(start as int, hi as int),
            digits == s_digits_of(line),
            neg == (line.len() > 0 && line[0] == 45),
            forall|k: int| 0 <= k < i - start ==> is_digit(#[trigger] digits[k]),
            0 < limit <= 0x7fff_ffff,
            0 <= acc <= limit,
            acc as int == s_dec(digits.take(i - start)),
        decreases hi - i,
    {
        let b = bs[i];
        if !(48 <= b && b <= 57) {
            proof {
                assert(s_digits_of(line) == digits);
                assert(digits[i - start] == bs@[i as int]);
                assert(!is_digit(s_digits_of(line)[i - start]));
                assert(!s_digits_ok(s_digits_of(line), limit as int));
            }
            return None;
        }
        proof {
            assert(digits.take(i - start + 1).take(i - start) =~= digits.take(i - start));
            assert(digits.take(i - start + 1).last() == bs@[i as int]);
        }
        let big = acc * 10 + (b - 48) as i64;
        if big > limit {
            proof {
                assert(digits.take(hi - start) =~= digits);
                if forall|k: int| 0 <= k < digits.len() ==> is_digit(#[trigger] digits[k]) {
                    lemma_dec_prefix(digits, i - start + 1);
                    assert(s_dec(s_digits_of(line)) > limit as int);
                }
                assert(!s_digits_ok(s_digits_of(line), limit as int));
            }
            return None;
        }
        acc = big;
        i = i + 1;
    }
    proof {
        assert(digits.take(hi - start) =~= digits);
    }
    if neg {
        Some(-acc)
    } else {
        Some(acc)
    }
}

} // verus!
