//! Balanced base-five numerals: reading them, adding them up, and writing
//! the total back out in the same notation.

use crate::text::s_split;
use crate::text::split;
use vstd::prelude::*;
use vstd::string::StrSliceExecFns;
use vstd::string::StringExecFns;
use vstd::string::StringSliceAdditionalSpecFns;

verus! {

/// A number written in balanced base five: `values[i]` is the digit of
/// weight `5^i` and lies in `-2 ..= 2`.
pub struct Snafu {
    pub values: Vec<i64>,
}

pub open spec fn digit_ok(d: i64) -> bool {
    -2 <= d && d <= 2
}

pub open spec fn snafu_wf(ds: Seq<i64>) -> bool {
    forall|i: int| 0 <= i < ds.len() ==> digit_ok(#[trigger] ds[i])
}

/// Numeric value of a little-endian balanced-base-five digit string.
pub open spec fn snafu_val(ds: Seq<i64>) -> int
    decreases ds.len(),
{
    if ds.len() == 0 {
        0
    } else {
        ds[0] + 5 * snafu_val(ds.skip(1))
    }
}

pub open spec fn pow5(n: nat) -> int
    decreases n,
{
    if n == 0 {
        1
    } else {
        5 * pow5((n - 1) as nat)
    }
}

/// The digit a byte of the textual form stands for, if any.
pub open spec fn s_digit_of_byte(b: u8) -> Option<i64> {
    if b == 50 {
        Some(2i64)
    } else if b == 49 {
        Some(1i64)
    } else if b == 48 {
        Some(0i64)
    } else if b == 45 {
        Some(-1i64)
    } else if b == 61 {
        Some(-2i64)
    } else {
        None
    }
}

pub open spec fn s_char_of_digit(d: i64) -> char {
    if d == 2 {
        '2'
    } else if d == 1 {
        '1'
    } else if d == 0 {
        '0'
    } else if d == -1 {
        '-'
    } else {
        '='
    }
}

/// Digits (little-endian) of a byte string read most-significant first;
/// `None` if some byte is not a digit.
pub open spec fn s_parse_digits(bs: Seq<u8>) -> Option<Seq<i64>>
    decreases bs.len(),
{
    if bs.len() == 0 {
        Some(Seq::empty())
    } else {
        match (s_parse_digits(bs.take(bs.len() - 1)), s_digit_of_byte(bs.last())) {
            (Some(rest), Some(d)) => Some(seq![d] + rest),
            _ => None,
        }
    }
}

proof fn lemma_pow5_pos(n: nat)
    ensures
        pow5(n) >= 1,
    decreases n,
{
    if n > 0 {
        lemma_pow5_pos((n - 1) as nat);
    }
}

/// Appending a digit at the high end adds its weighted value.
proof fn lemma_val_push(ds: Seq<i64>, d: i64)
    ensures
        snafu_val(ds.push(d)) == snafu_val(ds) + d * pow5(ds.len()),
    decreases ds.len(),
{
    if ds.len() == 0 {
        assert(ds.push(d).skip(1) =~= Seq::<i64>::empty());
        assert(ds.push(d)[0] == d);
        assert(snafu_val(ds.push(d)) == d + 5 * snafu_val(Seq::<i64>::empty()));
        assert(snafu_val(Seq::<i64>::empty()) == 0);
        assert(pow5(0) == 1);
        assert(d * pow5(0) == d) by (nonlinear_arith)
            requires pow5(0) == 1;
    } else {
        let n = ds.len();
        assert(ds.push(d).skip(1) =~= ds.skip(1).push(d));
        lemma_val_push(ds.skip(1), d);
        assert(ds.push(d)[0] == ds[0]);
        assert(snafu_val(ds.push(d)) == ds[0] + 5 * snafu_val(ds.skip(1).push(d)));
        assert(snafu_val(ds.skip(1).push(d)) == snafu_val(ds.skip(1)) + d * pow5((n - 1) as nat));
        assert(pow5(n) == 5 * pow5((n - 1) as nat));
        assert(5 * (d * pow5((n - 1) as nat)) == d * pow5(n)) by (nonlinear_arith)
            requires pow5(n) == 5 * pow5((n - 1) as nat);
        assert(snafu_val(ds) == ds[0] + 5 * snafu_val(ds.skip(1)));
        assert(snafu_val(ds.push(d)) == ds[0] + 5 * (snafu_val(ds.skip(1)) + d * pow5(
            (n - 1) as nat,
        )));
    }
}

/// Well-formed digit strings are bounded by half the next power of five.
proof fn lemma_val_bound(ds: Seq<i64>)
    requires
        snafu_wf(ds),
    ensures
        -(pow5(ds.len()) - 1) <= 2 * snafu_val(ds) <= pow5(ds.len()) - 1,
    decreases ds.len(),
{
    if ds.len() > 0 {
        assert(snafu_wf(ds.skip(1)));
        lemma_val_bound(ds.skip(1));
    }
}

impl Snafu {
    /// Reads a numeral from text; every byte must be one of the five digit
    /// marks. The first byte of the text is the most significant digit.
    pub fn from_str(s: &str) -> (r: Option<Snafu>)
        ensures
            match r {
                Some(n) => Some(n.values@) == s_parse_digits(s.spec_bytes()),
                None => s_parse_digits(s.spec_bytes()) is None,
            },
    {
        let bytes: Vec<u8> = s.as_bytes_vec();
        proof {
            assert(bytes@.subrange(0, bytes@.len() as int) =~= bytes@);
        }
        parse_digit_run(&bytes, 0, bytes.len())
    }

    /// The numeric value of this numeral. Numerals longer than 27 digits
    /// can overflow the machine word and are left out.
    pub fn to_i64(&self) -> (r: i64)
        requires
            snafu_wf(self.values@),
            self.values@.len() <= 27,
        ensures
            r as int == snafu_val(self.values@),
    {
        let ghost ds = self.values@;
        let n = self.values.len();
        let mut res: i64 = 0;
        let mut k: usize = 0;
        proof {
            assert(ds.skip(n as int) =~= Seq::<i64>::empty());
        }
        while k < n
            invariant
                k <= n,
                n == ds.len() <= 27,
                snafu_wf(ds),
                self.values@ == ds,
                res as int == snafu_val(ds.skip(n - k)),
            decreases n - k,
        {
            let ghost j = n - k - 1;
            let d = self.values[n - 1 - k];
            proof {
                assert(snafu_wf(ds.skip(j)));
                assert(snafu_wf(ds.skip(j + 1)));
                lemma_val_bound(ds.skip(j + 1));
                lemma_pow5_monotonic(ds.skip(j + 1).len(), 26);
                reveal_with_fuel(pow5, 28);
                assert(ds.skip(j)[0] == ds[j]);
                assert(ds.skip(j).skip(1) =~= ds.skip(j + 1));
            }
            res = res * 5 + d;
            k = k + 1;
        }
        proof {
            assert(ds.skip(0) =~= ds);
        }
        res
    }

    /// Writes the numeral out, most significant digit first.
    pub fn to_string(&self) -> (r: String)
        requires
            snafu_wf(self.values@),
        ensures
            r@.len() == self.values@.len(),
            forall|i: int|
                0 <= i < r@.len() ==> r@[i] == s_char_of_digit(
                    self.values@[self.values@.len() - 1 - i],
                ),
    {
        proof {
            reveal_strlit("2");
            reveal_strlit("1");
            reveal_strlit("0");
            reveal_strlit("-");
            reveal_strlit("=");
        }
        let n = self.values.len();
        let mut out = String::new();
        let mut k: usize = 0;
        while k < n
            invariant
                k <= n,
                n == self.values@.len(),
                snafu_wf(self.values@),
                out@.len() == k,
                forall|i: int|
                    0 <= i < k ==> out@[i] == s_char_of_digit(self.values@[n - 1 - i]),
                "2"@ =~= seq!['2'],
                "1"@ =~= seq!['1'],
                "0"@ =~= seq!['0'],
                "-"@ =~= seq!['-'],
                "="@ =~= seq!['='],
            decreases n - k,
        {
            let d = self.values[n - 1 - k];
            if d == 2 {
                out.append("2");
            } else if d == 1 {
                out.append("1");
            } else if d == 0 {
                out.append("0");
            } else if d == -1 {
                out.append("-");
            } else {
                out.append("=");
            }
            k = k + 1;
        }
        out
    }

    /// Builds the canonical numeral of a value: no trailing zero digits,
    /// and values below one come out empty, as the source value runs dry.
    pub fn from_i64(value: i64) -> (r: Snafu)
        ensures
            snafu_wf(r.values@),
            r.values@ == s_to_snafu(value as int),
            value >= 0 ==> snafu_val(r.values@) == value,
            value <= 0 ==> r.values@.len() == 0,
            r.values@.len() > 0 ==> r.values@.last() != 0,
    {
        let mut values: Vec<i64> = Vec::new();
        let mut v = value;
        while v > 0
            invariant
                snafu_wf(values@),
                value >= 0 ==> v >= 0,
                value >= 0 ==> snafu_val(values@) + v * pow5(values@.len()) == value,
                value <= 0 ==> v == value && values@.len() == 0,
                values@.len() > 0 ==> v > 0 || values@.last() != 0,
                s_to_snafu(value as int) =~= values@ + s_to_snafu(v as int),
            decreases v,
        {
            let ghost vs0 = values@;
            let ghost len0 = values@.len();
            let ghost v0 = v as int;
            let div = v / 5;
            let rem = v % 5;
            let (d, next): (i64, i64) = if rem > 2 {
                (rem - 5, div + 1)
            } else {
                (rem, div)
            };
            values.push(d);
            proof {
                lemma_val_push(vs0, d);
                lemma_pow5_pos(len0);
                assert(d as int + 5 * (next as int) == v0);
                assert(snafu_val(values@) == snafu_val(vs0) + (d as int) * pow5(len0));
                assert((d as int) * pow5(len0) + (next as int) * pow5((len0 + 1) as nat)
                    == v0 * pow5(len0)) by (nonlinear_arith)
                    requires
                        d as int + 5 * (next as int) == v0,
                        pow5((len0 + 1) as nat) == 5 * pow5(len0);
                assert(s_to_snafu(v0) =~= seq![d] + s_to_snafu(next as int));
                assert(vs0 + (seq![d] + s_to_snafu(next as int)) =~= values@ + s_to_snafu(
                    next as int,
                ));
            }
            v = next;
        }
        proof {
            if value >= 0 {
                assert(v == 0);
                assert((v as int) * pow5(values@.len()) == 0) by (nonlinear_arith)
                    requires v == 0;
            }
        }
        Snafu { values }
    }
}

/// The canonical digit string of a value; values below one come out empty.
pub open spec fn s_to_snafu(v: int) -> Seq<i64>
    decreases v,
{
    if v <= 0 {
        Seq::empty()
    } else {
        let rem = v % 5;
        if rem > 2 {
            seq![(rem - 5) as i64] + s_to_snafu(v / 5 + 1)
        } else {
            seq![rem as i64] + s_to_snafu(v / 5)
        }
    }
}

/// The textual form of a digit string, most significant digit first.
pub open spec fn s_render(ds: Seq<i64>) -> Seq<char> {
    Seq::new(ds.len(), |i: int| s_char_of_digit(ds[ds.len() - 1 - i]))
}

/// The value a line stands for; lines beyond 27 digits overflow the
/// machine word and count as unreadable.
pub open spec fn s_line_val(line: Seq<u8>) -> Option<int> {
    match s_parse_digits(line) {
        Some(ds) => if ds.len() <= 27 {
            Some(snafu_val(ds))
        } else {
            None
        },
        None => None,
    }
}

/// Sum of the first `n` line values, or `None` where a line is unreadable
/// or a partial sum leaves the machine word.
pub open spec fn s_sum_upto(lines: Seq<Seq<u8>>, n: int) -> Option<int>
    decreases n,
{
    if n <= 0 {
        Some(0)
    } else {
        match (s_sum_upto(lines, n - 1), s_line_val(lines[n - 1])) {
            (Some(a), Some(v)) => if i64::MIN <= a + v <= i64::MAX {
                Some(a + v)
            } else {
                None
            },
            _ => None,
        }
    }
}

/// The grand total of the listed numerals, written back out as a numeral.
/// The lines of the input are summed; the total is rendered in balanced
/// base five. Unreadable lines, overlong numerals and sums that leave the
/// machine word give `None`.
pub fn prob1(inp: &str) -> (r: Option<String>)
    ensures
        match s_sum_upto(s_split(inp.spec_bytes(), 10), s_split(inp.spec_bytes(), 10).len() as int) {
            Some(total) => r is Some && r->Some_0@ == s_render(s_to_snafu(total)),
            None => r is None,
        },
{
    let bytes: Vec<u8> = inp.as_bytes_vec();
    let pieces = split(&bytes, 10);
    let ghost lines = s_split(bytes@, 10);
    let n = pieces.len();
    let mut sum: i64 = 0;
    let mut k: usize = 0;
    while k < n
        invariant
            k <= n,
            n == lines.len(),
            bytes@ == inp.spec_bytes(),
            lines == s_split(bytes@, 10),
            pieces@.len() == n,
            forall|j: int|
                0 <= j < n ==> {
                    &&& #[trigger] pieces@[j].0 <= pieces@[j].1 <= bytes@.len()
                    &&& bytes@.subrange(pieces@[j].0 as int, pieces@[j].1 as int) == lines[j]
                },
            s_sum_upto(lines, k as int) == Some(sum as int),
        decreases n - k,
    {
        let (lo, hi) = pieces[k];
        let parsed = parse_digit_run(&bytes, lo, hi);
        match parsed {
            None => {
                proof {
                    lemma_sum_upto_none(lines, k as int, n as int);
                }
                return None;
            },
            Some(numeral) => {
                if numeral.values.len() > 27 {
                    proof {
                        lemma_sum_upto_none(lines, k as int, n as int);
                    }
                    return None;
                }
                proof {
                    lemma_parse_digits_wf(lines[k as int]);
                }
                let v = numeral.to_i64();
                if (v > 0 && sum > i64::MAX - v) || (v < 0 && sum < i64::MIN - v) {
                    proof {
                        lemma_sum_upto_none(lines, k as int, n as int);
                    }
                    return None;
                }
                sum = sum + v;
            },
        }
        k = k + 1;
    }
    let total = Snafu::from_i64(sum);
    let out = total.to_string();
    proof {
        if sum > 0 {
            assert(out@ =~= s_render(s_to_snafu(sum as int)));
        } else {
            assert(s_to_snafu(sum as int) =~= Seq::<i64>::empty());
            assert(out@ =~= s_render(s_to_snafu(sum as int)));
        }
    }
    Some(out)
}

/// There is no second puzzle on the final day, so there is nothing to
/// compute here.
pub fn prob2(_inp: &str) -> (r: Option<i64>)
    ensures
        r is None,
{
    None
}

/// Once the sum is lost at line `k`, it is lost for every longer prefix.
proof fn lemma_sum_upto_none(lines: Seq<Seq<u8>>, k: int, n: int)
    requires
        0 <= k < n,
        s_sum_upto(lines, k + 1) is None,
    ensures
        s_sum_upto(lines, n) is None,
    decreases n - k,
{
    if k + 1 < n {
        lemma_sum_upto_none(lines, k + 1, n);
    }
}

/// Parsed digit strings are well formed.
proof fn lemma_parse_digits_wf(bs: Seq<u8>)
    ensures
        s_parse_digits(bs) is Some ==> snafu_wf(s_parse_digits(bs)->Some_0),
    decreases bs.len(),
{
    if bs.len() > 0 {
        lemma_parse_digits_wf(bs.take(bs.len() - 1));
    }
}

/// Monotonicity of powers of five.
proof fn lemma_pow5_monotonic(a: nat, b: nat)
    requires
        a <= b,
    ensures
        pow5(a) <= pow5(b),
    decreases b,
{
    if a < b {
        lemma_pow5_monotonic(a, (b - 1) as nat);
        lemma_pow5_pos((b - 1) as nat);
    }
}

/// Reads the digit run `bs[lo..hi]`, most significant first.
fn parse_digit_run(bs: &Vec<u8>, lo: usize, hi: usize) -> (r: Option<Snafu>)
    requires
        lo <= hi <= bs@.len(),
    ensures
        match r {
            Some(n) => Some(n.values@) == s_parse_digits(bs@.subrange(lo as int, hi as int)),
            None => s_parse_digits(bs@.subrange(lo as int, hi as int)) is None,
        },
{
    let mut values: Vec<i64> = Vec::new();
    let mut i: usize = hi;
    while i > lo
        invariant
            lo <= i <= hi <= bs@.len(),
            Some(values@) == s_parse_digits(bs@.subrange(i as int, hi as int)),
        decreases i,
    {
        i = i - 1;
        let b = bs[i];
        let d: i64 = if b == 50 {
            2
        } else if b == 49 {
            1
        } else if b == 48 {
            0
        } else if b == 45 {
            -1
        } else if b == 61 {
            -2
        } else {
            proof {
                lemma_parse_digits_bad_byte(bs@.subrange(lo as int, hi as int), i - lo);
            }
            return None;
        };
        let ghost vs0 = values@;
        values.push(d);
        proof {
            lemma_parse_prepend(bs@[i as int], bs@.subrange(i + 1, hi as int));
            assert(bs@.subrange(i as int, hi as int) =~= seq![bs@[i as int]] + bs@.subrange(
                i + 1,
                hi as int,
            ));
        }
    }
    Some(Snafu { values })
}

/// Putting one byte in front of a run prepends nothing to the digits but
/// appends its digit at the high end.
proof fn lemma_parse_prepend(x: u8, ys: Seq<u8>)
    ensures
        match (s_parse_digits(ys), s_digit_of_byte(x)) {
            (Some(v), Some(d)) => s_parse_digits(seq![x] + ys) == Some(v.push(d)),
            _ => s_parse_digits(seq![x] + ys) is None,
        },
    decreases ys.len(),
{
    let zs = seq![x] + ys;
    if ys.len() == 0 {
        assert(zs.take(zs.len() - 1) =~= Seq::<u8>::empty());
        assert(zs.last() == x);
        if s_digit_of_byte(x) is Some {
            let d = s_digit_of_byte(x)->Some_0;
            assert(seq![d] + Seq::<i64>::empty() =~= Seq::<i64>::empty().push(d));
        }
    } else {
        lemma_parse_prepend(x, ys.take(ys.len() - 1));
        assert(zs.take(zs.len() - 1) =~= seq![x] + ys.take(ys.len() - 1));
        assert(zs.last() == ys.last());
        match (s_parse_digits(ys), s_digit_of_byte(x)) {
            (Some(v), Some(d)) => {
                let front = s_parse_digits(ys.take(ys.len() - 1));
                assert(front is Some);
                let vf = front->Some_0;
                assert(s_parse_digits(zs.take(zs.len() - 1)) == Some(vf.push(d)));
                assert(s_digit_of_byte(ys.last()) is Some);
                let dl = s_digit_of_byte(ys.last())->Some_0;
                assert(v == seq![dl] + vf);
                assert(seq![dl] + vf.push(d) =~= (seq![dl] + vf).push(d));
            },
            _ => {},
        }
    }
}

/// A digit run containing a non-digit byte does not parse.
proof fn lemma_parse_digits_bad_byte(bs: Seq<u8>, i: int)
    requires
        0 <= i < bs.len(),
        s_digit_of_byte(bs[i]) is None,
    ensures
        s_parse_digits(bs) is None,
    decreases bs.len(),
{
    if i < bs.len() - 1 {
        lemma_parse_digits_bad_byte(bs.take(bs.len() - 1), i);
    }
}

} // verus!
