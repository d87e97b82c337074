//! Rendering of numbers into the hypothesis strings that every test
//! result carries.

use vstd::prelude::*;
use vstd::string::*;
use crate::rat::{Rat, Ratio};

verus! {

/// The decimal digit character for `d` (0 to 9).
pub open spec fn digit_char(d: int) -> char {
    if d == 0 {
        '0'
    } else if d == 1 {
        '1'
    } else if d == 2 {
        '2'
    } else if d == 3 {
        '3'
    } else if d == 4 {
        '4'
    } else if d == 5 {
        '5'
    } else if d == 6 {
        '6'
    } else if d == 7 {
        '7'
    } else if d == 8 {
        '8'
    } else {
        '9'
    }
}

/// Decimal digits of a non-negative integer, most significant first.
pub open spec fn dec_digits(n: int) -> Seq<char>
    recommends
        n >= 0,
    decreases n,
{
    if n < 10 {
        seq![digit_char(n)]
    } else {
        dec_digits(n / 10) + seq![digit_char(n % 10)]
    }
}

/// The textual form of a rational: its numerator, then `/` and the
/// denominator unless the denominator is one.
pub open spec fn ratio_text(a: Rat) -> Seq<char> {
    let sign: Seq<char> = if a.n < 0 {
        seq!['-']
    } else {
        Seq::empty()
    };
    let mag = if a.n < 0 {
        -a.n
    } else {
        a.n
    };
    if a.d == 1 {
        sign + dec_digits(mag)
    } else {
        sign + dec_digits(mag) + seq!['/'] + dec_digits(a.d)
    }
}

fn digit_str(d: u64) -> (s: &'static str)
    requires
        d < 10,
    ensures
        s@ == seq![digit_char(d as int)],
{
    proof {
        reveal_strlit("0");
        reveal_strlit("1");
        reveal_strlit("2");
        reveal_strlit("3");
        reveal_strlit("4");
        reveal_strlit("5");
        reveal_strlit("6");
        reveal_strlit("7");
        reveal_strlit("8");
        reveal_strlit("9");
    }
    let s = match d {
        0 => "0",
        1 => "1",
        2 => "2",
        3 => "3",
        4 => "4",
        5 => "5",
        6 => "6",
        7 => "7",
        8 => "8",
        _ => "9",
    };
    proof {
        assert(s@ =~= seq![digit_char(d as int)]);
    }
    s
}

/// The decimal representation of `n`.
pub fn u64_to_string(n: u64) -> (s: String)
    ensures
        s@ == dec_digits(n as int),
    decreases n,
{
    if n < 10 {
        String::from_str(digit_str(n))
    } else {
        let mut s = u64_to_string(n / 10);
        s.append(digit_str(n % 10));
        proof {
            assert(s@ =~= dec_digits(n as int));
        }
        s
    }
}

/// The textual form of a well-formed rational.
pub fn ratio_to_string(r: Ratio) -> (s: String)
    requires
        r.wf(),
    ensures
        s@ == ratio_text(r@),
{
    let num = r.num();
    let den = r.den();
    let mut s = String::new();
    if num < 0 {
        proof {
            reveal_strlit("-");
        }
        s.append("-");
    }
    let mag: u64 = if num < 0 {
        (-num) as u64
    } else {
        num as u64
    };
    let digits = u64_to_string(mag);
    s.append(digits.as_str());
    if den != 1 {
        proof {
            reveal_strlit("/");
        }
        s.append("/");
        let den_digits = u64_to_string(den as u64);
        s.append(den_digits.as_str());
    }
    proof {
        assert(s@ =~= ratio_text(r@));
    }
    s
}

/// The null hypothesis that the means of `k` groups are all equal.
pub open spec fn mean_null_text(k: int) -> Seq<char>
    decreases k,
{
    if k <= 1 {
        "H0: µ1"@
    } else {
        mean_null_text(k - 1) + " = µ"@ + dec_digits(k)
    }
}

/// Builds the null hypothesis string for the means of `num_groups` groups:
/// `H0: µ1 = µ2 = ... = µn`.
pub fn mean_null_hypothesis(num_groups: usize) -> (r: String)
    requires
        num_groups < u32::MAX,
    ensures
        r@ == mean_null_text(num_groups as int),
{
    let mut hypothesis = String::from_str("H0: µ1");
    let mut i: usize = 2;
    while i <= num_groups
        invariant
            2 <= i,
            num_groups < 2 ==> i == 2,
            num_groups >= 2 ==> i <= num_groups + 1,
            num_groups < u32::MAX,
            hypothesis@ == mean_null_text(i - 1),
        decreases num_groups + 1 - i,
    {
        hypothesis.append(" = µ");
        let digits = u64_to_string(i as u64);
        hypothesis.append(digits.as_str());
        proof {
            assert(hypothesis@ =~= mean_null_text(i as int));
        }
        i = i + 1;
    }
    hypothesis
}

/// Null hypothesis text of a one-sample mean test.
pub open spec fn one_sample_mean_null_text(tail: crate::common::TailType, v: Rat) -> Seq<char> {
    match tail {
        crate::common::TailType::Left => "H0: µ >= "@ + ratio_text(v),
        crate::common::TailType::Right => "H0: µ <= "@ + ratio_text(v),
        crate::common::TailType::Two => "H0: µ = "@ + ratio_text(v),
    }
}

/// Alternative hypothesis text of a one-sample mean test.
pub open spec fn one_sample_mean_alt_text(tail: crate::common::TailType, v: Rat) -> Seq<char> {
    match tail {
        crate::common::TailType::Left => "Ha: µ < "@ + ratio_text(v),
        crate::common::TailType::Right => "Ha: µ > "@ + ratio_text(v),
        crate::common::TailType::Two => "Ha: µ ≠ "@ + ratio_text(v),
    }
}

/// Null hypothesis text of a two-sample mean test.
pub open spec fn two_sample_mean_null_text(tail: crate::common::TailType) -> Seq<char> {
    match tail {
        crate::common::TailType::Left => "H0: µ1 >= µ2"@,
        crate::common::TailType::Right => "H0: µ1 <= µ2"@,
        crate::common::TailType::Two => "H0: µ1 = µ2"@,
    }
}

/// Alternative hypothesis text of a two-sample mean test.
pub open spec fn two_sample_mean_alt_text(tail: crate::common::TailType) -> Seq<char> {
    match tail {
        crate::common::TailType::Left => "Ha: µ1 < µ2"@,
        crate::common::TailType::Right => "Ha: µ1 > µ2"@,
        crate::common::TailType::Two => "Ha: µ1 ≠ µ2"@,
    }
}

/// Builds the hypothesis pair of a one-sample mean test.
pub fn one_sample_mean_hypotheses(tail: crate::common::TailType, value: Ratio) -> (r: (
    String,
    String,
))
    requires
        value.wf(),
    ensures
        r.0@ == one_sample_mean_null_text(tail, value@),
        r.1@ == one_sample_mean_alt_text(tail, value@),
{
    let vt = ratio_to_string(value);
    let mut null_h = match tail {
        crate::common::TailType::Left => String::from_str("H0: µ >= "),
        crate::common::TailType::Right => String::from_str("H0: µ <= "),
        crate::common::TailType::Two => String::from_str("H0: µ = "),
    };
    null_h.append(vt.as_str());
    let mut alt_h = match tail {
        crate::common::TailType::Left => String::from_str("Ha: µ < "),
        crate::common::TailType::Right => String::from_str("Ha: µ > "),
        crate::common::TailType::Two => String::from_str("Ha: µ ≠ "),
    };
    alt_h.append(vt.as_str());
    (null_h, alt_h)
}

/// Builds the hypothesis pair of a two-sample mean test.
pub fn two_sample_mean_hypotheses(tail: crate::common::TailType) -> (r: (String, String))
    ensures
        r.0@ == two_sample_mean_null_text(tail),
        r.1@ == two_sample_mean_alt_text(tail),
{
    match tail {
        crate::common::TailType::Left => (
            String::from_str("H0: µ1 >= µ2"),
            String::from_str("Ha: µ1 < µ2"),
        ),
        crate::common::TailType::Right => (
            String::from_str("H0: µ1 <= µ2"),
            String::from_str("Ha: µ1 > µ2"),
        ),
        crate::common::TailType::Two => (
            String::from_str("H0: µ1 = µ2"),
            String::from_str("Ha: µ1 ≠ µ2"),
        ),
    }
}

/// Null hypothesis text of a one-sample proportion test.
pub open spec fn one_sample_prop_null_text(tail: crate::common::TailType, v: Rat) -> Seq<char> {
    match tail {
        crate::common::TailType::Left => "H0: p >= "@ + ratio_text(v),
        crate::common::TailType::Right => "H0: p <= "@ + ratio_text(v),
        crate::common::TailType::Two => "H0: p = "@ + ratio_text(v),
    }
}

/// Alternative hypothesis text of a one-sample proportion test.
pub open spec fn one_sample_prop_alt_text(tail: crate::common::TailType, v: Rat) -> Seq<char> {
    match tail {
        crate::common::TailType::Left => "Ha: p < "@ + ratio_text(v),
        crate::common::TailType::Right => "Ha: p > "@ + ratio_text(v),
        crate::common::TailType::Two => "Ha: p ≠ "@ + ratio_text(v),
    }
}

/// Null hypothesis text of a two-sample proportion test.
pub open spec fn two_sample_prop_null_text(tail: crate::common::TailType) -> Seq<char> {
    match tail {
        crate::common::TailType::Left => "H0: p1 >= p2"@,
        crate::common::TailType::Right => "H0: p1 <= p2"@,
        crate::common::TailType::Two => "H0: p1 = p2"@,
    }
}

/// Alternative hypothesis text of a two-sample proportion test.
pub open spec fn two_sample_prop_alt_text(tail: crate::common::TailType) -> Seq<char> {
    match tail {
        crate::common::TailType::Left => "Ha: p1 < p2"@,
        crate::common::TailType::Right => "Ha: p1 > p2"@,
        crate::common::TailType::Two => "Ha: p1 ≠ p2"@,
    }
}

/// Builds the hypothesis pair of a one-sample proportion test.
pub fn one_sample_prop_hypotheses(tail: crate::common::TailType, value: Ratio) -> (r: (
    String,
    String,
))
    requires
        value.wf(),
    ensures
        r.0@ == one_sample_prop_null_text(tail, value@),
        r.1@ == one_sample_prop_alt_text(tail, value@),
{
    let vt = ratio_to_string(value);
    let mut null_h = match tail {
        crate::common::TailType::Left => String::from_str("H0: p >= "),
        crate::common::TailType::Right => String::from_str("H0: p <= "),
        crate::common::TailType::Two => String::from_str("H0: p = "),
    };
    null_h.append(vt.as_str());
    let mut alt_h = match tail {
        crate::common::TailType::Left => String::from_str("Ha: p < "),
        crate::common::TailType::Right => String::from_str("Ha: p > "),
        crate::common::TailType::Two => String::from_str("Ha: p ≠ "),
    };
    alt_h.append(vt.as_str());
    (null_h, alt_h)
}

/// Builds the hypothesis pair of a two-sample proportion test.
pub fn two_sample_prop_hypotheses(tail: crate::common::TailType) -> (r: (String, String))
    ensures
        r.0@ == two_sample_prop_null_text(tail),
        r.1@ == two_sample_prop_alt_text(tail),
{
    match tail {
        crate::common::TailType::Left => (
            String::from_str("H0: p1 >= p2"),
            String::from_str("Ha: p1 < p2"),
        ),
        crate::common::TailType::Right => (
            String::from_str("H0: p1 <= p2"),
            String::from_str("Ha: p1 > p2"),
        ),
        crate::common::TailType::Two => (
            String::from_str("H0: p1 = p2"),
            String::from_str("Ha: p1 ≠ p2"),
        ),
    }
}

/// Null hypothesis text of a variance test.
pub open spec fn variance_null_text(v: Rat) -> Seq<char> {
    "H0: σ² = "@ + ratio_text(v)
}

/// Alternative hypothesis text of a variance test.
pub open spec fn variance_alt_text(tail: crate::common::TailType, v: Rat) -> Seq<char> {
    match tail {
        crate::common::TailType::Left => "Ha: σ² < "@ + ratio_text(v),
        crate::common::TailType::Right => "Ha: σ² > "@ + ratio_text(v),
        crate::common::TailType::Two => "Ha: σ² ≠ "@ + ratio_text(v),
    }
}

/// Builds the hypothesis pair of a variance test.
pub fn variance_hypotheses(tail: crate::common::TailType, value: Ratio) -> (r: (String, String))
    requires
        value.wf(),
    ensures
        r.0@ == variance_null_text(value@),
        r.1@ == variance_alt_text(tail, value@),
{
    let vt = ratio_to_string(value);
    let mut null_h = String::from_str("H0: σ² = ");
    null_h.append(vt.as_str());
    let mut alt_h = match tail {
        crate::common::TailType::Left => String::from_str("Ha: σ² < "),
        crate::common::TailType::Right => String::from_str("Ha: σ² > "),
        crate::common::TailType::Two => String::from_str("Ha: σ² ≠ "),
    };
    alt_h.append(vt.as_str());
    (null_h, alt_h)
}

} // verus!
