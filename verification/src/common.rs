//! Shared vocabulary of the hypothesis tests: the error type, tail
//! selection, the result record, the tail-aware p-value and
//! confidence-interval calculus, and the functions that finish a prepared
//! test once the caller has evaluated its reference distribution.

use vstd::prelude::*;
use vstd::string::*;
pub use crate::text::mean_null_hypothesis;
use crate::rat::{
    Rat, Ratio, int_rat, int_abs, rat_add, rat_sub, rat_mul, rat_div, rat_eqv, rat_le, rat_lt,
    rat_wf, lemma_le_eqv, lemma_eqv_trans,
};

verus! {

/// Error raised by a statistical computation.
#[derive(Debug, Clone, PartialEq, Eq)]
pub enum StatError {
    /// A required sample has no observations.
    EmptyData,
    /// A sample has fewer observations than the test's minimum.
    InsufficientData,
    /// A numeric precondition failed: a zero standard error, a zero total
    /// frequency, an invalid population parameter, or a value that exceeds
    /// the exact-arithmetic range.
    ComputeError(String),
}

impl StatError {
    /// Human-readable message for the error.
    pub fn to_string(&self) -> (r: String)
        ensures
            self is EmptyData ==> r@ == "Cannot perform test on empty data"@,
            self is InsufficientData ==> r@ == "Insufficient data for statistical test"@,
            self matches StatError::ComputeError(m) ==> r@ == "Computation error: "@ + m@,
    {
        match self {
            StatError::EmptyData => String::from_str("Cannot perform test on empty data"),
            StatError::InsufficientData => String::from_str(
                "Insufficient data for statistical test",
            ),
            StatError::ComputeError(m) => String::from_str("Computation error: ").concat(
                m.as_str(),
            ),
        }
    }
}

/// The message of a failure of the exact arithmetic itself: a value whose
/// reduced representation leaves the component range.  Every other
/// `ComputeError` a function of this library raises carries the message of
/// a named numeric precondition, so its contract can list the possible
/// causes exhaustively.
pub open spec fn range_message() -> Seq<char> {
    "value exceeds the exact arithmetic range"@
}

/// The message of a zero standard error.
pub open spec fn zero_se_message() -> Seq<char> {
    "Standard error is zero; cannot compute test statistic"@
}

/// The error raised when a value leaves the exact-arithmetic range.
pub(crate) fn overflow_error() -> (e: StatError)
    ensures
        e matches StatError::ComputeError(m) && m@ == range_message(),
{
    StatError::ComputeError(String::from_str("value exceeds the exact arithmetic range"))
}

/// The error raised when a standard error is zero.
pub(crate) fn zero_se_error() -> (e: StatError)
    ensures
        e matches StatError::ComputeError(m) && m@ == zero_se_message(),
{
    StatError::ComputeError(String::from_str("Standard error is zero; cannot compute test statistic"))
}

/// Which side of the reference distribution counts toward significance.
#[derive(Debug, Clone, Copy, PartialEq, Eq, Structural)]
pub enum TailType {
    Left,
    Right,
    Two,
}

/// The computed test statistic, exactly.
#[derive(Debug, Clone, Copy)]
pub enum TestStatistic {
    /// The statistic itself is rational (F, chi-squared, U).
    Exact(Ratio),
    /// A statistic `t` whose formula involves a square root, recorded as
    /// `t * |t|`: the statistic is the signed square root of this value.
    SignedSquare(Ratio),
}

impl TestStatistic {
    pub open spec fn wf(self) -> bool {
        match self {
            TestStatistic::Exact(v) => v.wf(),
            TestStatistic::SignedSquare(v) => v.wf(),
        }
    }
}

/// The reference distribution a caller must evaluate to finish a test.
#[derive(Debug, Clone, Copy)]
pub enum RefDistribution {
    /// Normal with mean 0 and standard deviation 1.
    StandardNormal,
    /// Student's t with the given degrees of freedom.
    StudentsT { df: Ratio },
    /// Chi-squared with the given degrees of freedom.
    ChiSquared { df: Ratio },
    /// Fisher-Snedecor F with the given degrees of freedom.
    FisherF { df1: Ratio, df2: Ratio },
}

impl RefDistribution {
    pub open spec fn wf(self) -> bool {
        match self {
            RefDistribution::StandardNormal => true,
            RefDistribution::StudentsT { df } => df.wf() && rat_lt(int_rat(0), df@),
            RefDistribution::ChiSquared { df } => df.wf() && rat_lt(int_rat(0), df@),
            RefDistribution::FisherF { df1, df2 } => df1.wf() && rat_lt(int_rat(0), df1@)
                && df2.wf() && rat_lt(int_rat(0), df2@),
        }
    }
}

/// The uniform output of every hypothesis test.
#[derive(Debug, Clone)]
pub struct TestResult {
    pub test_statistic: TestStatistic,
    pub p_value: Ratio,
    /// `None` for the tests that define no interval (ANOVA, chi-squared
    /// independence and goodness-of-fit, Mann-Whitney U).
    pub confidence_interval: Option<(Ratio, Ratio)>,
    pub null_hypothesis: String,
    pub alt_hypothesis: String,
    pub reject_null: bool,
}

impl TestResult {
    pub open spec fn wf(self) -> bool {
        self.test_statistic.wf() && self.p_value.wf() && match self.confidence_interval {
            Some(ci) => ci.0.wf() && ci.1.wf(),
            None => true,
        }
    }
}

/// The p-value of a statistic under the chosen tail, given the value of the
/// reference CDF at the statistic (`Left`, `Right`) or at its absolute
/// value (`Two`).
pub open spec fn p_value_rat(tail: TailType, cdf: Rat) -> Rat {
    match tail {
        TailType::Left => cdf,
        TailType::Right => rat_sub(int_rat(1), cdf),
        TailType::Two => rat_mul(int_rat(2), rat_sub(int_rat(1), cdf)),
    }
}

/// Lower bound of the symmetric interval `center ± q * se`.
pub open spec fn ci_lower_rat(center: Rat, se: Rat, q: Rat) -> Rat {
    rat_sub(center, rat_mul(q, se))
}

/// Upper bound of the symmetric interval `center ± q * se`.
pub open spec fn ci_upper_rat(center: Rat, se: Rat, q: Rat) -> Rat {
    rat_add(center, rat_mul(q, se))
}

/// Lower bound of the chi-squared variance interval: `df * variance`
/// divided by the upper quantile.
pub open spec fn chi2_ci_lower_rat(variance: Rat, df: Rat, q_upper: Rat) -> Rat {
    rat_div(rat_mul(df, variance), q_upper)
}

/// Upper bound of the chi-squared variance interval: `df * variance`
/// divided by the lower quantile.
pub open spec fn chi2_ci_upper_rat(variance: Rat, df: Rat, q_lower: Rat) -> Rat {
    rat_div(rat_mul(df, variance), q_lower)
}

/// Tail-aware p-value from the reference CDF evaluated at the statistic
/// (`Left`, `Right`) or at its absolute value (`Two`); `None` on numeric
/// overflow.  No clamping is performed: the result lies in `[0, 1]` exactly
/// when the supplied CDF value is conformant.
pub fn calculate_p(tail: TailType, cdf_value: Ratio) -> (r: Option<Ratio>)
    requires
        cdf_value.wf(),
    ensures
        cdf_value.small() ==> r is Some,
        r matches Some(p) ==> p.wf() && rat_eqv(p@, p_value_rat(tail, cdf_value@)),
        r matches Some(p) ==> (rat_le(int_rat(0), cdf_value@) && rat_le(cdf_value@, int_rat(1))
            && !(tail is Two) ==> rat_le(int_rat(0), p@) && rat_le(p@, int_rat(1))),
        r matches Some(p) ==> (rat_le(Rat { n: 1, d: 2 }, cdf_value@) && rat_le(
            cdf_value@,
            int_rat(1),
        ) && tail is Two ==> rat_le(int_rat(0), p@) && rat_le(p@, int_rat(1))),
{
    let one = Ratio::from_i32(1);
    let two = Ratio::from_i32(2);
    let ghost c = cdf_value@;
    let ghost f = p_value_rat(tail, c);
    let p = match tail {
        TailType::Left => cdf_value,
        TailType::Right => {
            match one.sub(cdf_value) {
                Some(v) => v,
                None => {
                    return None;
                },
            }
        },
        TailType::Two => {
            let right = match one.sub(cdf_value) {
                Some(v) => v,
                None => {
                    return None;
                },
            };
            proof {
                if cdf_value.small() {
                    assert(int_abs(rat_mul(two@, right@).n) <= crate::rat::COMPONENT_BOUND as int
                        && rat_mul(two@, right@).d <= crate::rat::COMPONENT_BOUND as int);
                }
            }
            let doubled = match two.mul(right) {
                Some(v) => v,
                None => {
                    return None;
                },
            };
            proof {
                assert(rat_wf(rat_sub(int_rat(1), c)));
                crate::rat::lemma_mul_eqv(two@, right@, int_rat(2), rat_sub(int_rat(1), c));
                lemma_eqv_trans(doubled@, rat_mul(two@, right@), f);
            }
            doubled
        },
    };
    proof {
        assert(rat_wf(f));
        if rat_le(int_rat(0), c) && rat_le(c, int_rat(1)) && !(tail is Two) {
            assert(rat_le(int_rat(0), f) && rat_le(f, int_rat(1))) by (nonlinear_arith)
                requires
                    rat_wf(c),
                    rat_le(int_rat(0), c),
                    rat_le(c, int_rat(1)),
                    tail is Left ==> f == c,
                    tail is Right ==> f == rat_sub(int_rat(1), c),
                    !(tail is Two),
            ;
            lemma_le_eqv(int_rat(0), f, int_rat(0), p@);
            lemma_le_eqv(f, int_rat(1), p@, int_rat(1));
        }
        if rat_le(Rat { n: 1, d: 2 }, c) && rat_le(c, int_rat(1)) && tail is Two {
            assert(rat_le(int_rat(0), f) && rat_le(f, int_rat(1))) by (nonlinear_arith)
                requires
                    rat_wf(c),
                    rat_le(Rat { n: 1, d: 2 }, c),
                    rat_le(c, int_rat(1)),
                    f == rat_mul(int_rat(2), rat_sub(int_rat(1), c)),
            ;
            lemma_le_eqv(int_rat(0), f, int_rat(0), p@);
            lemma_le_eqv(f, int_rat(1), p@, int_rat(1));
        }
    }
    Some(p)
}

/// The symmetric confidence interval `center ± q * se`, where `q` is the
/// caller-evaluated quantile of the standardized sampling distribution at
/// `1 - alpha / 2` and `se` the evaluated standard error; `None` on numeric
/// overflow.  Whenever `q` and `se` are non-negative the interval brackets
/// the center.
pub fn calculate_ci(center: Ratio, std_error: Ratio, margin_quantile: Ratio) -> (r: Option<
    (Ratio, Ratio),
>)
    requires
        center.wf(),
        std_error.wf(),
        margin_quantile.wf(),
    ensures
        center.small() && margin_quantile.modest() && std_error.modest() ==> r is Some,
        r matches Some(ci) ==> ci.0.wf() && ci.1.wf() && rat_eqv(
            ci.0@,
            ci_lower_rat(center@, std_error@, margin_quantile@),
        ) && rat_eqv(ci.1@, ci_upper_rat(center@, std_error@, margin_quantile@)),
        r matches Some(ci) ==> (rat_le(int_rat(0), margin_quantile@) && rat_le(
            int_rat(0),
            std_error@,
        ) ==> rat_le(ci.0@, center@) && rat_le(center@, ci.1@)),
{
    let margin = match margin_quantile.mul(std_error) {
        Some(v) => v,
        None => {
            return None;
        },
    };
    let lower = match center.sub(margin) {
        Some(v) => v,
        None => {
            return None;
        },
    };
    let upper = match center.add(margin) {
        Some(v) => v,
        None => {
            return None;
        },
    };
    proof {
        let q = margin_quantile@;
        let se = std_error@;
        let c = center@;
        let mspec = rat_mul(q, se);
        crate::rat::lemma_mul_eqv(q, se, q, se);
        crate::rat::lemma_sub_eqv(c, margin@, c, mspec);
        crate::rat::lemma_add_eqv(c, margin@, c, mspec);
        crate::rat::lemma_sub_eqv(c, mspec, c, mspec);
        crate::rat::lemma_add_eqv(c, mspec, c, mspec);
        lemma_eqv_trans(lower@, rat_sub(c, margin@), ci_lower_rat(c, se, q));
        lemma_eqv_trans(upper@, rat_add(c, margin@), ci_upper_rat(c, se, q));
        if rat_le(int_rat(0), q) && rat_le(int_rat(0), se) {
            assert(rat_le(int_rat(0), mspec)) by (nonlinear_arith)
                requires
                    rat_le(int_rat(0), q),
                    rat_le(int_rat(0), se),
                    rat_wf(q),
                    rat_wf(se),
                    mspec == rat_mul(q, se),
            ;
            lemma_margin_brackets(c, mspec);
            lemma_le_eqv(ci_lower_rat(c, se, q), c, lower@, c);
            lemma_le_eqv(c, ci_upper_rat(c, se, q), c, upper@);
        }
    }
    Some((lower, upper))
}

/// A non-negative margin moved off a center brackets it.
proof fn lemma_margin_brackets(center: Rat, margin: Rat)
    by (nonlinear_arith)
    requires
        rat_wf(center),
        rat_wf(margin),
        rat_le(int_rat(0), margin),
    ensures
        rat_le(rat_sub(center, margin), center),
        rat_le(center, rat_add(center, margin)),
        rat_wf(rat_sub(center, margin)),
        rat_wf(rat_add(center, margin)),
{
}

/// The asymmetric chi-squared confidence interval for a variance:
/// `(df * variance / q_upper, df * variance / q_lower)`, where the
/// quantiles are the caller-evaluated chi-squared quantiles at `alpha / 2`
/// and `1 - alpha / 2`.  The upper quantile produces the lower bound.
/// `None` when a quantile is zero or on numeric overflow.
pub fn calculate_chi2_ci(sample_variance: Ratio, df: Ratio, q_lower: Ratio, q_upper: Ratio) -> (r:
    Option<(Ratio, Ratio)>)
    requires
        sample_variance.wf(),
        df.wf(),
        q_lower.wf(),
        q_upper.wf(),
    ensures
        sample_variance.modest() && df.modest() && q_lower.small() && q_upper.small() && rat_lt(
            int_rat(0),
            q_lower@,
        ) && rat_lt(int_rat(0), q_upper@) ==> r is Some,
        r matches Some(ci) ==> ci.0.wf() && ci.1.wf() && rat_eqv(
            ci.0@,
            chi2_ci_lower_rat(sample_variance@, df@, q_upper@),
        ) && rat_eqv(ci.1@, chi2_ci_upper_rat(sample_variance@, df@, q_lower@)),
{
    let scaled = match df.mul(sample_variance) {
        Some(v) => v,
        None => {
            return None;
        },
    };
    let lower = match scaled.div(q_upper) {
        Some(v) => v,
        None => {
            return None;
        },
    };
    let upper = match scaled.div(q_lower) {
        Some(v) => v,
        None => {
            return None;
        },
    };
    proof {
        let v = sample_variance@;
        let sspec = rat_mul(df@, v);
        crate::rat::lemma_mul_eqv(df@, v, df@, v);
        lemma_div_eqv_left(scaled@, sspec, q_upper@);
        lemma_div_eqv_left(scaled@, sspec, q_lower@);
        lemma_eqv_trans(lower@, rat_div(scaled@, q_upper@), chi2_ci_lower_rat(v, df@, q_upper@));
        lemma_eqv_trans(upper@, rat_div(scaled@, q_lower@), chi2_ci_upper_rat(v, df@, q_lower@));
    }
    Some((lower, upper))
}

/// Division respects rational equivalence in its left argument.
pub proof fn lemma_div_eqv_left(a: Rat, a2: Rat, b: Rat)
    by (nonlinear_arith)
    requires
        rat_wf(a),
        rat_wf(a2),
        rat_wf(b),
        rat_eqv(a, a2),
        b.n != 0,
    ensures
        rat_eqv(rat_div(a, b), rat_div(a2, b)),
        rat_wf(rat_div(a, b)),
        rat_wf(rat_div(a2, b)),
{
}

/// Assembles the uniform result record.  The rejection decision is exactly
/// `p_value < alpha`.
pub fn build_result(
    test_statistic: TestStatistic,
    p_value: Ratio,
    confidence_interval: Option<(Ratio, Ratio)>,
    null_hypothesis: String,
    alt_hypothesis: String,
    alpha: Ratio,
) -> (r: TestResult)
    requires
        test_statistic.wf(),
        p_value.wf(),
        alpha.wf(),
        confidence_interval matches Some(ci) ==> ci.0.wf() && ci.1.wf(),
    ensures
        r.wf(),
        r.test_statistic == test_statistic,
        r.p_value == p_value,
        r.confidence_interval == confidence_interval,
        r.null_hypothesis == null_hypothesis,
        r.alt_hypothesis == alt_hypothesis,
        r.reject_null == rat_lt(p_value@, alpha@),
{
    let reject_null = p_value.lt(alpha);
    TestResult {
        test_statistic,
        p_value,
        confidence_interval,
        null_hypothesis,
        alt_hypothesis,
        reject_null,
    }
}

/// A prepared location test (t, z, proportion): everything but the
/// distribution evaluations, which the caller supplies to
/// `finish_location_test`.
pub struct LocationTest {
    /// The standardized statistic `t`, recorded exactly as `t * |t|`.
    pub statistic: Ratio,
    /// Reference distribution of the standardized statistic.
    pub dist: RefDistribution,
    /// Point estimate at the center of the confidence interval.
    pub center: Ratio,
    /// Exact square of the standard error.
    pub se_square: Ratio,
    pub tail: TailType,
    pub null_hypothesis: String,
    pub alt_hypothesis: String,
}

impl LocationTest {
    pub open spec fn wf(self) -> bool {
        self.statistic.wf() && self.dist.wf() && self.center.wf() && self.se_square.wf()
    }
}

/// Finishes a prepared location test.  The caller evaluates the test's
/// reference distribution: `cdf_value` is its CDF at the statistic (`Left`,
/// `Right`) or at `|statistic|` (`Two`); `margin_quantile` its quantile at
/// `1 - alpha / 2`; `std_error` the square root of `se_square`.  `None` on
/// numeric overflow.
pub fn finish_location_test(
    test: LocationTest,
    alpha: Ratio,
    cdf_value: Ratio,
    margin_quantile: Ratio,
    std_error: Ratio,
) -> (r: Option<TestResult>)
    requires
        test.wf(),
        alpha.wf(),
        cdf_value.wf(),
        margin_quantile.wf(),
        std_error.wf(),
    ensures
        cdf_value.small() && test.center.small() && margin_quantile.modest()
            && std_error.modest() ==> r is Some,
        r matches Some(res) ==> res.wf() && res.test_statistic == TestStatistic::SignedSquare(
            test.statistic,
        ) && rat_eqv(res.p_value@, p_value_rat(test.tail, cdf_value@))
            && res.null_hypothesis@ == test.null_hypothesis@ && res.alt_hypothesis@
            == test.alt_hypothesis@ && res.reject_null == rat_lt(res.p_value@, alpha@),
        r matches Some(res) ==> res.confidence_interval matches Some(ci) && rat_eqv(
            ci.0@,
            ci_lower_rat(test.center@, std_error@, margin_quantile@),
        ) && rat_eqv(ci.1@, ci_upper_rat(test.center@, std_error@, margin_quantile@)),
        r matches Some(res) ==> (rat_le(int_rat(0), margin_quantile@) && rat_le(
            int_rat(0),
            std_error@,
        ) ==> (res.confidence_interval matches Some(ci) && rat_le(ci.0@, test.center@) && rat_le(
            test.center@,
            ci.1@,
        ))),
        r matches Some(res) ==> (rat_le(int_rat(0), cdf_value@) && rat_le(cdf_value@, int_rat(1))
            && !(test.tail is Two) ==> rat_le(int_rat(0), res.p_value@) && rat_le(
            res.p_value@,
            int_rat(1),
        )),
        r matches Some(res) ==> (rat_le(Rat { n: 1, d: 2 }, cdf_value@) && rat_le(
            cdf_value@,
            int_rat(1),
        ) && test.tail is Two ==> rat_le(int_rat(0), res.p_value@) && rat_le(
            res.p_value@,
            int_rat(1),
        )),
{
    let p_value = match calculate_p(test.tail, cdf_value) {
        Some(v) => v,
        None => {
            return None;
        },
    };
    let ci = match calculate_ci(test.center, std_error, margin_quantile) {
        Some(v) => v,
        None => {
            return None;
        },
    };
    Some(
        build_result(
            TestStatistic::SignedSquare(test.statistic),
            p_value,
            Some(ci),
            test.null_hypothesis,
            test.alt_hypothesis,
            alpha,
        ),
    )
}

/// Finishes a test that defines no confidence interval (ANOVA, chi-squared
/// independence and goodness-of-fit, Mann-Whitney U), given the CDF of its
/// reference distribution at the statistic (`Left`, `Right`) or at its
/// absolute value (`Two`).  `None` on numeric overflow.
pub fn finish_plain_test(
    statistic: TestStatistic,
    tail: TailType,
    null_hypothesis: String,
    alt_hypothesis: String,
    alpha: Ratio,
    cdf_value: Ratio,
) -> (r: Option<TestResult>)
    requires
        statistic.wf(),
        alpha.wf(),
        cdf_value.wf(),
    ensures
        cdf_value.small() ==> r is Some,
        r matches Some(res) ==> res.wf() && res.test_statistic == statistic && rat_eqv(
            res.p_value@,
            p_value_rat(tail, cdf_value@),
        ) && res.confidence_interval is None && res.null_hypothesis@ == null_hypothesis@
            && res.alt_hypothesis@ == alt_hypothesis@ && res.reject_null == rat_lt(
            res.p_value@,
            alpha@,
        ),
        r matches Some(res) ==> (rat_le(int_rat(0), cdf_value@) && rat_le(cdf_value@, int_rat(1))
            && !(tail is Two) ==> rat_le(int_rat(0), res.p_value@) && rat_le(
            res.p_value@,
            int_rat(1),
        )),
        r matches Some(res) ==> (rat_le(Rat { n: 1, d: 2 }, cdf_value@) && rat_le(
            cdf_value@,
            int_rat(1),
        ) && tail is Two ==> rat_le(int_rat(0), res.p_value@) && rat_le(res.p_value@, int_rat(1))),
{
    let p_value = match calculate_p(tail, cdf_value) {
        Some(v) => v,
        None => {
            return None;
        },
    };
    Some(build_result(statistic, p_value, None, null_hypothesis, alt_hypothesis, alpha))
}

/// Finishes a chi-squared variance test: tail-aware p-value from
/// `cdf_value` (the chi-squared CDF at the statistic, or at its absolute
/// value for `Two`), and the asymmetric variance interval from the
/// chi-squared quantiles at `alpha / 2` and `1 - alpha / 2`.  `None` when a
/// quantile is zero or on numeric overflow.
pub fn finish_variance_test(
    statistic: Ratio,
    df: Ratio,
    interval_variance: Ratio,
    tail: TailType,
    null_hypothesis: String,
    alt_hypothesis: String,
    alpha: Ratio,
    cdf_value: Ratio,
    q_lower: Ratio,
    q_upper: Ratio,
) -> (r: Option<TestResult>)
    requires
        statistic.wf(),
        df.wf(),
        interval_variance.wf(),
        alpha.wf(),
        cdf_value.wf(),
        q_lower.wf(),
        q_upper.wf(),
    ensures
        cdf_value.small() && interval_variance.modest() && df.modest() && q_lower.small()
            && q_upper.small() && rat_lt(int_rat(0), q_lower@) && rat_lt(int_rat(0), q_upper@)
            ==> r is Some,
        r matches Some(res) ==> res.wf() && res.test_statistic == TestStatistic::Exact(statistic)
            && rat_eqv(res.p_value@, p_value_rat(tail, cdf_value@)) && res.null_hypothesis@
            == null_hypothesis@ && res.alt_hypothesis@ == alt_hypothesis@ && res.reject_null
            == rat_lt(res.p_value@, alpha@),
        r matches Some(res) ==> res.confidence_interval matches Some(ci) && rat_eqv(
            ci.0@,
            chi2_ci_lower_rat(interval_variance@, df@, q_upper@),
        ) && rat_eqv(ci.1@, chi2_ci_upper_rat(interval_variance@, df@, q_lower@)),
        r matches Some(res) ==> (rat_le(int_rat(0), cdf_value@) && rat_le(cdf_value@, int_rat(1))
            && !(tail is Two) ==> rat_le(int_rat(0), res.p_value@) && rat_le(
            res.p_value@,
            int_rat(1),
        )),
        r matches Some(res) ==> (rat_le(Rat { n: 1, d: 2 }, cdf_value@) && rat_le(
            cdf_value@,
            int_rat(1),
        ) && tail is Two ==> rat_le(int_rat(0), res.p_value@) && rat_le(res.p_value@, int_rat(1))),
{
    let p_value = match calculate_p(tail, cdf_value) {
        Some(v) => v,
        None => {
            return None;
        },
    };
    let ci = match calculate_chi2_ci(interval_variance, df, q_lower, q_upper) {
        Some(v) => v,
        None => {
            return None;
        },
    };
    Some(
        build_result(
            TestStatistic::Exact(statistic),
            p_value,
            Some(ci),
            null_hypothesis,
            alt_hypothesis,
            alpha,
        ),
    )
}

/// The probability whose quantile a sample-size calculation needs:
/// `1 - alpha/2` for a two-tailed test, `1 - alpha` otherwise.
pub fn critical_probability(tail: TailType, alpha: Ratio) -> (r: Option<Ratio>)
    requires
        alpha.wf(),
    ensures
        alpha.small() ==> r is Some,
        r matches Some(p) ==> p.wf() && (if tail is Two {
            rat_eqv(p@, rat_sub(int_rat(1), crate::rat::rat_div_int(alpha@, 2)))
        } else {
            rat_eqv(p@, rat_sub(int_rat(1), alpha@))
        }),
{
    let one = Ratio::from_i32(1);
    match tail {
        TailType::Two => {
            let half = match alpha.div_u32(2) {
                Some(v) => v,
                None => {
                    return None;
                },
            };
            proof {
                if alpha.small() {
                    assert(int_abs(rat_sub(one@, half@).n) <= crate::rat::COMPONENT_BOUND as int
                        && rat_sub(one@, half@).d <= crate::rat::COMPONENT_BOUND as int);
                }
            }
            let r = one.sub(half);
            proof {
                if let Some(v) = r {
                    let hspec = crate::rat::rat_div_int(alpha@, 2);
                    crate::rat::lemma_sub_eqv(one@, half@, int_rat(1), hspec);
                    lemma_eqv_trans(v@, rat_sub(one@, half@), rat_sub(int_rat(1), hspec));
                }
            }
            r
        },
        _ => one.sub(alpha),
    }
}

/// A prepared right-tailed test without a confidence interval (ANOVA,
/// chi-squared independence and goodness-of-fit): the exact statistic, the
/// reference distribution to evaluate, and the hypothesis texts.
pub struct OmnibusTest {
    pub statistic: Ratio,
    pub dist: RefDistribution,
    pub null_hypothesis: String,
    pub alt_hypothesis: String,
}

impl OmnibusTest {
    pub open spec fn wf(self) -> bool {
        self.statistic.wf() && self.dist.wf()
    }
}

/// Finishes a prepared right-tailed test, given the CDF of its reference
/// distribution at the statistic.  `None` on numeric overflow.
pub fn finish_omnibus_test(test: OmnibusTest, alpha: Ratio, cdf_value: Ratio) -> (r: Option<
    TestResult,
>)
    requires
        test.wf(),
        alpha.wf(),
        cdf_value.wf(),
    ensures
        cdf_value.small() ==> r is Some,
        r matches Some(res) ==> res.wf() && res.test_statistic == TestStatistic::Exact(
            test.statistic,
        ) && rat_eqv(res.p_value@, p_value_rat(TailType::Right, cdf_value@))
            && res.confidence_interval is None && res.null_hypothesis@ == test.null_hypothesis@
            && res.alt_hypothesis@ == test.alt_hypothesis@ && res.reject_null == rat_lt(
            res.p_value@,
            alpha@,
        ),
        r matches Some(res) ==> (rat_le(int_rat(0), cdf_value@) && rat_le(cdf_value@, int_rat(1))
            ==> rat_le(int_rat(0), res.p_value@) && rat_le(res.p_value@, int_rat(1))),
{
    finish_plain_test(
        TestStatistic::Exact(test.statistic),
        TailType::Right,
        test.null_hypothesis,
        test.alt_hypothesis,
        alpha,
        cdf_value,
    )
}

/// The two-tailed p-value is exactly twice the right-tailed p-value taken
/// from the same CDF value (both read the CDF at the absolute value of the
/// statistic).
pub proof fn law_two_tailed_doubles_right(cdf: Rat)
    requires
        rat_wf(cdf),
    ensures
        rat_eqv(
            p_value_rat(TailType::Two, cdf),
            rat_mul(int_rat(2), p_value_rat(TailType::Right, cdf)),
        ),
{
}

/// A conformant CDF value (in `[0, 1]`, and at least one half for a
/// two-tailed reading, as holds when the CDF of a distribution symmetric
/// about zero is read at `|statistic|`) yields a p-value in `[0, 1]`.
pub proof fn law_p_value_in_unit_range(tail: TailType, cdf: Rat)
    requires
        rat_wf(cdf),
        rat_le(int_rat(0), cdf),
        rat_le(cdf, int_rat(1)),
        tail is Two ==> rat_le(Rat { n: 1, d: 2 }, cdf),
    ensures
        rat_le(int_rat(0), p_value_rat(tail, cdf)),
        rat_le(p_value_rat(tail, cdf), int_rat(1)),
{
}

/// A symmetric confidence interval built from a non-negative quantile and
/// standard error brackets its center.
pub proof fn law_interval_brackets_center(center: Rat, se: Rat, q: Rat)
    requires
        rat_wf(center),
        rat_wf(se),
        rat_wf(q),
        rat_le(int_rat(0), se),
        rat_le(int_rat(0), q),
    ensures
        rat_le(ci_lower_rat(center, se, q), center),
        rat_le(center, ci_upper_rat(center, se, q)),
{
    assert(rat_le(int_rat(0), rat_mul(q, se)) && rat_wf(rat_mul(q, se))) by (nonlinear_arith)
        requires
            rat_le(int_rat(0), q),
            rat_le(int_rat(0), se),
            rat_wf(q),
            rat_wf(se),
    ;
    lemma_margin_brackets(center, rat_mul(q, se));
}

/// Scaled-division bound: with `df <= q` (as rationals with positive
/// denominators and a positive `q`), `df * v / q <= v` for `v >= 0`.
proof fn lemma_scaled_div_le(vn: int, vd: int, dn: int, dd: int, qn: int, qd: int)
    by (nonlinear_arith)
    requires
        vd >= 1,
        dd >= 1,
        qd >= 1,
        qn >= 1,
        vn >= 0,
        dn * qd <= qn * dd,
    ensures
        ((dn * vn) * qd) * vd <= vn * ((dd * vd) * qn),
{
}

/// Scaled-division bound: with `q <= df` and a positive `q`,
/// `v <= df * v / q` for `v >= 0`.
proof fn lemma_scaled_div_ge(vn: int, vd: int, dn: int, dd: int, qn: int, qd: int)
    by (nonlinear_arith)
    requires
        vd >= 1,
        dd >= 1,
        qd >= 1,
        qn >= 1,
        vn >= 0,
        qn * dd <= dn * qd,
    ensures
        vn * ((dd * vd) * qn) <= ((dn * vn) * qd) * vd,
{
}

/// The asymmetric chi-squared interval brackets the variance it was built
/// from whenever the quantiles bracket the degrees of freedom (as holds
/// for a conformant chi-squared distribution at the usual significance
/// levels): `0 < q_lower <= df <= q_upper`.
pub proof fn law_chi2_interval_brackets_variance(variance: Rat, df: Rat, q_lower: Rat, q_upper: Rat)
    requires
        rat_wf(variance),
        rat_wf(df),
        rat_wf(q_lower),
        rat_wf(q_upper),
        rat_le(int_rat(0), variance),
        rat_lt(int_rat(0), q_lower),
        rat_le(q_lower, df),
        rat_le(df, q_upper),
    ensures
        rat_le(chi2_ci_lower_rat(variance, df, q_upper), variance),
        rat_le(variance, chi2_ci_upper_rat(variance, df, q_lower)),
{
    assert(q_lower.n >= 1);
    assert(q_upper.n >= 1) by (nonlinear_arith)
        requires
            rat_wf(q_lower),
            rat_wf(df),
            rat_wf(q_upper),
            rat_lt(int_rat(0), q_lower),
            rat_le(q_lower, df),
            rat_le(df, q_upper),
    ;
    assert(variance.n >= 0);
    lemma_scaled_div_le(variance.n, variance.d, df.n, df.d, q_upper.n, q_upper.d);
    lemma_scaled_div_ge(variance.n, variance.d, df.n, df.d, q_lower.n, q_lower.d);
}

} // verus!
