//! Chi-squared tests: the variance test, the independence test on a
//! contingency table, and the goodness-of-fit test, plus the companion
//! sample-size formulas.
//!
//! A cell whose expected frequency is zero contributes zero to the
//! statistic — a deliberate edge-case policy rather than a division by
//! zero.

use vstd::prelude::*;
use vstd::string::*;
use crate::rat::{
    Rat, Ratio, int_rat, int_abs, rat_add, rat_sub, rat_mul, rat_sq, rat_div, rat_div_int,
    rat_eqv, rat_le,
    rat_lt, rat_wf, radd, rsub, rmul, rdiv, rdiv_u32, lemma_eqv_trans, lemma_mul_eqv,
    lemma_zero_eqv, lemma_sub_eqv, lemma_add_eqv, lemma_div_eqv,
};
use crate::stats::{
    views, seq_wf, rats_wf, rat_sum, rat_sample_var, mean_and_sample_variance, lemma_views_wf,
    lemma_sum_wf,
};
use crate::common::{OmnibusTest, RefDistribution, StatError, TailType, range_message};
use crate::text::{variance_null_text, variance_alt_text, variance_hypotheses};
use crate::t::{quantile_formula_sq, ceil_quantile_formula};

verus! {

/// A prepared chi-squared variance test.
pub struct VarianceTest {
    /// The exact statistic `(n - 1) * sample_variance / pop_variance`.
    pub statistic: Ratio,
    /// The chi-squared reference distribution, with `n - 1` degrees of
    /// freedom.
    pub dist: RefDistribution,
    /// The exact sample variance: the point estimate the chi-squared
    /// confidence interval for the population variance is built from.
    pub sample_variance: Ratio,
    /// The hypothesized variance the sample is tested against.
    pub pop_variance: Ratio,
    pub tail: TailType,
    pub null_hypothesis: String,
    pub alt_hypothesis: String,
}

impl VarianceTest {
    pub open spec fn wf(self) -> bool {
        self.statistic.wf() && self.dist.wf() && self.sample_variance.wf()
            && self.pop_variance.wf()
    }
}

/// The chi-squared variance statistic
/// `(n - 1) * sample_variance / pop_variance`.
pub open spec fn chi2_variance_stat(s: Seq<Rat>, pop_var: Rat) -> Rat {
    rat_div(rat_mul(int_rat(s.len() - 1), rat_sample_var(s)), pop_var)
}

/// Chi-squared test of a sample variance against the hypothesized
/// `pop_variance`.  Fails with `InsufficientData` on fewer than two
/// observations and `ComputeError` on a non-positive hypothesized variance
/// or a value that exceeds the exact-arithmetic range.
pub fn variance(data: &Vec<Ratio>, pop_variance: Ratio, tail: TailType) -> (r: Result<
    VarianceTest,
    StatError,
>)
    requires
        seq_wf(data@),
        pop_variance.wf(),
        data@.len() <= u32::MAX,
    ensures
        data@.len() < 2 ==> (r matches Err(e) && e is InsufficientData),
        data@.len() >= 2 && !rat_lt(int_rat(0), pop_variance@) ==> (r matches Err(e)
            && e is ComputeError),
        r matches Err(e) ==> ((e is InsufficientData <==> data@.len() < 2) && !(e is EmptyData)),
        r matches Err(e) ==> (e matches StatError::ComputeError(m) ==> ((m@
            == "Population variance must be a positive finite number"@ && !rat_lt(
            int_rat(0),
            pop_variance@,
        )) || m@ == range_message())),
        r matches Ok(t) ==> data@.len() >= 2 && rat_lt(int_rat(0), pop_variance@) && t.wf()
            && rat_eqv(t.statistic@, chi2_variance_stat(views(data@), pop_variance@)) && (
        t.dist matches RefDistribution::ChiSquared { df } && df@ == int_rat(data@.len() - 1))
            && rat_eqv(t.sample_variance@, rat_sample_var(views(data@)))
            && t.pop_variance == pop_variance && t.tail == tail && t.null_hypothesis@
            == variance_null_text(pop_variance@) && t.alt_hypothesis@ == variance_alt_text(
            tail,
            pop_variance@,
        ),
        crate::stats::bounded_ints(views(data@), 1024) && 2 <= data@.len() <= 64
            && pop_variance.bounded(16384) && rat_lt(int_rat(0), pop_variance@) ==> r is Ok,
{
    let ghost s = views(data@);
    let ghost in_range = crate::stats::bounded_ints(s, 1024) && 2 <= data@.len() <= 64
        && pop_variance.bounded(16384) && rat_lt(int_rat(0), pop_variance@);
    if data.len() < 2 {
        return Err(StatError::InsufficientData);
    }
    let zero = Ratio::from_i32(0);
    if !zero.lt(pop_variance) {
        return Err(
            StatError::ComputeError(
                String::from_str("Population variance must be a positive finite number"),
            ),
        );
    }
    proof {
        lemma_views_wf(data@);
        crate::stats::lemma_var_nonneg(s);
    }
    let (_, sample_variance) = match mean_and_sample_variance(data) {
        Some(v) => v,
        None => {
            proof {
                if in_range {
                    assert(false);
                }
            }
            return Err(crate::common::overflow_error());
        },
    };
    let w = Ratio::from_u64((data.len() - 1) as u64);
    let scaled = match rmul(w, sample_variance, Ghost(int_rat(s.len() - 1)), Ghost(
        rat_sample_var(s),
    )) {
        Some(v) => v,
        None => {
            proof {
                if in_range {
                    assert(int_abs(w@.n) * int_abs(sample_variance@.n) <= 4611686018427387904
                        && w@.d * sample_variance@.d <= 4611686018427387904)
                        by (nonlinear_arith)
                        requires
                            0 <= int_abs(w@.n) <= 63,
                            w@.d == 1,
                            0 <= int_abs(sample_variance@.n) <= 2473901162496,
                            1 <= sample_variance@.d <= 258048,
                    ;
                    assert(false);
                }
            }
            return Err(crate::common::overflow_error());
        },
    };
    let stat = match rdiv(scaled, pop_variance, Ghost(
        rat_mul(int_rat(s.len() - 1), rat_sample_var(s)),
    ), Ghost(pop_variance@)) {
        Some(v) => v,
        None => {
            proof {
                if in_range {
                    assert(int_abs(scaled@.n) <= 155855773237248 && scaled@.d <= 258048)
                        by (nonlinear_arith)
                        requires
                            int_abs(scaled@.n) <= int_abs(w@.n) * int_abs(sample_variance@.n),
                            scaled@.d <= w@.d * sample_variance@.d,
                            0 <= int_abs(w@.n) <= 63,
                            w@.d == 1,
                            0 <= int_abs(sample_variance@.n) <= 2473901162496,
                            1 <= sample_variance@.d <= 258048,
                    ;
                    assert(int_abs(scaled@.n) * pop_variance@.d <= 4611686018427387904
                        && scaled@.d * int_abs(pop_variance@.n) <= 4611686018427387904)
                        by (nonlinear_arith)
                        requires
                            0 <= int_abs(scaled@.n) <= 155855773237248,
                            1 <= scaled@.d <= 258048,
                            0 <= int_abs(pop_variance@.n) <= 16384,
                            1 <= pop_variance@.d <= 16384,
                    ;
                    assert(pop_variance@.n != 0) by (nonlinear_arith)
                        requires
                            rat_lt(int_rat(0), pop_variance@),
                            int_rat(0).n == 0,
                            int_rat(0).d == 1,
                            rat_lt(int_rat(0), pop_variance@) == (int_rat(0).n * pop_variance@.d
                                < pop_variance@.n * int_rat(0).d),
                    ;
                    assert(false);
                }
            }
            return Err(crate::common::overflow_error());
        },
    };
    let df = Ratio::from_u64((data.len() - 1) as u64);
    let (null_hypothesis, alt_hypothesis) = variance_hypotheses(tail, pop_variance);
    Ok(
        VarianceTest {
            statistic: stat,
            dist: RefDistribution::ChiSquared { df },
            sample_variance,
            pop_variance,
            tail,
            null_hypothesis,
            alt_hypothesis,
        },
    )
}

/// The contribution of one cell to a chi-squared statistic:
/// `(observed - expected)^2 / expected`, or zero when the expected
/// frequency is zero.
pub open spec fn chi2_cell(o: Rat, e: Rat) -> Rat {
    if e.n == 0 {
        int_rat(0)
    } else {
        rat_div(rat_sq(rat_sub(o, e)), e)
    }
}

/// The goodness-of-fit statistic: the sum of the cell contributions of two
/// equally long frequency sequences.
pub open spec fn gof_stat(o: Seq<Rat>, e: Seq<Rat>) -> Rat
    decreases o.len(),
{
    if o.len() == 0 {
        int_rat(0)
    } else {
        rat_add(gof_stat(o.drop_last(), e.drop_last()), chi2_cell(o.last(), e.last()))
    }
}

/// A cell contribution is well formed.
proof fn lemma_chi2_cell_wf(o: Rat, e: Rat)
    requires
        rat_wf(o),
        rat_wf(e),
    ensures
        rat_wf(chi2_cell(o, e)),
{
    if e.n != 0 {
        lemma_sub_eqv(o, e, o, e);
        lemma_mul_eqv(rat_sub(o, e), rat_sub(o, e), rat_sub(o, e), rat_sub(o, e));
        lemma_div_eqv(rat_sq(rat_sub(o, e)), e, rat_sq(rat_sub(o, e)), e);
    }
}

/// A goodness-of-fit statistic is well formed.
proof fn lemma_gof_stat_wf(o: Seq<Rat>, e: Seq<Rat>)
    requires
        rats_wf(o),
        rats_wf(e),
        o.len() == e.len(),
    ensures
        rat_wf(gof_stat(o, e)),
    decreases o.len(),
{
    if o.len() > 0 {
        assert(rats_wf(o.drop_last()) && rats_wf(e.drop_last())) by {
            assert(forall|j: int|
                0 <= j < o.drop_last().len() ==> #[trigger] o.drop_last()[j] == o[j]);
            assert(forall|j: int|
                0 <= j < e.drop_last().len() ==> #[trigger] e.drop_last()[j] == e[j]);
        }
        lemma_gof_stat_wf(o.drop_last(), e.drop_last());
        lemma_chi2_cell_wf(o.last(), e.last());
        lemma_add_eqv(
            gof_stat(o.drop_last(), e.drop_last()),
            chi2_cell(o.last(), e.last()),
            gof_stat(o.drop_last(), e.drop_last()),
            chi2_cell(o.last(), e.last()),
        );
    }
}

/// Computes one cell contribution exactly, given an expected value
/// equivalent to its specification.
fn chi2_cell_exec(o: Ratio, e: Ratio, Ghost(espec): Ghost<Rat>) -> (r: Option<Ratio>)
    requires
        o.wf(),
        e.wf(),
        rat_wf(espec),
        rat_eqv(e@, espec),
    ensures
        r matches Some(v) ==> v.wf() && rat_eqv(v@, chi2_cell(o@, espec)),
{
    proof {
        lemma_zero_eqv(e@, espec);
        lemma_chi2_cell_wf(o@, espec);
    }
    if e.is_zero() {
        return Some(Ratio::from_i32(0));
    }
    let d = match rsub(o, e, Ghost(o@), Ghost(espec)) {
        Some(v) => v,
        None => {
            return None;
        },
    };
    let ghost dspec = rat_sub(o@, espec);
    let sq = match rmul(d, d, Ghost(dspec), Ghost(dspec)) {
        Some(v) => v,
        None => {
            return None;
        },
    };
    rdiv(sq, e, Ghost(rat_sq(dspec)), Ghost(espec))
}

/// Chi-squared goodness-of-fit test of observed against expected
/// frequencies, always right-tailed, with `count - 1` degrees of freedom.
/// Fails with `ComputeError` when the sequences differ in length, hold
/// fewer than two categories, or a value exceeds the exact-arithmetic
/// range.
pub fn goodness_of_fit(observed: &Vec<Ratio>, expected: &Vec<Ratio>) -> (r: Result<
    OmnibusTest,
    StatError,
>)
    requires
        seq_wf(observed@),
        seq_wf(expected@),
        observed@.len() <= u32::MAX,
    ensures
        observed@.len() != expected@.len() || observed@.len() < 2 ==> (r matches Err(e)
            && e is ComputeError),
        r matches Err(e) ==> e is ComputeError,
        r matches Err(e) ==> (e matches StatError::ComputeError(m) ==> ((m@
            == "Observed and expected lengths must match"@ && observed@.len() != expected@.len())
            || (m@ == "At least two categories required"@ && observed@.len() == expected@.len()
            && observed@.len() < 2) || m@ == range_message())),
        r matches Ok(t) ==> observed@.len() == expected@.len() && observed@.len() >= 2 && t.wf()
            && rat_eqv(t.statistic@, gof_stat(views(observed@), views(expected@))) && (
        t.dist matches RefDistribution::ChiSquared { df } && df@ == int_rat(observed@.len() - 1))
            && t.null_hypothesis@ == "H0: Observed distribution matches expected distribution"@
            && t.alt_hypothesis@
            == "Ha: Observed distribution does not match expected distribution"@,
{
    let ghost so = views(observed@);
    let ghost se = views(expected@);
    if observed.len() != expected.len() {
        return Err(
            StatError::ComputeError(String::from_str("Observed and expected lengths must match")),
        );
    }
    if observed.len() < 2 {
        return Err(StatError::ComputeError(String::from_str("At least two categories required")));
    }
    proof {
        lemma_views_wf(observed@);
        lemma_views_wf(expected@);
    }
    let mut stat = Ratio::from_i32(0);
    let mut i: usize = 0;
    proof {
        assert(gof_stat(so.take(0int), se.take(0int)) == int_rat(0));
    }
    while i < observed.len()
        invariant
            i <= observed@.len(),
            observed@.len() == expected@.len(),
            seq_wf(observed@),
            seq_wf(expected@),
            so == views(observed@),
            se == views(expected@),
            stat.wf(),
            rat_eqv(stat@, gof_stat(so.take(i as int), se.take(i as int))),
        decreases observed@.len() - i,
    {
        proof {
            lemma_views_wf(observed@);
            lemma_views_wf(expected@);
        }
        let term = match chi2_cell_exec(observed[i], expected[i], Ghost(se[i as int])) {
            Some(v) => v,
            None => {
                return Err(crate::common::overflow_error());
            },
        };
        proof {
            crate::stats::lemma_take_wf(so, i as int);
            crate::stats::lemma_take_wf(se, i as int);
            crate::stats::lemma_take_wf(so, i + 1);
            crate::stats::lemma_take_wf(se, i + 1);
            lemma_gof_stat_wf(so.take(i as int), se.take(i as int));
            lemma_chi2_cell_wf(so[i as int], se[i as int]);
        }
        let next = match radd(stat, term, Ghost(gof_stat(so.take(i as int), se.take(i as int))),
            Ghost(chi2_cell(so[i as int], se[i as int]))) {
            Some(v) => v,
            None => {
                return Err(crate::common::overflow_error());
            },
        };
        proof {
            assert(so.take(i + 1).drop_last() =~= so.take(i as int));
            assert(se.take(i + 1).drop_last() =~= se.take(i as int));
            assert(so.take(i + 1).last() == so[i as int]);
            assert(se.take(i + 1).last() == se[i as int]);
            lemma_gof_stat_wf(so.take(i + 1), se.take(i + 1));
            lemma_eqv_trans(
                next@,
                rat_add(
                    gof_stat(so.take(i as int), se.take(i as int)),
                    chi2_cell(so[i as int], se[i as int]),
                ),
                gof_stat(so.take(i + 1), se.take(i + 1)),
            );
        }
        stat = next;
        i = i + 1;
    }
    proof {
        assert(so.take(so.len() as int) =~= so);
        assert(se.take(se.len() as int) =~= se);
    }
    let df = Ratio::from_u64((observed.len() - 1) as u64);
    Ok(
        OmnibusTest {
            statistic: stat,
            dist: RefDistribution::ChiSquared { df },
            null_hypothesis: String::from_str(
                "H0: Observed distribution matches expected distribution",
            ),
            alt_hypothesis: String::from_str(
                "Ha: Observed distribution does not match expected distribution",
            ),
        },
    )
}

/// The mathematical values of a contingency table.
pub open spec fn table_views(t: Seq<Vec<Ratio>>) -> Seq<Seq<Rat>> {
    t.map_values(|v: Vec<Ratio>| views(v@))
}

/// The table is rectangular with `c` columns.
pub open spec fn rectangular(t: Seq<Seq<Rat>>, c: int) -> bool {
    forall|i: int| 0 <= i < t.len() ==> #[trigger] t[i].len() == c
}

/// Every entry of the table is well formed.
pub open spec fn table_wf(t: Seq<Seq<Rat>>) -> bool {
    forall|i: int| 0 <= i < t.len() ==> rats_wf(#[trigger] t[i])
}

/// Grand total of the table: the sum of all row sums.
pub open spec fn table_total(t: Seq<Seq<Rat>>) -> Rat
    decreases t.len(),
{
    if t.len() == 0 {
        int_rat(0)
    } else {
        rat_add(table_total(t.drop_last()), rat_sum(t.last()))
    }
}

/// Total of column `j` of the table.
pub open spec fn col_total(t: Seq<Seq<Rat>>, j: int) -> Rat
    decreases t.len(),
{
    if t.len() == 0 {
        int_rat(0)
    } else {
        rat_add(col_total(t.drop_last(), j), t.last()[j])
    }
}

/// Expected frequency of cell `(i, j)` under independence:
/// `row_total * col_total / grand_total`.
pub open spec fn expected_cell(t: Seq<Seq<Rat>>, i: int, j: int) -> Rat {
    rat_div(rat_mul(rat_sum(t[i]), col_total(t, j)), table_total(t))
}

/// Partial chi-squared sum over the first `j` cells of row `i`.
pub open spec fn ind_row_sum(t: Seq<Seq<Rat>>, i: int, j: int) -> Rat
    decreases j,
{
    if j <= 0 {
        int_rat(0)
    } else {
        rat_add(ind_row_sum(t, i, j - 1), chi2_cell(t[i][j - 1], expected_cell(t, i, j - 1)))
    }
}

/// Partial chi-squared sum over the first `i` full rows.
pub open spec fn ind_stat_upto(t: Seq<Seq<Rat>>, i: int, c: int) -> Rat
    decreases i,
{
    if i <= 0 {
        int_rat(0)
    } else {
        rat_add(ind_stat_upto(t, i - 1, c), ind_row_sum(t, i - 1, c))
    }
}

/// The chi-squared independence statistic of an `r x c` table.
pub open spec fn ind_stat(t: Seq<Seq<Rat>>, c: int) -> Rat {
    ind_stat_upto(t, t.len() as int, c)
}

/// The grand total of a well-formed table is well formed.
proof fn lemma_table_total_wf(t: Seq<Seq<Rat>>)
    requires
        table_wf(t),
    ensures
        rat_wf(table_total(t)),
    decreases t.len(),
{
    if t.len() > 0 {
        assert(table_wf(t.drop_last())) by {
            assert(forall|i: int|
                0 <= i < t.drop_last().len() ==> #[trigger] t.drop_last()[i] == t[i]);
        }
        lemma_table_total_wf(t.drop_last());
        lemma_sum_wf(t.last());
        lemma_add_eqv(
            table_total(t.drop_last()),
            rat_sum(t.last()),
            table_total(t.drop_last()),
            rat_sum(t.last()),
        );
    }
}

/// A column total of a well-formed table is well formed.
proof fn lemma_col_total_wf(t: Seq<Seq<Rat>>, j: int, c: int)
    requires
        table_wf(t),
        rectangular(t, c),
        0 <= j < c,
    ensures
        rat_wf(col_total(t, j)),
    decreases t.len(),
{
    if t.len() > 0 {
        assert(table_wf(t.drop_last()) && rectangular(t.drop_last(), c)) by {
            assert(forall|i: int|
                0 <= i < t.drop_last().len() ==> #[trigger] t.drop_last()[i] == t[i]);
        }
        lemma_col_total_wf(t.drop_last(), j, c);
        assert(rat_wf(t.last()[j]));
        lemma_add_eqv(col_total(t.drop_last(), j), t.last()[j], col_total(t.drop_last(), j), t.last()[j]);
    }
}

/// An expected frequency of a table with a nonzero grand total is well
/// formed.
proof fn lemma_expected_cell_wf(t: Seq<Seq<Rat>>, i: int, j: int, c: int)
    requires
        table_wf(t),
        rectangular(t, c),
        0 <= i < t.len(),
        0 <= j < c,
        table_total(t).n != 0,
    ensures
        rat_wf(expected_cell(t, i, j)),
{
    lemma_sum_wf(t[i]);
    lemma_col_total_wf(t, j, c);
    lemma_table_total_wf(t);
    lemma_mul_eqv(rat_sum(t[i]), col_total(t, j), rat_sum(t[i]), col_total(t, j));
    lemma_div_eqv(
        rat_mul(rat_sum(t[i]), col_total(t, j)),
        table_total(t),
        rat_mul(rat_sum(t[i]), col_total(t, j)),
        table_total(t),
    );
}

/// A partial row sum of the independence statistic is well formed.
proof fn lemma_ind_row_sum_wf(t: Seq<Seq<Rat>>, i: int, j: int, c: int)
    requires
        table_wf(t),
        rectangular(t, c),
        0 <= i < t.len(),
        0 <= j <= c,
        table_total(t).n != 0,
    ensures
        rat_wf(ind_row_sum(t, i, j)),
    decreases j,
{
    if j > 0 {
        lemma_ind_row_sum_wf(t, i, j - 1, c);
        lemma_expected_cell_wf(t, i, j - 1, c);
        assert(rat_wf(t[i][j - 1]));
        lemma_chi2_cell_wf(t[i][j - 1], expected_cell(t, i, j - 1));
        lemma_add_eqv(
            ind_row_sum(t, i, j - 1),
            chi2_cell(t[i][j - 1], expected_cell(t, i, j - 1)),
            ind_row_sum(t, i, j - 1),
            chi2_cell(t[i][j - 1], expected_cell(t, i, j - 1)),
        );
    }
}

/// A partial independence statistic is well formed.
proof fn lemma_ind_stat_upto_wf(t: Seq<Seq<Rat>>, i: int, c: int)
    requires
        table_wf(t),
        rectangular(t, c),
        0 <= i <= t.len(),
        1 <= c,
        table_total(t).n != 0,
    ensures
        rat_wf(ind_stat_upto(t, i, c)),
    decreases i,
{
    if i > 0 {
        lemma_ind_stat_upto_wf(t, i - 1, c);
        lemma_ind_row_sum_wf(t, i - 1, c, c);
        lemma_add_eqv(
            ind_stat_upto(t, i - 1, c),
            ind_row_sum(t, i - 1, c),
            ind_stat_upto(t, i - 1, c),
            ind_row_sum(t, i - 1, c),
        );
    }
}

/// Chi-squared test of independence on a contingency table of observed
/// frequencies, always right-tailed, with `(rows - 1) * (cols - 1)`
/// degrees of freedom.  Fails with `ComputeError` when the table has fewer
/// than two rows or columns, ragged rows, a zero total frequency, or a
/// value that exceeds the exact-arithmetic range.
pub fn independence(contingency_table: &Vec<Vec<Ratio>>) -> (r: Result<OmnibusTest, StatError>)
    requires
        forall|i: int|
            0 <= i < contingency_table@.len() ==> seq_wf(#[trigger] contingency_table@[i]@),
        contingency_table@.len() <= 10000,
        forall|i: int|
            0 <= i < contingency_table@.len() ==> #[trigger] contingency_table@[i]@.len() <= 10000,
    ensures
        r matches Err(e) ==> e is ComputeError,
        r matches Err(e) ==> (e matches StatError::ComputeError(m) ==> ((m@
            == "At least two rows required"@ && contingency_table@.len() < 2) || (m@
            == "All rows must have equal and ≥2 columns"@ && contingency_table@.len() >= 2 && (
            contingency_table@[0]@.len() < 2 || !rectangular(
                table_views(contingency_table@),
                contingency_table@[0]@.len() as int,
            ))) || (m@ == "Total frequency must be greater than zero"@ && rat_eqv(
            table_total(table_views(contingency_table@)),
            int_rat(0),
        )) || m@ == range_message())),
        contingency_table@.len() < 2 ==> r is Err,
        r matches Ok(t) ==> {
            let tv = table_views(contingency_table@);
            let c = contingency_table@[0]@.len() as int;
            contingency_table@.len() >= 2 && c >= 2 && rectangular(tv, c) && !rat_eqv(
                table_total(tv),
                int_rat(0),
            ) && t.wf() && rat_eqv(t.statistic@, ind_stat(tv, c)) && (
            t.dist matches RefDistribution::ChiSquared { df } && df@ == int_rat(
                (tv.len() - 1) * (c - 1),
            )) && t.null_hypothesis@ == "H0: Variables are independent"@ && t.alt_hypothesis@
                == "Ha: Variables are not independent"@
        },
{
    let ghost tv = table_views(contingency_table@);
    let num_rows = contingency_table.len();
    if num_rows < 2 {
        return Err(StatError::ComputeError(String::from_str("At least two rows required")));
    }
    let num_cols = contingency_table[0].len();
    if num_cols < 2 {
        return Err(
            StatError::ComputeError(String::from_str("All rows must have equal and ≥2 columns")),
        );
    }
    let mut i: usize = 0;
    while i < num_rows
        invariant
            i <= num_rows,
            num_rows == contingency_table@.len(),
            tv == table_views(contingency_table@),
            num_cols == contingency_table@[0]@.len(),
            forall|j: int| 0 <= j < i ==> #[trigger] tv[j].len() == num_cols,
        decreases num_rows - i,
    {
        if contingency_table[i].len() != num_cols {
            proof {
                assert(tv[i as int] == views(contingency_table@[i as int]@));
                assert(tv[i as int].len() != num_cols);
                assert(!rectangular(tv, num_cols as int));
            }
            return Err(
                StatError::ComputeError(
                    String::from_str("All rows must have equal and ≥2 columns"),
                ),
            );
        }
        i = i + 1;
    }
    proof {
        assert(rectangular(tv, num_cols as int));
        assert(table_wf(tv)) by {
            assert forall|l: int| 0 <= l < tv.len() implies rats_wf(#[trigger] tv[l]) by {
                lemma_views_wf(contingency_table@[l]@);
            }
        }
        lemma_table_total_wf(tv);
    }
    // Row totals.
    let mut row_totals: Vec<Ratio> = Vec::new();
    let mut i2: usize = 0;
    while i2 < num_rows
        invariant
            i2 <= num_rows,
            num_rows == contingency_table@.len(),
            tv == table_views(contingency_table@),
            forall|j: int|
                0 <= j < contingency_table@.len() ==> seq_wf(#[trigger] contingency_table@[j]@),
            table_wf(tv),
            row_totals@.len() == i2,
            forall|j: int|
                0 <= j < i2 ==> (#[trigger] row_totals@[j]).wf() && rat_eqv(
                    row_totals@[j]@,
                    rat_sum(tv[j]),
                ),
        decreases num_rows - i2,
    {
        let rt = match crate::stats::sum(&contingency_table[i2]) {
            Some(v) => v,
            None => {
                return Err(crate::common::overflow_error());
            },
        };
        row_totals.push(rt);
        i2 = i2 + 1;
    }
    // Grand total.
    let mut grand = Ratio::from_i32(0);
    let mut i3: usize = 0;
    proof {
        assert(table_total(tv.take(0int)) == int_rat(0));
    }
    while i3 < num_rows
        invariant
            i3 <= num_rows,
            num_rows == contingency_table@.len(),
            tv == table_views(contingency_table@),
            table_wf(tv),
            row_totals@.len() == num_rows,
            forall|j: int|
                0 <= j < num_rows ==> (#[trigger] row_totals@[j]).wf() && rat_eqv(
                    row_totals@[j]@,
                    rat_sum(tv[j]),
                ),
            grand.wf(),
            rat_eqv(grand@, table_total(tv.take(i3 as int))),
        decreases num_rows - i3,
    {
        proof {
            assert(table_wf(tv.take(i3 as int))) by {
                assert(forall|l: int|
                    0 <= l < i3 ==> #[trigger] tv.take(i3 as int)[l] == tv[l]);
            }
            lemma_table_total_wf(tv.take(i3 as int));
            lemma_sum_wf(tv[i3 as int]);
        }
        let next = match radd(grand, row_totals[i3], Ghost(table_total(tv.take(i3 as int))), Ghost(
            rat_sum(tv[i3 as int]),
        )) {
            Some(v) => v,
            None => {
                return Err(crate::common::overflow_error());
            },
        };
        proof {
            assert(tv.take(i3 + 1).drop_last() =~= tv.take(i3 as int));
            assert(tv.take(i3 + 1).last() == tv[i3 as int]);
            assert(table_wf(tv.take(i3 + 1))) by {
                assert(forall|l: int|
                    0 <= l < i3 + 1 ==> #[trigger] tv.take(i3 + 1)[l] == tv[l]);
            }
            lemma_table_total_wf(tv.take(i3 + 1));
            lemma_eqv_trans(
                next@,
                rat_add(table_total(tv.take(i3 as int)), rat_sum(tv[i3 as int])),
                table_total(tv.take(i3 + 1)),
            );
        }
        grand = next;
        i3 = i3 + 1;
    }
    proof {
        assert(tv.take(tv.len() as int) =~= tv);
    }
    if grand.is_zero() {
        proof {
            lemma_zero_eqv(grand@, table_total(tv));
        }
        return Err(
            StatError::ComputeError(
                String::from_str("Total frequency must be greater than zero"),
            ),
        );
    }
    proof {
        lemma_zero_eqv(grand@, table_total(tv));
    }
    // Column totals.
    let mut col_totals: Vec<Ratio> = Vec::new();
    let mut j: usize = 0;
    while j < num_cols
        invariant
            j <= num_cols,
            num_rows == contingency_table@.len(),
            num_rows >= 2,
            tv == table_views(contingency_table@),
            forall|l: int|
                0 <= l < contingency_table@.len() ==> seq_wf(#[trigger] contingency_table@[l]@),
            table_wf(tv),
            rectangular(tv, num_cols as int),
            col_totals@.len() == j,
            forall|l: int|
                0 <= l < j ==> (#[trigger] col_totals@[l]).wf() && rat_eqv(
                    col_totals@[l]@,
                    col_total(tv, l),
                ),
        decreases num_cols - j,
    {
        let mut acc = Ratio::from_i32(0);
        let mut i4: usize = 0;
        proof {
            assert(col_total(tv.take(0int), j as int) == int_rat(0));
        }
        while i4 < num_rows
            invariant
                i4 <= num_rows,
                j < num_cols,
                num_rows == contingency_table@.len(),
                tv == table_views(contingency_table@),
                forall|l: int|
                    0 <= l < contingency_table@.len() ==> seq_wf(
                        #[trigger] contingency_table@[l]@,
                    ),
                table_wf(tv),
                rectangular(tv, num_cols as int),
                acc.wf(),
                rat_eqv(acc@, col_total(tv.take(i4 as int), j as int)),
            decreases num_rows - i4,
        {
            proof {
                assert(table_wf(tv.take(i4 as int)) && rectangular(
                    tv.take(i4 as int),
                    num_cols as int,
                )) by {
                    assert(forall|l: int|
                        0 <= l < i4 ==> #[trigger] tv.take(i4 as int)[l] == tv[l]);
                }
                lemma_col_total_wf(tv.take(i4 as int), j as int, num_cols as int);
                assert(tv[i4 as int] == views(contingency_table@[i4 as int]@));
                assert(contingency_table@[i4 as int]@.len() == num_cols);
                assert(rat_wf(tv[i4 as int][j as int]));
                assert(contingency_table@[i4 as int]@[j as int]@ == tv[i4 as int][j as int]);
            }
            let next = match radd(acc, contingency_table[i4][j], Ghost(
                col_total(tv.take(i4 as int), j as int),
            ), Ghost(tv[i4 as int][j as int])) {
                Some(v) => v,
                None => {
                    return Err(crate::common::overflow_error());
                },
            };
            proof {
                assert(tv.take(i4 + 1).drop_last() =~= tv.take(i4 as int));
                assert(tv.take(i4 + 1).last() == tv[i4 as int]);
                assert(table_wf(tv.take(i4 + 1)) && rectangular(
                    tv.take(i4 + 1),
                    num_cols as int,
                )) by {
                    assert(forall|l: int|
                        0 <= l < i4 + 1 ==> #[trigger] tv.take(i4 + 1)[l] == tv[l]);
                }
                lemma_col_total_wf(tv.take(i4 + 1), j as int, num_cols as int);
                lemma_eqv_trans(
                    next@,
                    rat_add(col_total(tv.take(i4 as int), j as int), tv[i4 as int][j as int]),
                    col_total(tv.take(i4 + 1), j as int),
                );
            }
            acc = next;
            i4 = i4 + 1;
        }
        proof {
            assert(tv.take(tv.len() as int) =~= tv);
        }
        col_totals.push(acc);
        j = j + 1;
    }
    // Statistic.
    let mut stat = Ratio::from_i32(0);
    let mut i5: usize = 0;
    proof {
        assert(ind_stat_upto(tv, 0int, num_cols as int) == int_rat(0));
    }
    while i5 < num_rows
        invariant
            i5 <= num_rows,
            num_rows == contingency_table@.len(),
            num_rows >= 2,
            num_cols >= 2,
            tv == table_views(contingency_table@),
            forall|l: int|
                0 <= l < contingency_table@.len() ==> seq_wf(#[trigger] contingency_table@[l]@),
            table_wf(tv),
            rectangular(tv, num_cols as int),
            table_total(tv).n != 0,
            row_totals@.len() == num_rows,
            forall|l: int|
                0 <= l < num_rows ==> (#[trigger] row_totals@[l]).wf() && rat_eqv(
                    row_totals@[l]@,
                    rat_sum(tv[l]),
                ),
            col_totals@.len() == num_cols,
            forall|l: int|
                0 <= l < num_cols ==> (#[trigger] col_totals@[l]).wf() && rat_eqv(
                    col_totals@[l]@,
                    col_total(tv, l),
                ),
            grand.wf(),
            rat_eqv(grand@, table_total(tv)),
            stat.wf(),
            rat_eqv(stat@, ind_stat_upto(tv, i5 as int, num_cols as int)),
        decreases num_rows - i5,
    {
        let mut row_acc = Ratio::from_i32(0);
        let mut j2: usize = 0;
        proof {
            assert(ind_row_sum(tv, i5 as int, 0int) == int_rat(0));
        }
        while j2 < num_cols
            invariant
                j2 <= num_cols,
                i5 < num_rows,
                num_rows == contingency_table@.len(),
                num_cols >= 2,
                tv == table_views(contingency_table@),
                forall|l: int|
                    0 <= l < contingency_table@.len() ==> seq_wf(
                        #[trigger] contingency_table@[l]@,
                    ),
                table_wf(tv),
                rectangular(tv, num_cols as int),
                table_total(tv).n != 0,
                row_totals@.len() == num_rows,
                forall|l: int|
                    0 <= l < num_rows ==> (#[trigger] row_totals@[l]).wf() && rat_eqv(
                        row_totals@[l]@,
                        rat_sum(tv[l]),
                    ),
                col_totals@.len() == num_cols,
                forall|l: int|
                    0 <= l < num_cols ==> (#[trigger] col_totals@[l]).wf() && rat_eqv(
                        col_totals@[l]@,
                        col_total(tv, l),
                    ),
                grand.wf(),
                rat_eqv(grand@, table_total(tv)),
                row_acc.wf(),
                rat_eqv(row_acc@, ind_row_sum(tv, i5 as int, j2 as int)),
            decreases num_cols - j2,
        {
            proof {
                lemma_sum_wf(tv[i5 as int]);
                lemma_col_total_wf(tv, j2 as int, num_cols as int);
                lemma_table_total_wf(tv);
            }
            proof {
                assert(tv[i5 as int] == views(contingency_table@[i5 as int]@));
                assert(contingency_table@[i5 as int]@.len() == num_cols);
                assert(contingency_table@[i5 as int]@[j2 as int]@ == tv[i5 as int][j2 as int]);
                assert(rat_wf(tv[i5 as int][j2 as int]));
            }
            let num = match rmul(row_totals[i5], col_totals[j2], Ghost(rat_sum(tv[i5 as int])),
                Ghost(col_total(tv, j2 as int))) {
                Some(v) => v,
                None => {
                    return Err(crate::common::overflow_error());
                },
            };
            let e = match rdiv(num, grand, Ghost(
                rat_mul(rat_sum(tv[i5 as int]), col_total(tv, j2 as int)),
            ), Ghost(table_total(tv))) {
                Some(v) => v,
                None => {
                    return Err(crate::common::overflow_error());
                },
            };
            let term = match chi2_cell_exec(contingency_table[i5][j2], e, Ghost(
                expected_cell(tv, i5 as int, j2 as int),
            )) {
                Some(v) => v,
                None => {
                    return Err(crate::common::overflow_error());
                },
            };
            proof {
                lemma_ind_row_sum_wf(tv, i5 as int, j2 as int, num_cols as int);
                lemma_expected_cell_wf(tv, i5 as int, j2 as int, num_cols as int);
                assert(rat_wf(tv[i5 as int][j2 as int]));
                lemma_chi2_cell_wf(
                    tv[i5 as int][j2 as int],
                    expected_cell(tv, i5 as int, j2 as int),
                );
            }
            let next = match radd(row_acc, term, Ghost(ind_row_sum(tv, i5 as int, j2 as int)),
                Ghost(chi2_cell(tv[i5 as int][j2 as int], expected_cell(tv, i5 as int, j2 as int)))) {
                Some(v) => v,
                None => {
                    return Err(crate::common::overflow_error());
                },
            };
            proof {
                lemma_ind_row_sum_wf(tv, i5 as int, j2 + 1, num_cols as int);
                lemma_eqv_trans(
                    next@,
                    rat_add(
                        ind_row_sum(tv, i5 as int, j2 as int),
                        chi2_cell(
                            tv[i5 as int][j2 as int],
                            expected_cell(tv, i5 as int, j2 as int),
                        ),
                    ),
                    ind_row_sum(tv, i5 as int, j2 + 1),
                );
            }
            row_acc = next;
            j2 = j2 + 1;
        }
        proof {
            lemma_ind_stat_upto_wf(tv, i5 as int, num_cols as int);
            lemma_ind_row_sum_wf(tv, i5 as int, num_cols as int, num_cols as int);
        }
        let next = match radd(stat, row_acc, Ghost(ind_stat_upto(tv, i5 as int, num_cols as int)),
            Ghost(ind_row_sum(tv, i5 as int, num_cols as int))) {
            Some(v) => v,
            None => {
                return Err(crate::common::overflow_error());
            },
        };
        proof {
            lemma_ind_stat_upto_wf(tv, i5 + 1, num_cols as int);
            lemma_eqv_trans(
                next@,
                rat_add(
                    ind_stat_upto(tv, i5 as int, num_cols as int),
                    ind_row_sum(tv, i5 as int, num_cols as int),
                ),
                ind_stat_upto(tv, i5 + 1, num_cols as int),
            );
        }
        stat = next;
        i5 = i5 + 1;
    }
    proof {
        assert((num_rows - 1) * (num_cols - 1) <= 100000000) by (nonlinear_arith)
            requires
                2 <= num_rows <= 10000,
                2 <= num_cols <= 10000,
        ;
        assert(1 <= (num_rows - 1) * (num_cols - 1)) by (nonlinear_arith)
            requires
                2 <= num_rows,
                2 <= num_cols,
        ;
        assert(rat_eqv(stat@, ind_stat(tv, num_cols as int)));
        assert(contingency_table@[0int]@.len() == num_cols);
    }
    let df = Ratio::from_u64(((num_rows - 1) * (num_cols - 1)) as u64);
    Ok(
        OmnibusTest {
            statistic: stat,
            dist: RefDistribution::ChiSquared { df },
            null_hypothesis: String::from_str("H0: Variables are independent"),
            alt_hypothesis: String::from_str("Ha: Variables are not independent"),
        },
    )
}

/// Sum of a sequence of counts.
pub open spec fn count_total(s: Seq<u64>) -> int
    decreases s.len(),
{
    if s.len() == 0 {
        0
    } else {
        count_total(s.drop_last()) + s.last()
    }
}

/// Sum of the squared quantile-over-proportion terms of the categorical
/// sample-size formula: each term is `(q / (count_i / total))^2`.
pub open spec fn categorical_terms(s: Seq<u64>, total: int, q: Rat) -> Rat
    decreases s.len(),
{
    if s.len() == 0 {
        int_rat(0)
    } else {
        rat_add(
            categorical_terms(s.drop_last(), total, q),
            rat_sq(rat_div(q, Rat { n: s.last() as int, d: total })),
        )
    }
}

/// The value whose ceiling the categorical sample-size formulas return:
/// the mean over categories of `(q / proportion_i)^2`.
pub open spec fn categorical_sample_size_value(s: Seq<u64>, q: Rat) -> Rat {
    rat_div_int(categorical_terms(s, count_total(s), q), s.len() as int)
}

/// The term sum is well formed and non-negative when every count is
/// positive.
proof fn lemma_categorical_terms_wf(s: Seq<u64>, total: int, q: Rat)
    requires
        rat_wf(q),
        total >= 1,
        forall|i: int| 0 <= i < s.len() ==> #[trigger] s[i] >= 1,
    ensures
        rat_wf(categorical_terms(s, total, q)),
        rat_le(int_rat(0), categorical_terms(s, total, q)),
    decreases s.len(),
{
    if s.len() > 0 {
        assert(forall|i: int| 0 <= i < s.drop_last().len() ==> #[trigger] s.drop_last()[i] >= 1)
            by {
            assert(forall|i: int|
                0 <= i < s.drop_last().len() ==> #[trigger] s.drop_last()[i] == s[i]);
        }
        lemma_categorical_terms_wf(s.drop_last(), total, q);
        let p = Rat { n: s.last() as int, d: total };
        assert(s.last() >= 1);
        lemma_div_eqv(q, p, q, p);
        crate::rat::lemma_self_mul_nonneg(rat_div(q, p));
        lemma_mul_eqv(rat_div(q, p), rat_div(q, p), rat_div(q, p), rat_div(q, p));
        crate::rat::lemma_add_nonneg(
            categorical_terms(s.drop_last(), total, q),
            rat_sq(rat_div(q, p)),
        );
        lemma_add_eqv(
            categorical_terms(s.drop_last(), total, q),
            rat_sq(rat_div(q, p)),
            categorical_terms(s.drop_last(), total, q),
            rat_sq(rat_div(q, p)),
        );
    }
}

/// The shared body of the categorical sample-size formulas: the ceiling of
/// the mean over categories of `(q_alpha / proportion_i)^2`.
fn categorical_sample_size(expected_counts: &Vec<u64>, q_alpha: Ratio) -> (r: Result<
    u64,
    StatError,
>)
    requires
        q_alpha.wf(),
        expected_counts@.len() <= 10000,
        forall|i: int| 0 <= i < expected_counts@.len() ==> #[trigger] expected_counts@[i]
            <= 0x100000000,
    ensures
        expected_counts@.len() < 2 ==> r is Err,
        r matches Err(e) ==> e is ComputeError,
        r matches Err(e) ==> (e matches StatError::ComputeError(m) ==> ((m@
            == "At least two categories required"@ && expected_counts@.len() < 2) || (m@
            == "Expected counts must be positive"@ && ((exists|i: int|
            0 <= i < expected_counts@.len() && #[trigger] expected_counts@[i] == 0)
            || count_total(expected_counts@) == 0)) || m@ == range_message())),
        (exists|i: int|
            0 <= i < expected_counts@.len() && #[trigger] expected_counts@[i] == 0) ==> r is Err,
        r matches Ok(n) ==> expected_counts@.len() >= 2 && count_total(expected_counts@) >= 1 && (
        forall|i: int| 0 <= i < expected_counts@.len() ==> #[trigger] expected_counts@[i] >= 1)
            && rat_le(
            categorical_sample_size_value(expected_counts@, q_alpha@),
            int_rat(n as int),
        ) && rat_lt(
            int_rat(n as int - 1),
            categorical_sample_size_value(expected_counts@, q_alpha@),
        ),
{
    let ghost cs = expected_counts@;
    let k = expected_counts.len();
    if k < 2 {
        return Err(StatError::ComputeError(String::from_str("At least two categories required")));
    }
    // Total count, and a check that every category is populated.
    let mut total: u64 = 0;
    let mut i: usize = 0;
    proof {
        assert(count_total(cs.take(0int)) == 0);
    }
    while i < k
        invariant
            i <= k,
            k == cs.len(),
            cs == expected_counts@,
            k <= 10000,
            forall|l: int| 0 <= l < cs.len() ==> #[trigger] cs[l] <= 0x100000000,
            forall|l: int| 0 <= l < i ==> #[trigger] cs[l] >= 1,
            total as int == count_total(cs.take(i as int)),
            total <= i * 0x100000000,
        decreases k - i,
    {
        let c = expected_counts[i];
        if c == 0 {
            return Err(StatError::ComputeError(String::from_str("Expected counts must be positive")));
        }
        proof {
            assert(cs.take(i + 1).drop_last() =~= cs.take(i as int));
            assert(cs.take(i + 1).last() == cs[i as int]);
            assert((i + 1) * 0x100000000 == i * 0x100000000 + 0x100000000) by (nonlinear_arith);
        }
        total = total + c;
        i = i + 1;
    }
    proof {
        assert(cs.take(cs.len() as int) =~= cs);
        assert(total <= 10000 * 0x100000000) by (nonlinear_arith)
            requires
                total <= k * 0x100000000,
                k <= 10000,
        ;
    }
    if total == 0 {
        return Err(StatError::ComputeError(String::from_str("Expected counts must be positive")));
    }
    // Terms.
    let mut acc = Ratio::from_i32(0);
    let mut i2: usize = 0;
    proof {
        assert(categorical_terms(cs.take(0int), total as int, q_alpha@) == int_rat(0));
    }
    while i2 < k
        invariant
            i2 <= k,
            k == cs.len(),
            cs == expected_counts@,
            q_alpha.wf(),
            total >= 1,
            total <= 0x4000000000000000,
            forall|l: int| 0 <= l < cs.len() ==> #[trigger] cs[l] >= 1,
            forall|l: int| 0 <= l < cs.len() ==> #[trigger] cs[l] <= 0x100000000,
            acc.wf(),
            rat_eqv(acc@, categorical_terms(cs.take(i2 as int), total as int, q_alpha@)),
        decreases k - i2,
    {
        let p = match Ratio::new(expected_counts[i2] as i64, total as i64) {
            Some(v) => v,
            None => {
                return Err(crate::common::overflow_error());
            },
        };
        let ghost pspec = Rat { n: cs[i2 as int] as int, d: total as int };
        proof {
            assert(rat_eqv(p@, pspec));
            assert(rat_wf(pspec));
            assert(pspec.n != 0);
        }
        let ratio = match rdiv(q_alpha, p, Ghost(q_alpha@), Ghost(pspec)) {
            Some(v) => v,
            None => {
                return Err(crate::common::overflow_error());
            },
        };
        let ghost rsp = rat_div(q_alpha@, pspec);
        let sq = match rmul(ratio, ratio, Ghost(rsp), Ghost(rsp)) {
            Some(v) => v,
            None => {
                return Err(crate::common::overflow_error());
            },
        };
        proof {
            assert(forall|l: int|
                0 <= l < i2 ==> #[trigger] cs.take(i2 as int)[l] == cs[l]);
            lemma_categorical_terms_wf(cs.take(i2 as int), total as int, q_alpha@);
        }
        let next = match radd(acc, sq, Ghost(
            categorical_terms(cs.take(i2 as int), total as int, q_alpha@),
        ), Ghost(rat_sq(rsp))) {
            Some(v) => v,
            None => {
                return Err(crate::common::overflow_error());
            },
        };
        proof {
            assert(cs.take(i2 + 1).drop_last() =~= cs.take(i2 as int));
            assert(cs.take(i2 + 1).last() == cs[i2 as int]);
            assert(forall|l: int|
                0 <= l < i2 + 1 ==> #[trigger] cs.take(i2 + 1)[l] == cs[l]);
            lemma_categorical_terms_wf(cs.take(i2 + 1), total as int, q_alpha@);
            lemma_eqv_trans(
                next@,
                rat_add(
                    categorical_terms(cs.take(i2 as int), total as int, q_alpha@),
                    rat_sq(rsp),
                ),
                categorical_terms(cs.take(i2 + 1), total as int, q_alpha@),
            );
        }
        acc = next;
        i2 = i2 + 1;
    }
    proof {
        assert(cs.take(cs.len() as int) =~= cs);
        lemma_categorical_terms_wf(cs, total as int, q_alpha@);
    }
    let value = match rdiv_u32(acc, k as u32, Ghost(categorical_terms(cs, total as int, q_alpha@))) {
        Some(v) => v,
        None => {
            return Err(crate::common::overflow_error());
        },
    };
    let ghost vsp = categorical_sample_size_value(cs, q_alpha@);
    proof {
        crate::rat::lemma_div_int_nonneg(categorical_terms(cs, total as int, q_alpha@), k as int);
        crate::rat::lemma_div_int_congruence(
            categorical_terms(cs, total as int, q_alpha@),
            categorical_terms(cs, total as int, q_alpha@),
            k as int,
        );
        crate::rat::lemma_le_eqv(int_rat(0), vsp, int_rat(0), value@);
    }
    let n = value.ceil_to_u64();
    proof {
        crate::rat::lemma_le_eqv(value@, int_rat(n as int), vsp, int_rat(n as int));
        crate::rat::lemma_le_eqv(int_rat(n as int - 1), value@, int_rat(n as int - 1), vsp);
    }
    Ok(n)
}

/// Required sample size of a chi-squared goodness-of-fit test: the ceiling
/// of the mean over categories of `(q_alpha / proportion_i)^2`, where
/// `q_alpha` is the caller-evaluated chi-squared quantile at `1 - alpha`
/// and `proportion_i` each expected count over the total.  Fails with
/// `ComputeError` on fewer than two categories or a zero expected count.
pub fn chi2_sample_size_gof(expected_counts: &Vec<u64>, q_alpha: Ratio) -> (r: Result<
    u64,
    StatError,
>)
    requires
        q_alpha.wf(),
        expected_counts@.len() <= 10000,
        forall|i: int| 0 <= i < expected_counts@.len() ==> #[trigger] expected_counts@[i]
            <= 0x100000000,
    ensures
        expected_counts@.len() < 2 ==> r is Err,
        r matches Err(e) ==> e is ComputeError,
        r matches Err(e) ==> (e matches StatError::ComputeError(m) ==> ((m@
            == "At least two categories required"@ && expected_counts@.len() < 2) || (m@
            == "Expected counts must be positive"@ && ((exists|i: int|
            0 <= i < expected_counts@.len() && #[trigger] expected_counts@[i] == 0)
            || count_total(expected_counts@) == 0)) || m@ == range_message())),
        r matches Ok(n) ==> expected_counts@.len() >= 2 && rat_le(
            categorical_sample_size_value(expected_counts@, q_alpha@),
            int_rat(n as int),
        ) && rat_lt(
            int_rat(n as int - 1),
            categorical_sample_size_value(expected_counts@, q_alpha@),
        ),
{
    categorical_sample_size(expected_counts, q_alpha)
}

/// Required sample size of a chi-squared independence test: the same
/// formula as the goodness-of-fit calculator, applied to the expected
/// counts of the contingency cells.
pub fn chi2_sample_size_ind(expected_counts: &Vec<u64>, q_alpha: Ratio) -> (r: Result<
    u64,
    StatError,
>)
    requires
        q_alpha.wf(),
        expected_counts@.len() <= 10000,
        forall|i: int| 0 <= i < expected_counts@.len() ==> #[trigger] expected_counts@[i]
            <= 0x100000000,
    ensures
        expected_counts@.len() < 2 ==> r is Err,
        r matches Err(e) ==> e is ComputeError,
        r matches Err(e) ==> (e matches StatError::ComputeError(m) ==> ((m@
            == "At least two categories required"@ && expected_counts@.len() < 2) || (m@
            == "Expected counts must be positive"@ && ((exists|i: int|
            0 <= i < expected_counts@.len() && #[trigger] expected_counts@[i] == 0)
            || count_total(expected_counts@) == 0)) || m@ == range_message())),
        r matches Ok(n) ==> expected_counts@.len() >= 2 && rat_le(
            categorical_sample_size_value(expected_counts@, q_alpha@),
            int_rat(n as int),
        ) && rat_lt(
            int_rat(n as int - 1),
            categorical_sample_size_value(expected_counts@, q_alpha@),
        ),
{
    categorical_sample_size(expected_counts, q_alpha)
}

/// Required sample size of a chi-squared variance test: the ceiling of
/// `((q_alpha + q_power) * variance / effect_size)^2`, with the quantiles
/// read from the reference chi-squared distribution at `1 - alpha` and at
/// the desired power.  Fails with `ComputeError` on a zero effect size.
pub fn chi2_sample_size_variance(
    effect_size: Ratio,
    variance: Ratio,
    q_alpha: Ratio,
    q_power: Ratio,
) -> (r: Result<u64, StatError>)
    requires
        effect_size.wf(),
        variance.wf(),
        q_alpha.wf(),
        q_power.wf(),
    ensures
        rat_eqv(effect_size@, int_rat(0)) ==> r is Err,
        q_alpha.bounded(128) && q_power.bounded(128) && variance.bounded(128)
            && effect_size.bounded(128) && effect_size@.n != 0 ==> r is Ok,
        r matches Err(e) ==> e is ComputeError,
        r matches Err(e) ==> (e matches StatError::ComputeError(m) ==> ((m@
            == "Effect size must be nonzero"@ && rat_eqv(effect_size@, int_rat(0))) || m@
            == range_message())),
        r matches Ok(n) ==> rat_le(
            quantile_formula_sq(q_alpha@, q_power@, variance@, effect_size@),
            int_rat(n as int),
        ) && rat_lt(
            int_rat(n as int - 1),
            quantile_formula_sq(q_alpha@, q_power@, variance@, effect_size@),
        ),
{
    ceil_quantile_formula(q_alpha, q_power, variance, effect_size)
}

} // verus!
