//! Student's t-tests: one-sample, paired two-sample, and independent
//! two-sample with pooled or Welch variance handling, plus the companion
//! sample-size formula.
//!
//! Each test prepares a [`LocationTest`]: the exact statistic (as its
//! signed square), the reference distribution, the interval center and the
//! exact square of the standard error.  A caller evaluates the
//! distribution and hands the values to
//! [`crate::common::finish_location_test`].

use vstd::prelude::*;
use vstd::string::*;
use crate::rat::{
    Rat, Ratio, int_rat, rat_add, rat_sub, rat_mul, rat_sq, rat_signed_sq, rat_abs, rat_div,
    rat_div_int, rat_neg, rat_eqv, rat_le, rat_lt, rat_wf, int_abs, radd, rsub, rmul, rdiv,
    rdiv_u32,
    lemma_eqv_trans, lemma_abs_eqv, lemma_mul_eqv, lemma_zero_eqv, lemma_sub_eqv, lemma_add_eqv,
    lemma_div_eqv, lemma_div_int_congruence,
};
use crate::stats::{
    views, seq_wf, rats_wf, rat_sum, rat_mean, rat_dev_sq_sum, rat_sample_var, mean,
    mean_and_sample_variance, lemma_views_wf, lemma_sum_wf, lemma_div_int_eqv,
    lemma_dev_sq_sum_eqv, ptwise_eqv, lemma_mean_ptwise_eqv, lemma_var_ptwise_eqv,
};
use crate::common::{LocationTest, RefDistribution, StatError, TailType, range_message, zero_se_message};
use crate::text::{
    one_sample_mean_null_text, one_sample_mean_alt_text, two_sample_mean_null_text,
    two_sample_mean_alt_text, one_sample_mean_hypotheses, two_sample_mean_hypotheses,
};

verus! {

/// Square of the standard error of a one-sample mean: `var / n`.
pub open spec fn one_sample_se_sq(s: Seq<Rat>) -> Rat {
    rat_div_int(rat_sample_var(s), s.len() as int)
}

/// Signed square of the one-sample t statistic
/// `(mean - mu0) / sqrt(var / n)`.
pub open spec fn one_sample_t_stat_sq(s: Seq<Rat>, mu0: Rat) -> Rat {
    rat_div(rat_signed_sq(rat_sub(rat_mean(s), mu0)), one_sample_se_sq(s))
}

/// Element-wise differences of two equally long sequences.
pub open spec fn paired_diffs(a: Seq<Rat>, b: Seq<Rat>) -> Seq<Rat> {
    Seq::new(a.len(), |i: int| rat_sub(a[i], b[i]))
}

/// `1/n1 + 1/n2`.
pub open spec fn inv_n_sum(n1: int, n2: int) -> Rat {
    rat_add(Rat { n: 1, d: n1 }, Rat { n: 1, d: n2 })
}

/// Pooled variance: the `(n-1)`-weighted average of the two sample
/// variances.
pub open spec fn pooled_variance(s1: Seq<Rat>, s2: Seq<Rat>) -> Rat {
    rat_div_int(
        rat_add(
            rat_mul(int_rat(s1.len() - 1), rat_sample_var(s1)),
            rat_mul(int_rat(s2.len() - 1), rat_sample_var(s2)),
        ),
        s1.len() + s2.len() - 2,
    )
}

/// Square of the pooled standard error:
/// `pooled_var * (1/n1 + 1/n2)`.
pub open spec fn pooled_se_sq(s1: Seq<Rat>, s2: Seq<Rat>) -> Rat {
    rat_mul(pooled_variance(s1, s2), inv_n_sum(s1.len() as int, s2.len() as int))
}

/// Square of the Welch standard error: `var1/n1 + var2/n2`.
pub open spec fn welch_se_sq(s1: Seq<Rat>, s2: Seq<Rat>) -> Rat {
    rat_add(
        rat_div_int(rat_sample_var(s1), s1.len() as int),
        rat_div_int(rat_sample_var(s2), s2.len() as int),
    )
}

/// Denominator of the Welch-Satterthwaite degrees of freedom:
/// `(var1/n1)^2/(n1-1) + (var2/n2)^2/(n2-1)`.
pub open spec fn welch_df_denom(s1: Seq<Rat>, s2: Seq<Rat>) -> Rat {
    rat_add(
        rat_div_int(rat_sq(rat_div_int(rat_sample_var(s1), s1.len() as int)), s1.len() - 1),
        rat_div_int(rat_sq(rat_div_int(rat_sample_var(s2), s2.len() as int)), s2.len() - 1),
    )
}

/// The Welch-Satterthwaite degrees of freedom.
pub open spec fn welch_df(s1: Seq<Rat>, s2: Seq<Rat>) -> Rat {
    rat_div(rat_sq(welch_se_sq(s1, s2)), welch_df_denom(s1, s2))
}

/// Square of the standard error of the independent two-sample test under
/// the chosen pooling mode.
pub open spec fn ind_se_sq(s1: Seq<Rat>, s2: Seq<Rat>, pooled: bool) -> Rat {
    if pooled {
        pooled_se_sq(s1, s2)
    } else {
        welch_se_sq(s1, s2)
    }
}

/// Signed square of the independent two-sample t statistic
/// `(mean1 - mean2) / se`.
pub open spec fn ind_t_stat_sq(s1: Seq<Rat>, s2: Seq<Rat>, pooled: bool) -> Rat {
    rat_div(rat_signed_sq(rat_sub(rat_mean(s1), rat_mean(s2))), ind_se_sq(s1, s2, pooled))
}

/// One-sample t-test: prepares the comparison of the sample mean against
/// `pop_mean`, with `n - 1` degrees of freedom.  Fails with `EmptyData` on
/// an empty sample, `InsufficientData` on a single observation, and
/// `ComputeError` when the sample variance is zero (zero standard error)
/// or a value exceeds the exact-arithmetic range.
pub fn t_test(data: &Vec<Ratio>, pop_mean: Ratio, tail: TailType) -> (r: Result<
    LocationTest,
    StatError,
>)
    requires
        seq_wf(data@),
        pop_mean.wf(),
        data@.len() <= u32::MAX,
    ensures
        data@.len() == 0 ==> (r matches Err(e) && e is EmptyData),
        data@.len() == 1 ==> (r matches Err(e) && e is InsufficientData),
        r matches Err(e) ==> ((e is EmptyData <==> data@.len() == 0) && (e is InsufficientData
            <==> data@.len() == 1) && (e is ComputeError ==> data@.len() >= 2)),
        r matches Err(e) ==> (e matches StatError::ComputeError(m) ==> ((m@ == zero_se_message()
            && data@.len() >= 2 && rat_eqv(rat_sample_var(views(data@)), int_rat(0))) || m@
            == range_message())),
        data@.len() >= 2 && rat_eqv(rat_sample_var(views(data@)), int_rat(0)) ==> r is Err,
        r matches Ok(t) ==> data@.len() >= 2 && t.wf() && !rat_eqv(
            rat_sample_var(views(data@)),
            int_rat(0),
        ) && rat_eqv(t.statistic@, one_sample_t_stat_sq(views(data@), pop_mean@)) && (
        t.dist matches RefDistribution::StudentsT { df } && df@ == int_rat(data@.len() - 1))
            && rat_eqv(t.center@, rat_mean(views(data@))) && rat_eqv(
            t.se_square@,
            one_sample_se_sq(views(data@)),
        ) && t.tail == tail && t.null_hypothesis@ == one_sample_mean_null_text(tail, pop_mean@)
            && t.alt_hypothesis@ == one_sample_mean_alt_text(tail, pop_mean@),
        crate::stats::bounded_ints(views(data@), 1024) && 2 <= data@.len() <= 64 && pop_mean@.d
            == 1 && -1024 <= pop_mean@.n <= 1024 && !rat_eqv(
            rat_sample_var(views(data@)),
            int_rat(0),
        ) ==> r is Ok,
{
    let ghost s = views(data@);
    let ghost in_range = crate::stats::bounded_ints(s, 1024) && 2 <= data@.len() <= 64
        && pop_mean@.d == 1 && -1024 <= pop_mean@.n <= 1024 && !rat_eqv(
        rat_sample_var(s),
        int_rat(0),
    );
    if data.len() == 0 {
        return Err(StatError::EmptyData);
    }
    if data.len() < 2 {
        return Err(StatError::InsufficientData);
    }
    proof {
        lemma_views_wf(data@);
        lemma_sum_wf(s);
        lemma_div_int_eqv(rat_sum(s), rat_sum(s), s.len() as int);
        lemma_dev_sq_sum_eqv(s, rat_mean(s), rat_mean(s));
        lemma_div_int_eqv(
            rat_dev_sq_sum(s, rat_mean(s)),
            rat_dev_sq_sum(s, rat_mean(s)),
            s.len() - 1,
        );
    }
    let (m, var) = match mean_and_sample_variance(data) {
        Some(v) => v,
        None => {
            proof {
                if in_range {
                    assert(false);
                }
            }
            return Err(crate::common::overflow_error());
        },
    };
    let n = data.len() as u32;
    let se_sq = match rdiv_u32(var, n, Ghost(rat_sample_var(s))) {
        Some(v) => v,
        None => {
            proof {
                if in_range {
                    assert(var@.d * (n as int) <= 16515072) by (nonlinear_arith)
                        requires
                            1 <= var@.d <= 258048,
                            1 <= n as int <= 64,
                    ;
                    assert(false);
                }
            }
            return Err(crate::common::overflow_error());
        },
    };
    proof {
        if in_range {
            assert(int_abs(se_sq@.n) <= 2473901162496 && se_sq@.d <= 16515072)
                by (nonlinear_arith)
                requires
                    int_abs(se_sq@.n) <= int_abs(var@.n),
                    int_abs(var@.n) <= 2473901162496,
                    se_sq@.d <= var@.d * (n as int),
                    1 <= var@.d <= 258048,
                    1 <= n as int <= 64,
            ;
        }
    }
    if se_sq.is_zero() {
        proof {
            lemma_zero_eqv(se_sq@, one_sample_se_sq(s));
            if in_range {
                assert(false);
            }
        }
        return Err(crate::common::zero_se_error());
    }
    proof {
        lemma_zero_eqv(se_sq@, one_sample_se_sq(s));
    }
    let d = match rsub(m, pop_mean, Ghost(rat_mean(s)), Ghost(pop_mean@)) {
        Some(v) => v,
        None => {
            proof {
                if in_range {
                    assert(int_abs(m@.n) * pop_mean@.d + int_abs(pop_mean@.n) * m@.d
                        <= 4611686018427387904 && m@.d * pop_mean@.d <= 4611686018427387904)
                        by (nonlinear_arith)
                        requires
                            0 <= int_abs(m@.n) <= 131072,
                            1 <= m@.d <= 64,
                            0 <= int_abs(pop_mean@.n) <= 1024,
                            pop_mean@.d == 1,
                    ;
                    assert(false);
                }
            }
            return Err(crate::common::overflow_error());
        },
    };
    let ghost dspec = rat_sub(rat_mean(s), pop_mean@);
    let dabs = d.abs();
    proof {
        lemma_abs_eqv(d@, dspec);
        lemma_abs_eqv(dspec, dspec);
        if in_range {
            assert(int_abs(d@.n) <= 196608 && d@.d <= 64) by (nonlinear_arith)
                requires
                    int_abs(d@.n) <= int_abs(m@.n) * pop_mean@.d + int_abs(pop_mean@.n) * m@.d,
                    d@.d <= m@.d * pop_mean@.d,
                    0 <= int_abs(m@.n) <= 131072,
                    1 <= m@.d <= 64,
                    0 <= int_abs(pop_mean@.n) <= 1024,
                    pop_mean@.d == 1,
            ;
            assert(int_abs(dabs@.n) <= 196608 && dabs@.d <= 64);
        }
    }
    let num = match rmul(d, dabs, Ghost(dspec), Ghost(rat_abs(dspec))) {
        Some(v) => v,
        None => {
            proof {
                if in_range {
                    assert(int_abs(d@.n) * int_abs(dabs@.n) <= 4611686018427387904 && d@.d
                        * dabs@.d <= 4611686018427387904) by (nonlinear_arith)
                        requires
                            0 <= int_abs(d@.n) <= 196608,
                            0 <= int_abs(dabs@.n) <= 196608,
                            1 <= d@.d <= 64,
                            1 <= dabs@.d <= 64,
                    ;
                    assert(false);
                }
            }
            return Err(crate::common::overflow_error());
        },
    };
    let stat = match rdiv(num, se_sq, Ghost(rat_signed_sq(dspec)), Ghost(one_sample_se_sq(s))) {
        Some(v) => v,
        None => {
            proof {
                if in_range {
                    assert(int_abs(num@.n) <= 38654705664 && num@.d <= 4096)
                        by (nonlinear_arith)
                        requires
                            int_abs(num@.n) <= int_abs(d@.n) * int_abs(dabs@.n),
                            num@.d <= d@.d * dabs@.d,
                            0 <= int_abs(d@.n) <= 196608,
                            0 <= int_abs(dabs@.n) <= 196608,
                            1 <= d@.d <= 64,
                            1 <= dabs@.d <= 64,
                    ;
                    assert(int_abs(num@.n) * se_sq@.d <= 4611686018427387904 && num@.d
                        * int_abs(se_sq@.n) <= 4611686018427387904) by (nonlinear_arith)
                        requires
                            0 <= int_abs(num@.n) <= 38654705664,
                            1 <= num@.d <= 4096,
                            0 <= int_abs(se_sq@.n) <= 2473901162496,
                            1 <= se_sq@.d <= 16515072,
                    ;
                    assert(se_sq@.n != 0);
                    assert(false);
                }
            }
            return Err(crate::common::overflow_error());
        },
    };
    let df = Ratio::from_u64((data.len() - 1) as u64);
    let (null_hypothesis, alt_hypothesis) = one_sample_mean_hypotheses(tail, pop_mean);
    Ok(
        LocationTest {
            statistic: stat,
            dist: RefDistribution::StudentsT { df },
            center: m,
            se_square: se_sq,
            tail,
            null_hypothesis,
            alt_hypothesis,
        },
    )
}

/// The one-sample specifications respect pointwise equivalence of the
/// sample.
proof fn lemma_one_sample_specs_ptwise(s: Seq<Rat>, s2: Seq<Rat>, mu0: Rat)
    requires
        rats_wf(s),
        rats_wf(s2),
        ptwise_eqv(s, s2),
        s.len() >= 2,
        rat_wf(mu0),
    ensures
        rat_eqv(rat_mean(s), rat_mean(s2)),
        rat_wf(rat_mean(s)),
        rat_wf(rat_mean(s2)),
        rat_eqv(one_sample_se_sq(s), one_sample_se_sq(s2)),
        rat_wf(one_sample_se_sq(s)),
        rat_wf(one_sample_se_sq(s2)),
        rat_eqv(rat_sample_var(s), int_rat(0)) == rat_eqv(rat_sample_var(s2), int_rat(0)),
        !rat_eqv(rat_sample_var(s), int_rat(0)) ==> rat_eqv(
            one_sample_t_stat_sq(s, mu0),
            one_sample_t_stat_sq(s2, mu0),
        ) && rat_wf(one_sample_t_stat_sq(s, mu0)) && rat_wf(one_sample_t_stat_sq(s2, mu0)),
{
    lemma_mean_ptwise_eqv(s, s2);
    lemma_var_ptwise_eqv(s, s2);
    lemma_div_int_congruence(rat_sample_var(s), rat_sample_var(s2), s.len() as int);
    lemma_div_int_congruence(rat_sample_var(s2), rat_sample_var(s2), s.len() as int);
    lemma_zero_eqv(rat_sample_var(s), rat_sample_var(s2));
    if !rat_eqv(rat_sample_var(s), int_rat(0)) {
        lemma_sub_eqv(rat_mean(s), mu0, rat_mean(s2), mu0);
        lemma_sub_eqv(rat_mean(s2), mu0, rat_mean(s2), mu0);
        let d1 = rat_sub(rat_mean(s), mu0);
        let d2 = rat_sub(rat_mean(s2), mu0);
        lemma_abs_eqv(d1, d2);
        lemma_abs_eqv(d2, d2);
        lemma_mul_eqv(d1, rat_abs(d1), d2, rat_abs(d2));
        lemma_mul_eqv(d2, rat_abs(d2), d2, rat_abs(d2));
        lemma_zero_eqv(one_sample_se_sq(s), one_sample_se_sq(s2));
        lemma_zero_eqv(rat_sample_var(s), rat_sample_var(s));
        lemma_zero_eqv(rat_sample_var(s2), rat_sample_var(s2));
        lemma_zero_eqv(one_sample_se_sq(s), one_sample_se_sq(s));
        lemma_zero_eqv(one_sample_se_sq(s2), one_sample_se_sq(s2));
        lemma_div_eqv(
            rat_signed_sq(d1),
            one_sample_se_sq(s),
            rat_signed_sq(d2),
            one_sample_se_sq(s2),
        );
    }
}

/// Paired two-sample t-test: a one-sample test of the element-wise
/// differences against a mean of zero, relabeled with the two-sample
/// hypotheses.  Fails with `ComputeError` when the samples differ in
/// length, `EmptyData` when they are empty, `InsufficientData` on a single
/// pair, and `ComputeError` when the differences have zero variance or a
/// value exceeds the exact-arithmetic range.
pub fn t_test_paired(data1: &Vec<Ratio>, data2: &Vec<Ratio>, tail: TailType) -> (r: Result<
    LocationTest,
    StatError,
>)
    requires
        seq_wf(data1@),
        seq_wf(data2@),
        data1@.len() <= u32::MAX,
    ensures
        data1@.len() != data2@.len() ==> (r matches Err(e) && e is ComputeError),
        data1@.len() == data2@.len() && data1@.len() == 0 ==> (r matches Err(e) && e is EmptyData),
        data1@.len() == data2@.len() && data1@.len() == 1 ==> (r matches Err(e)
            && e is InsufficientData),
        r matches Err(e) ==> ((e is EmptyData <==> (data1@.len() == data2@.len() && data1@.len()
            == 0)) && (e is InsufficientData <==> (data1@.len() == data2@.len() && data1@.len()
            == 1))),
        r matches Err(e) ==> (e matches StatError::ComputeError(m) ==> ((m@
            == "Sample sizes must be equal for paired t-test"@ && data1@.len() != data2@.len())
            || (m@ == zero_se_message() && data1@.len() == data2@.len() && data1@.len() >= 2
            && rat_eqv(
            rat_sample_var(paired_diffs(views(data1@), views(data2@))),
            int_rat(0),
        )) || m@ == range_message())),
        r matches Ok(t) ==> data1@.len() == data2@.len() && data1@.len() >= 2 && t.wf()
            && !rat_eqv(rat_sample_var(paired_diffs(views(data1@), views(data2@))), int_rat(0))
            && rat_eqv(
            t.statistic@,
            one_sample_t_stat_sq(paired_diffs(views(data1@), views(data2@)), int_rat(0)),
        ) && (t.dist matches RefDistribution::StudentsT { df } && df@ == int_rat(
            data1@.len() - 1,
        )) && rat_eqv(t.center@, rat_mean(paired_diffs(views(data1@), views(data2@)))) && rat_eqv(
            t.se_square@,
            one_sample_se_sq(paired_diffs(views(data1@), views(data2@))),
        ) && t.tail == tail && t.null_hypothesis@ == two_sample_mean_null_text(tail)
            && t.alt_hypothesis@ == two_sample_mean_alt_text(tail),
        crate::stats::bounded_ints(views(data1@), 512) && crate::stats::bounded_ints(
            views(data2@),
            512,
        ) && data1@.len() == data2@.len() && 2 <= data1@.len() <= 64 && !rat_eqv(
            rat_sample_var(paired_diffs(views(data1@), views(data2@))),
            int_rat(0),
        ) ==> r is Ok,
{
    let ghost s1 = views(data1@);
    let ghost s2 = views(data2@);
    let ghost dspec = paired_diffs(s1, s2);
    let ghost in_range = crate::stats::bounded_ints(s1, 512) && crate::stats::bounded_ints(
        s2,
        512,
    ) && data1@.len() == data2@.len() && 2 <= data1@.len() <= 64 && !rat_eqv(
        rat_sample_var(dspec),
        int_rat(0),
    );
    if data1.len() != data2.len() {
        return Err(
            StatError::ComputeError(
                String::from_str("Sample sizes must be equal for paired t-test"),
            ),
        );
    }
    if data1.len() == 0 {
        return Err(StatError::EmptyData);
    }
    if data1.len() < 2 {
        return Err(StatError::InsufficientData);
    }
    let mut diffs: Vec<Ratio> = Vec::new();
    let mut i: usize = 0;
    while i < data1.len()
        invariant
            i <= data1.len(),
            data1@.len() == data2@.len(),
            data1@.len() >= 2,
            seq_wf(data1@),
            seq_wf(data2@),
            s1 == views(data1@),
            s2 == views(data2@),
            dspec == paired_diffs(s1, s2),
            diffs@.len() == i,
            seq_wf(diffs@),
            forall|j: int| 0 <= j < i ==> rat_eqv(#[trigger] views(diffs@)[j], dspec[j]),
            in_range == (crate::stats::bounded_ints(s1, 512) && crate::stats::bounded_ints(
                s2,
                512,
            ) && data1@.len() == data2@.len() && 2 <= data1@.len() <= 64 && !rat_eqv(
                rat_sample_var(dspec),
                int_rat(0),
            )),
            in_range ==> crate::stats::bounded_ints(views(diffs@), 1024),
        decreases data1.len() - i,
    {
        proof {
            lemma_views_wf(data1@);
            lemma_views_wf(data2@);
        }
        proof {
            if in_range {
                assert(views(data1@)[i as int] == data1@[i as int]@);
                assert(views(data2@)[i as int] == data2@[i as int]@);
            }
        }
        let d = match rsub(data1[i], data2[i], Ghost(s1[i as int]), Ghost(s2[i as int])) {
            Some(v) => v,
            None => {
                proof {
                    if in_range {
                        assert(false);
                    }
                }
                return Err(crate::common::overflow_error());
            },
        };
        let ghost prev = diffs@;
        diffs.push(d);
        proof {
            assert(views(diffs@) =~= views(prev).push(d@));
            assert(dspec[i as int] == rat_sub(s1[i as int], s2[i as int]));
            assert forall|j: int| 0 <= j < i + 1 implies rat_eqv(
                #[trigger] views(diffs@)[j],
                dspec[j],
            ) by {
                if j < i {
                    assert(views(diffs@)[j] == views(prev)[j]);
                }
            }
            if in_range {
                assert(d@.d == 1 && -1024 <= d@.n <= 1024);
                assert forall|j: int|
                    0 <= j < views(diffs@).len() implies (#[trigger] views(diffs@)[j]).d == 1
                        && -1024 <= views(diffs@)[j].n <= 1024 by {
                    if j < i {
                        assert(views(diffs@)[j] == views(prev)[j]);
                    } else {
                        assert(views(diffs@)[j] == d@);
                    }
                }
            }
        }
        i = i + 1;
    }
    proof {
        lemma_views_wf(data1@);
        lemma_views_wf(data2@);
        assert forall|j: int| 0 <= j < dspec.len() implies rat_wf(#[trigger] dspec[j]) by {
            lemma_sub_eqv(s1[j], s2[j], s1[j], s2[j]);
        }
        assert(ptwise_eqv(views(diffs@), dspec));
    }
    let zero = Ratio::from_i32(0);
    let inner = t_test(&diffs, zero, tail);
    let mut t = match inner {
        Ok(v) => v,
        Err(e) => {
            proof {
                lemma_views_wf(diffs@);
                lemma_one_sample_specs_ptwise(views(diffs@), dspec, int_rat(0));
                if in_range {
                    assert(false);
                }
            }
            return Err(e);
        },
    };
    proof {
        lemma_views_wf(diffs@);
        lemma_one_sample_specs_ptwise(views(diffs@), dspec, int_rat(0));
        lemma_eqv_trans(t.statistic@, one_sample_t_stat_sq(views(diffs@), int_rat(0)), one_sample_t_stat_sq(dspec, int_rat(0)));
        lemma_eqv_trans(t.center@, rat_mean(views(diffs@)), rat_mean(dspec));
        lemma_eqv_trans(t.se_square@, one_sample_se_sq(views(diffs@)), one_sample_se_sq(dspec));
    }
    let (null_hypothesis, alt_hypothesis) = two_sample_mean_hypotheses(tail);
    t.null_hypothesis = null_hypothesis;
    t.alt_hypothesis = alt_hypothesis;
    Ok(t)
}

/// Paired two-sample t-test over slices of rationals.
pub fn t_test_paired_vec(data1: &Vec<Ratio>, data2: &Vec<Ratio>, tail: TailType) -> (r: Result<
    LocationTest,
    StatError,
>)
    requires
        seq_wf(data1@),
        seq_wf(data2@),
        data1@.len() <= u32::MAX,
    ensures
        r matches Ok(t) ==> data1@.len() == data2@.len() && data1@.len() >= 2 && t.wf() && rat_eqv(
            t.statistic@,
            one_sample_t_stat_sq(paired_diffs(views(data1@), views(data2@)), int_rat(0)),
        ),
        r matches Err(e) ==> (e matches StatError::ComputeError(m) ==> ((m@
            == "Sample sizes must be equal for paired t-test"@ && data1@.len() != data2@.len())
            || (m@ == zero_se_message() && data1@.len() == data2@.len() && data1@.len() >= 2
            && rat_eqv(
            rat_sample_var(paired_diffs(views(data1@), views(data2@))),
            int_rat(0),
        )) || m@ == range_message())),
        crate::stats::bounded_ints(views(data1@), 512) && crate::stats::bounded_ints(
            views(data2@),
            512,
        ) && data1@.len() == data2@.len() && 2 <= data1@.len() <= 64 && !rat_eqv(
            rat_sample_var(paired_diffs(views(data1@), views(data2@))),
            int_rat(0),
        ) ==> r is Ok,
{
    t_test_paired(data1, data2, tail)
}

/// Ceiling of `((q_alpha + q_power) * scale / effect)^2`: the shared shape
/// of the sample-size formulas.
pub open spec fn quantile_formula_sq(q_alpha: Rat, q_power: Rat, scale: Rat, effect: Rat) -> Rat {
    rat_sq(rat_div(rat_mul(rat_add(q_alpha, q_power), scale), effect))
}

/// Evaluates `ceil(((q_alpha + q_power) * scale / effect)^2)`; fails with
/// `ComputeError` when `effect` is zero or a value exceeds the
/// exact-arithmetic range.
pub(crate) fn ceil_quantile_formula(q_alpha: Ratio, q_power: Ratio, scale: Ratio, effect: Ratio)
    -> (r: Result<u64, StatError>)
    requires
        q_alpha.wf(),
        q_power.wf(),
        scale.wf(),
        effect.wf(),
    ensures
        rat_eqv(effect@, int_rat(0)) ==> r is Err,
        q_alpha.bounded(128) && q_power.bounded(128) && scale.bounded(128) && effect.bounded(128)
            && effect@.n != 0 ==> r is Ok,
        r matches Err(e) ==> e is ComputeError,
        r matches Err(e) ==> (e matches StatError::ComputeError(m) ==> ((m@
            == "Effect size must be nonzero"@ && rat_eqv(effect@, int_rat(0))) || m@
            == range_message())),
        r matches Ok(n) ==> rat_le(
            quantile_formula_sq(q_alpha@, q_power@, scale@, effect@),
            int_rat(n as int),
        ) && rat_lt(int_rat(n as int - 1), quantile_formula_sq(q_alpha@, q_power@, scale@, effect@)),
{
    let ghost in_range = q_alpha.bounded(128) && q_power.bounded(128) && scale.bounded(128)
        && effect.bounded(128) && effect@.n != 0;
    let qsum = match radd(q_alpha, q_power, Ghost(q_alpha@), Ghost(q_power@)) {
        Some(v) => v,
        None => {
            proof {
                if in_range {
                    assert(int_abs(q_alpha@.n) * q_power@.d + int_abs(q_power@.n) * q_alpha@.d
                        <= 32768 && q_alpha@.d * q_power@.d <= 16384) by (nonlinear_arith)
                        requires
                            0 <= int_abs(q_alpha@.n) <= 128,
                            1 <= q_alpha@.d <= 128,
                            0 <= int_abs(q_power@.n) <= 128,
                            1 <= q_power@.d <= 128,
                    ;
                    assert(false);
                }
            }
            return Err(crate::common::overflow_error());
        },
    };
    let ghost qsum_spec = rat_add(q_alpha@, q_power@);
    let scaled = match rmul(qsum, scale, Ghost(qsum_spec), Ghost(scale@)) {
        Some(v) => v,
        None => {
            proof {
                if in_range {
                    assert(int_abs(qsum@.n) <= 32768 && qsum@.d <= 16384) by (nonlinear_arith)
                        requires
                            int_abs(qsum@.n) <= int_abs(q_alpha@.n) * q_power@.d + int_abs(
                                q_power@.n,
                            ) * q_alpha@.d,
                            qsum@.d <= q_alpha@.d * q_power@.d,
                            0 <= int_abs(qsum@.n),
                            1 <= qsum@.d,
                            0 <= int_abs(q_alpha@.n) <= 128,
                            1 <= q_alpha@.d <= 128,
                            0 <= int_abs(q_power@.n) <= 128,
                            1 <= q_power@.d <= 128,
                    ;
                    assert(int_abs(qsum@.n) * int_abs(scale@.n) <= 4194304 && qsum@.d * scale@.d
                        <= 2097152) by (nonlinear_arith)
                        requires
                            0 <= int_abs(qsum@.n) <= 32768,
                            1 <= qsum@.d <= 16384,
                            0 <= int_abs(scale@.n) <= 128,
                            1 <= scale@.d <= 128,
                    ;
                    assert(false);
                }
            }
            return Err(crate::common::overflow_error());
        },
    };
    let ghost scaled_spec = rat_mul(qsum_spec, scale@);
    if effect.is_zero() {
        proof {
            crate::rat::lemma_zero_eqv(effect@, effect@);
        }
        return Err(StatError::ComputeError(String::from_str("Effect size must be nonzero")));
    }
    let ratio = match rdiv(scaled, effect, Ghost(scaled_spec), Ghost(effect@)) {
        Some(v) => v,
        None => {
            proof {
                crate::rat::lemma_zero_eqv(effect@, effect@);
                if in_range {
                    assert(int_abs(qsum@.n) <= 32768 && qsum@.d <= 16384) by (nonlinear_arith)
                        requires
                            int_abs(qsum@.n) <= int_abs(q_alpha@.n) * q_power@.d + int_abs(
                                q_power@.n,
                            ) * q_alpha@.d,
                            qsum@.d <= q_alpha@.d * q_power@.d,
                            0 <= int_abs(qsum@.n),
                            1 <= qsum@.d,
                            0 <= int_abs(q_alpha@.n) <= 128,
                            1 <= q_alpha@.d <= 128,
                            0 <= int_abs(q_power@.n) <= 128,
                            1 <= q_power@.d <= 128,
                    ;
                    assert(int_abs(scaled@.n) <= 4194304 && scaled@.d <= 2097152)
                        by (nonlinear_arith)
                        requires
                            int_abs(scaled@.n) <= int_abs(qsum@.n) * int_abs(scale@.n),
                            scaled@.d <= qsum@.d * scale@.d,
                            0 <= int_abs(scaled@.n),
                            1 <= scaled@.d,
                            0 <= int_abs(qsum@.n) <= 32768,
                            1 <= qsum@.d <= 16384,
                            0 <= int_abs(scale@.n) <= 128,
                            1 <= scale@.d <= 128,
                    ;
                    assert(int_abs(scaled@.n) * effect@.d <= 536870912 && scaled@.d * int_abs(
                        effect@.n,
                    ) <= 268435456) by (nonlinear_arith)
                        requires
                            0 <= int_abs(scaled@.n) <= 4194304,
                            1 <= scaled@.d <= 2097152,
                            0 <= int_abs(effect@.n) <= 128,
                            1 <= effect@.d <= 128,
                    ;
                    assert(false);
                }
            }
            return Err(crate::common::overflow_error());
        },
    };
    let ghost ratio_spec = rat_div(scaled_spec, effect@);
    let sq = match rmul(ratio, ratio, Ghost(ratio_spec), Ghost(ratio_spec)) {
        Some(v) => v,
        None => {
            proof {
                if in_range {
                    assert(int_abs(qsum@.n) <= 32768 && qsum@.d <= 16384) by (nonlinear_arith)
                        requires
                            int_abs(qsum@.n) <= int_abs(q_alpha@.n) * q_power@.d + int_abs(
                                q_power@.n,
                            ) * q_alpha@.d,
                            qsum@.d <= q_alpha@.d * q_power@.d,
                            0 <= int_abs(qsum@.n),
                            1 <= qsum@.d,
                            0 <= int_abs(q_alpha@.n) <= 128,
                            1 <= q_alpha@.d <= 128,
                            0 <= int_abs(q_power@.n) <= 128,
                            1 <= q_power@.d <= 128,
                    ;
                    assert(int_abs(scaled@.n) <= 4194304 && scaled@.d <= 2097152)
                        by (nonlinear_arith)
                        requires
                            int_abs(scaled@.n) <= int_abs(qsum@.n) * int_abs(scale@.n),
                            scaled@.d <= qsum@.d * scale@.d,
                            0 <= int_abs(scaled@.n),
                            1 <= scaled@.d,
                            0 <= int_abs(qsum@.n) <= 32768,
                            1 <= qsum@.d <= 16384,
                            0 <= int_abs(scale@.n) <= 128,
                            1 <= scale@.d <= 128,
                    ;
                    assert(int_abs(ratio@.n) <= 536870912 && ratio@.d <= 268435456)
                        by (nonlinear_arith)
                        requires
                            int_abs(ratio@.n) <= int_abs(scaled@.n) * effect@.d,
                            ratio@.d <= scaled@.d * int_abs(effect@.n),
                            0 <= int_abs(ratio@.n),
                            1 <= ratio@.d,
                            0 <= int_abs(scaled@.n) <= 4194304,
                            1 <= scaled@.d <= 2097152,
                            0 <= int_abs(effect@.n) <= 128,
                            1 <= effect@.d <= 128,
                    ;
                    assert(int_abs(ratio@.n) * int_abs(ratio@.n) <= 288230376151711744
                        && ratio@.d * ratio@.d <= 72057594037927936) by (nonlinear_arith)
                        requires
                            0 <= int_abs(ratio@.n) <= 536870912,
                            1 <= ratio@.d <= 268435456,
                    ;
                    assert(false);
                }
            }
            return Err(crate::common::overflow_error());
        },
    };
    let ghost sq_spec = quantile_formula_sq(q_alpha@, q_power@, scale@, effect@);
    proof {
        crate::rat::lemma_zero_eqv(effect@, effect@);
        crate::rat::lemma_self_mul_nonneg(ratio_spec);
        crate::rat::lemma_le_eqv(int_rat(0), sq_spec, int_rat(0), sq@);
    }
    let n = sq.ceil_to_u64();
    proof {
        crate::rat::lemma_mul_eqv(ratio_spec, ratio_spec, ratio_spec, ratio_spec);
        crate::rat::lemma_le_eqv(sq@, int_rat(n as int), sq_spec, int_rat(n as int));
        crate::rat::lemma_le_eqv(int_rat(n as int - 1), sq@, int_rat(n as int - 1), sq_spec);
    }
    Ok(n)
}

/// Required sample size of a one-sample t-test: the ceiling of
/// `((q_alpha + q_power) * std_dev / effect_size)^2`.  `q_alpha` is the
/// caller-evaluated quantile of the reference t distribution at the
/// tail-adjusted probability (`1 - alpha`, or `1 - alpha/2` two-tailed; see
/// `crate::common::critical_probability`) and `q_power` its quantile at the
/// desired power; the reference distribution is conventionally taken with
/// a large degrees-of-freedom approximation.  Fails with `ComputeError` on
/// a zero effect size.
pub fn t_sample_size(effect_size: Ratio, std_dev: Ratio, q_alpha: Ratio, q_power: Ratio) -> (r:
    Result<u64, StatError>)
    requires
        effect_size.wf(),
        std_dev.wf(),
        q_alpha.wf(),
        q_power.wf(),
    ensures
        rat_eqv(effect_size@, int_rat(0)) ==> r is Err,
        q_alpha.bounded(128) && q_power.bounded(128) && std_dev.bounded(128)
            && effect_size.bounded(128) && effect_size@.n != 0 ==> r is Ok,
        r matches Err(e) ==> e is ComputeError,
        r matches Err(e) ==> (e matches StatError::ComputeError(m) ==> ((m@
            == "Effect size must be nonzero"@ && rat_eqv(effect_size@, int_rat(0))) || m@
            == range_message())),
        r matches Ok(n) ==> rat_le(
            quantile_formula_sq(q_alpha@, q_power@, std_dev@, effect_size@),
            int_rat(n as int),
        ) && rat_lt(
            int_rat(n as int - 1),
            quantile_formula_sq(q_alpha@, q_power@, std_dev@, effect_size@),
        ),
{
    ceil_quantile_formula(q_alpha, q_power, std_dev, effect_size)
}

/// Independent two-sample t-test, pooled or Welch.  Fails with `EmptyData`
/// when either sample is empty, `InsufficientData` when either has fewer
/// than two observations, and `ComputeError` when the standard error (or
/// the Welch degrees-of-freedom denominator) is zero or a value exceeds
/// the exact-arithmetic range.
pub fn t_test_ind(data1: &Vec<Ratio>, data2: &Vec<Ratio>, tail: TailType, pooled: bool) -> (r:
    Result<LocationTest, StatError>)
    requires
        seq_wf(data1@),
        seq_wf(data2@),
        data1@.len() + data2@.len() <= u32::MAX,
    ensures
        data1@.len() == 0 || data2@.len() == 0 ==> (r matches Err(e) && e is EmptyData),
        data1@.len() >= 1 && data2@.len() >= 1 && (data1@.len() == 1 || data2@.len() == 1) ==> (
        r matches Err(e) && e is InsufficientData),
        r matches Err(e) ==> ((e is EmptyData <==> (data1@.len() == 0 || data2@.len() == 0)) && (
        e is InsufficientData <==> (data1@.len() >= 1 && data2@.len() >= 1 && (data1@.len() == 1
            || data2@.len() == 1))) && (e is ComputeError ==> data1@.len() >= 2 && data2@.len()
            >= 2)),
        r matches Err(e) ==> (e matches StatError::ComputeError(m) ==> ((m@
            == "Welch degrees of freedom are undefined"@ && !pooled && data1@.len() >= 2
            && data2@.len() >= 2 && rat_eqv(
            welch_df_denom(views(data1@), views(data2@)),
            int_rat(0),
        )) || (m@ == zero_se_message() && data1@.len() >= 2 && data2@.len() >= 2 && rat_eqv(
            ind_se_sq(views(data1@), views(data2@), pooled),
            int_rat(0),
        )) || m@ == range_message())),
        data1@.len() >= 2 && data2@.len() >= 2 && rat_eqv(
            ind_se_sq(views(data1@), views(data2@), pooled),
            int_rat(0),
        ) ==> r is Err,
        r matches Ok(t) ==> data1@.len() >= 2 && data2@.len() >= 2 && t.wf() && !rat_eqv(
            ind_se_sq(views(data1@), views(data2@), pooled),
            int_rat(0),
        ) && rat_eqv(t.statistic@, ind_t_stat_sq(views(data1@), views(data2@), pooled)) && rat_eqv(
            t.center@,
            rat_sub(rat_mean(views(data1@)), rat_mean(views(data2@))),
        ) && rat_eqv(t.se_square@, ind_se_sq(views(data1@), views(data2@), pooled)) && (
        t.dist matches RefDistribution::StudentsT { df } && (pooled ==> df@ == int_rat(
            data1@.len() + data2@.len() - 2,
        )) && (!pooled ==> rat_eqv(df@, welch_df(views(data1@), views(data2@))) && !rat_eqv(
            welch_df_denom(views(data1@), views(data2@)),
            int_rat(0),
        ))) && t.tail == tail && t.null_hypothesis@ == two_sample_mean_null_text(tail)
            && t.alt_hypothesis@ == two_sample_mean_alt_text(tail),
        crate::stats::bounded_ints(views(data1@), 16) && crate::stats::bounded_ints(
            views(data2@),
            16,
        ) && 2 <= data1@.len() <= 6 && 2 <= data2@.len() <= 6 && pooled && !rat_eqv(
            ind_se_sq(views(data1@), views(data2@), pooled),
            int_rat(0),
        ) ==> r is Ok,
{
    let ghost s1 = views(data1@);
    let ghost s2 = views(data2@);
    let ghost in_range = crate::stats::bounded_ints(s1, 16) && crate::stats::bounded_ints(
        s2,
        16,
    ) && 2 <= data1@.len() <= 6 && 2 <= data2@.len() <= 6 && pooled && !rat_eqv(
        ind_se_sq(s1, s2, pooled),
        int_rat(0),
    );
    if data1.len() == 0 || data2.len() == 0 {
        return Err(StatError::EmptyData);
    }
    if data1.len() < 2 || data2.len() < 2 {
        return Err(StatError::InsufficientData);
    }
    proof {
        lemma_views_wf(data1@);
        lemma_views_wf(data2@);
        crate::stats::lemma_var_nonneg(s1);
        crate::stats::lemma_var_nonneg(s2);
        lemma_mean_ptwise_eqv(s1, s1);
        lemma_mean_ptwise_eqv(s2, s2);
    }
    let (m1, v1) = match mean_and_sample_variance(data1) {
        Some(v) => v,
        None => {
            proof {
                if in_range {
                    assert(false);
                }
            }
            return Err(crate::common::overflow_error());
        },
    };
    let (m2, v2) = match mean_and_sample_variance(data2) {
        Some(v) => v,
        None => {
            proof {
                if in_range {
                    assert(false);
                }
            }
            return Err(crate::common::overflow_error());
        },
    };
    let n1 = data1.len() as u32;
    let n2 = data2.len() as u32;
    let ghost var1 = rat_sample_var(s1);
    let ghost var2 = rat_sample_var(s2);
    let ghost se_spec = ind_se_sq(s1, s2, pooled);
    let se_sq: Ratio;
    let df: Ratio;
    if pooled {
        let w1 = Ratio::from_u64((n1 - 1) as u64);
        let w2 = Ratio::from_u64((n2 - 1) as u64);
        let p1 = match rmul(w1, v1, Ghost(int_rat(n1 as int - 1)), Ghost(var1)) {
            Some(v) => v,
            None => {
                proof {
                    if in_range {
                        assert(int_abs(w1@.n) * int_abs(v1@.n) <= 4611686018427387904 && w1@.d
                            * v1@.d <= 4611686018427387904) by (nonlinear_arith)
                            requires
                                0 <= int_abs(w1@.n) <= 5,
                                w1@.d == 1,
                                0 <= int_abs(v1@.n) <= 920180736,
                                1 <= v1@.d <= 180,
                        ;
                        assert(false);
                    }
                }
                return Err(crate::common::overflow_error());
            },
        };
        let p2 = match rmul(w2, v2, Ghost(int_rat(n2 as int - 1)), Ghost(var2)) {
            Some(v) => v,
            None => {
                proof {
                    if in_range {
                        assert(int_abs(w2@.n) * int_abs(v2@.n) <= 4611686018427387904 && w2@.d
                            * v2@.d <= 4611686018427387904) by (nonlinear_arith)
                            requires
                                0 <= int_abs(w2@.n) <= 5,
                                w2@.d == 1,
                                0 <= int_abs(v2@.n) <= 920180736,
                                1 <= v2@.d <= 180,
                        ;
                        assert(false);
                    }
                }
                return Err(crate::common::overflow_error());
            },
        };
        proof {
            if in_range {
                assert(int_abs(p1@.n) <= 4600903680 && p1@.d <= 180 && int_abs(p2@.n)
                    <= 4600903680 && p2@.d <= 180) by (nonlinear_arith)
                    requires
                        int_abs(p1@.n) <= int_abs(w1@.n) * int_abs(v1@.n),
                        p1@.d <= w1@.d * v1@.d,
                        int_abs(p2@.n) <= int_abs(w2@.n) * int_abs(v2@.n),
                        p2@.d <= w2@.d * v2@.d,
                        0 <= int_abs(w1@.n) <= 5,
                        w1@.d == 1,
                        0 <= int_abs(v1@.n) <= 920180736,
                        1 <= v1@.d <= 180,
                        0 <= int_abs(w2@.n) <= 5,
                        w2@.d == 1,
                        0 <= int_abs(v2@.n) <= 920180736,
                        1 <= v2@.d <= 180,
                ;
            }
        }
        let ghost p1s = rat_mul(int_rat(n1 as int - 1), var1);
        let ghost p2s = rat_mul(int_rat(n2 as int - 1), var2);
        let psum = match radd(p1, p2, Ghost(p1s), Ghost(p2s)) {
            Some(v) => v,
            None => {
                proof {
                    if in_range {
                        assert(int_abs(p1@.n) * p2@.d + int_abs(p2@.n) * p1@.d
                            <= 4611686018427387904 && p1@.d * p2@.d <= 4611686018427387904)
                            by (nonlinear_arith)
                            requires
                                0 <= int_abs(p1@.n) <= 4600903680,
                                1 <= p1@.d <= 180,
                                0 <= int_abs(p2@.n) <= 4600903680,
                                1 <= p2@.d <= 180,
                        ;
                        assert(false);
                    }
                }
                return Err(crate::common::overflow_error());
            },
        };
        proof {
            if in_range {
                assert(int_abs(psum@.n) <= 1656325324800 && psum@.d <= 32400)
                    by (nonlinear_arith)
                    requires
                        int_abs(psum@.n) <= int_abs(p1@.n) * p2@.d + int_abs(p2@.n) * p1@.d,
                        psum@.d <= p1@.d * p2@.d,
                        0 <= int_abs(p1@.n) <= 4600903680,
                        1 <= p1@.d <= 180,
                        0 <= int_abs(p2@.n) <= 4600903680,
                        1 <= p2@.d <= 180,
                ;
            }
        }
        let pv = match rdiv_u32(psum, n1 + n2 - 2, Ghost(rat_add(p1s, p2s))) {
            Some(v) => v,
            None => {
                proof {
                    if in_range {
                        assert(psum@.d * ((n1 + n2 - 2) as int) <= 4611686018427387904)
                            by (nonlinear_arith)
                            requires
                                1 <= psum@.d <= 32400,
                                1 <= (n1 + n2 - 2) as int <= 10,
                        ;
                        assert(false);
                    }
                }
                return Err(crate::common::overflow_error());
            },
        };
        proof {
            if in_range {
                assert(int_abs(pv@.n) <= 1656325324800 && pv@.d <= 324000) by (nonlinear_arith)
                    requires
                        int_abs(pv@.n) <= int_abs(psum@.n),
                        int_abs(psum@.n) <= 1656325324800,
                        pv@.d <= psum@.d * ((n1 + n2 - 2) as int),
                        1 <= psum@.d <= 32400,
                        1 <= (n1 + n2 - 2) as int <= 10,
                ;
            }
        }
        let one = Ratio::from_i32(1);
        let i1 = match one.div_u32(n1) {
            Some(v) => v,
            None => {
                proof {
                    assert(one.small());
                    assert(false);
                }
                return Err(crate::common::overflow_error());
            },
        };
        let i2 = match one.div_u32(n2) {
            Some(v) => v,
            None => {
                proof {
                    assert(one.small());
                    assert(false);
                }
                return Err(crate::common::overflow_error());
            },
        };
        proof {
            assert(1int * (n1 as int) == n1 as int) by (nonlinear_arith);
            assert(1int * (n2 as int) == n2 as int) by (nonlinear_arith);
            assert(rat_div_int(int_rat(1), n1 as int) == Rat { n: 1int, d: n1 as int });
            assert(rat_div_int(int_rat(1), n2 as int) == Rat { n: 1int, d: n2 as int });
        }
        proof {
            if in_range {
                assert(int_abs(i1@.n) <= 1 && i1@.d <= 6 && int_abs(i2@.n) <= 1 && i2@.d <= 6)
                    by (nonlinear_arith)
                    requires
                        int_abs(i1@.n) <= int_abs(one@.n),
                        i1@.d <= one@.d * (n1 as int),
                        int_abs(i2@.n) <= int_abs(one@.n),
                        i2@.d <= one@.d * (n2 as int),
                        one@.n == 1,
                        one@.d == 1,
                        1 <= n1 as int <= 6,
                        1 <= n2 as int <= 6,
                ;
            }
        }
        let isum = match radd(
            i1,
            i2,
            Ghost(Rat { n: 1int, d: s1.len() as int }),
            Ghost(Rat { n: 1int, d: s2.len() as int }),
        ) {
            Some(v) => v,
            None => {
                proof {
                    if in_range {
                        assert(int_abs(i1@.n) * i2@.d + int_abs(i2@.n) * i1@.d
                            <= 4611686018427387904 && i1@.d * i2@.d <= 4611686018427387904)
                            by (nonlinear_arith)
                            requires
                                0 <= int_abs(i1@.n) <= 1,
                                0 <= int_abs(i2@.n) <= 1,
                                1 <= i1@.d <= 6,
                                1 <= i2@.d <= 6,
                        ;
                        assert(false);
                    }
                }
                return Err(crate::common::overflow_error());
            },
        };
        proof {
            if in_range {
                assert(int_abs(isum@.n) <= 12 && isum@.d <= 36) by (nonlinear_arith)
                    requires
                        int_abs(isum@.n) <= int_abs(i1@.n) * i2@.d + int_abs(i2@.n) * i1@.d,
                        isum@.d <= i1@.d * i2@.d,
                        0 <= int_abs(i1@.n) <= 1,
                        0 <= int_abs(i2@.n) <= 1,
                        1 <= i1@.d <= 6,
                        1 <= i2@.d <= 6,
                ;
            }
        }
        let ssq = match rmul(pv, isum, Ghost(pooled_variance(s1, s2)), Ghost(
            inv_n_sum(s1.len() as int, s2.len() as int),
        )) {
            Some(v) => v,
            None => {
                proof {
                    if in_range {
                        assert(int_abs(pv@.n) * int_abs(isum@.n) <= 4611686018427387904
                            && pv@.d * isum@.d <= 4611686018427387904) by (nonlinear_arith)
                            requires
                                0 <= int_abs(pv@.n) <= 1656325324800,
                                1 <= pv@.d <= 324000,
                                0 <= int_abs(isum@.n) <= 12,
                                1 <= isum@.d <= 36,
                        ;
                        assert(false);
                    }
                }
                return Err(crate::common::overflow_error());
            },
        };
        se_sq = ssq;
        proof {
            if in_range {
                assert(int_abs(se_sq@.n) <= 19875903897600 && se_sq@.d <= 11664000)
                    by (nonlinear_arith)
                    requires
                        int_abs(se_sq@.n) <= int_abs(pv@.n) * int_abs(isum@.n),
                        se_sq@.d <= pv@.d * isum@.d,
                        0 <= int_abs(pv@.n) <= 1656325324800,
                        1 <= pv@.d <= 324000,
                        0 <= int_abs(isum@.n) <= 12,
                        1 <= isum@.d <= 36,
                ;
            }
        }
        df = Ratio::from_u64((n1 + n2 - 2) as u64);
    } else {
        let t1 = match rdiv_u32(v1, n1, Ghost(var1)) {
            Some(v) => v,
            None => {
                return Err(crate::common::overflow_error());
            },
        };
        let t2 = match rdiv_u32(v2, n2, Ghost(var2)) {
            Some(v) => v,
            None => {
                return Err(crate::common::overflow_error());
            },
        };
        let ghost t1s = rat_div_int(var1, s1.len() as int);
        let ghost t2s = rat_div_int(var2, s2.len() as int);
        let ssq = match radd(t1, t2, Ghost(t1s), Ghost(t2s)) {
            Some(v) => v,
            None => {
                return Err(crate::common::overflow_error());
            },
        };
        let sq1 = match rmul(t1, t1, Ghost(t1s), Ghost(t1s)) {
            Some(v) => v,
            None => {
                return Err(crate::common::overflow_error());
            },
        };
        let sq2 = match rmul(t2, t2, Ghost(t2s), Ghost(t2s)) {
            Some(v) => v,
            None => {
                return Err(crate::common::overflow_error());
            },
        };
        let d1 = match rdiv_u32(sq1, n1 - 1, Ghost(rat_sq(t1s))) {
            Some(v) => v,
            None => {
                return Err(crate::common::overflow_error());
            },
        };
        let d2 = match rdiv_u32(sq2, n2 - 1, Ghost(rat_sq(t2s))) {
            Some(v) => v,
            None => {
                return Err(crate::common::overflow_error());
            },
        };
        let ghost d1s = rat_div_int(rat_sq(t1s), s1.len() - 1);
        let ghost d2s = rat_div_int(rat_sq(t2s), s2.len() - 1);
        let denom = match radd(d1, d2, Ghost(d1s), Ghost(d2s)) {
            Some(v) => v,
            None => {
                return Err(crate::common::overflow_error());
            },
        };
        if denom.is_zero() {
            proof {
                lemma_zero_eqv(denom@, welch_df_denom(s1, s2));
            }
            return Err(
                StatError::ComputeError(
                    String::from_str("Welch degrees of freedom are undefined"),
                ),
            );
        }
        let nsq = match rmul(ssq, ssq, Ghost(welch_se_sq(s1, s2)), Ghost(welch_se_sq(s1, s2))) {
            Some(v) => v,
            None => {
                return Err(crate::common::overflow_error());
            },
        };
        let dfv = match rdiv(nsq, denom, Ghost(rat_sq(welch_se_sq(s1, s2))), Ghost(
            welch_df_denom(s1, s2),
        )) {
            Some(v) => v,
            None => {
                proof {
                    lemma_zero_eqv(denom@, welch_df_denom(s1, s2));
                }
                return Err(crate::common::overflow_error());
            },
        };
        proof {
            lemma_zero_eqv(denom@, welch_df_denom(s1, s2));
        }
        se_sq = ssq;
        df = dfv;
    }
    proof {
        if in_range {
            assert(int_abs(se_sq@.n) <= 19875903897600 && se_sq@.d <= 11664000);
        }
    }
    if se_sq.is_zero() {
        proof {
            lemma_zero_eqv(se_sq@, se_spec);
            if in_range {
                assert(false);
            }
        }
        return Err(crate::common::zero_se_error());
    }
    proof {
        lemma_zero_eqv(se_sq@, se_spec);
        if !pooled {
            crate::stats::lemma_var_nonneg(s1);
            crate::stats::lemma_var_nonneg(s2);
            let t1s = rat_div_int(var1, s1.len() as int);
            let t2s = rat_div_int(var2, s2.len() as int);
            crate::rat::lemma_div_int_nonneg(var1, s1.len() as int);
            crate::rat::lemma_div_int_nonneg(var2, s2.len() as int);
            lemma_div_int_congruence(var1, var1, s1.len() as int);
            lemma_div_int_congruence(var2, var2, s2.len() as int);
            crate::rat::lemma_self_mul_nonneg(t1s);
            crate::rat::lemma_self_mul_nonneg(t2s);
            lemma_mul_eqv(t1s, t1s, t1s, t1s);
            lemma_mul_eqv(t2s, t2s, t2s, t2s);
            crate::rat::lemma_div_int_nonneg(rat_sq(t1s), s1.len() - 1);
            crate::rat::lemma_div_int_nonneg(rat_sq(t2s), s2.len() - 1);
            let d1s = rat_div_int(rat_sq(t1s), s1.len() - 1);
            let d2s = rat_div_int(rat_sq(t2s), s2.len() - 1);
            lemma_div_int_congruence(rat_sq(t1s), rat_sq(t1s), s1.len() - 1);
            lemma_div_int_congruence(rat_sq(t2s), rat_sq(t2s), s2.len() - 1);
            crate::rat::lemma_add_nonneg(d1s, d2s);
            lemma_add_eqv(d1s, d2s, d1s, d2s);
            crate::rat::lemma_nonneg_nonzero_pos(welch_df_denom(s1, s2));
            lemma_add_eqv(t1s, t2s, t1s, t2s);
            crate::rat::lemma_self_mul_nonneg(welch_se_sq(s1, s2));
            lemma_mul_eqv(welch_se_sq(s1, s2), welch_se_sq(s1, s2), welch_se_sq(s1, s2), welch_se_sq(s1, s2));
            crate::rat::lemma_div_pos(rat_sq(welch_se_sq(s1, s2)), welch_df_denom(s1, s2));
            crate::rat::lemma_le_eqv(int_rat(0), welch_df(s1, s2), int_rat(0), df@);
        }
    }
    let d = match rsub(m1, m2, Ghost(rat_mean(s1)), Ghost(rat_mean(s2))) {
        Some(v) => v,
        None => {
            proof {
                if in_range {
                    assert(int_abs(m1@.n) * m2@.d + int_abs(m2@.n) * m1@.d
                        <= 4611686018427387904 && m1@.d * m2@.d <= 4611686018427387904)
                        by (nonlinear_arith)
                        requires
                            0 <= int_abs(m1@.n) <= 12288,
                            1 <= m1@.d <= 6,
                            0 <= int_abs(m2@.n) <= 12288,
                            1 <= m2@.d <= 6,
                    ;
                    assert(false);
                }
            }
            return Err(crate::common::overflow_error());
        },
    };
    let ghost dspec = rat_sub(rat_mean(s1), rat_mean(s2));
    let dabs = d.abs();
    proof {
        lemma_abs_eqv(d@, dspec);
        lemma_abs_eqv(dspec, dspec);
        if in_range {
            assert(int_abs(d@.n) <= 147456 && d@.d <= 36) by (nonlinear_arith)
                requires
                    int_abs(d@.n) <= int_abs(m1@.n) * m2@.d + int_abs(m2@.n) * m1@.d,
                    d@.d <= m1@.d * m2@.d,
                    0 <= int_abs(m1@.n) <= 12288,
                    1 <= m1@.d <= 6,
                    0 <= int_abs(m2@.n) <= 12288,
                    1 <= m2@.d <= 6,
            ;
            assert(int_abs(dabs@.n) <= 147456 && dabs@.d <= 36);
        }
    }
    let num = match rmul(d, dabs, Ghost(dspec), Ghost(rat_abs(dspec))) {
        Some(v) => v,
        None => {
            proof {
                if in_range {
                    assert(int_abs(d@.n) * int_abs(dabs@.n) <= 4611686018427387904 && d@.d
                        * dabs@.d <= 4611686018427387904) by (nonlinear_arith)
                        requires
                            0 <= int_abs(d@.n) <= 147456,
                            0 <= int_abs(dabs@.n) <= 147456,
                            1 <= d@.d <= 36,
                            1 <= dabs@.d <= 36,
                    ;
                    assert(false);
                }
            }
            return Err(crate::common::overflow_error());
        },
    };
    let stat = match rdiv(num, se_sq, Ghost(rat_signed_sq(dspec)), Ghost(se_spec)) {
        Some(v) => v,
        None => {
            proof {
                if in_range {
                    assert(int_abs(num@.n) <= 21743271936 && num@.d <= 1296)
                        by (nonlinear_arith)
                        requires
                            int_abs(num@.n) <= int_abs(d@.n) * int_abs(dabs@.n),
                            num@.d <= d@.d * dabs@.d,
                            0 <= int_abs(d@.n) <= 147456,
                            0 <= int_abs(dabs@.n) <= 147456,
                            1 <= d@.d <= 36,
                            1 <= dabs@.d <= 36,
                    ;
                    assert(int_abs(num@.n) * se_sq@.d <= 4611686018427387904 && num@.d
                        * int_abs(se_sq@.n) <= 4611686018427387904) by (nonlinear_arith)
                        requires
                            0 <= int_abs(num@.n) <= 21743271936,
                            1 <= num@.d <= 1296,
                            0 <= int_abs(se_sq@.n) <= 19875903897600,
                            1 <= se_sq@.d <= 11664000,
                    ;
                    assert(se_sq@.n != 0);
                    assert(false);
                }
            }
            return Err(crate::common::overflow_error());
        },
    };
    let (null_hypothesis, alt_hypothesis) = two_sample_mean_hypotheses(tail);
    Ok(
        LocationTest {
            statistic: stat,
            dist: RefDistribution::StudentsT { df },
            center: d,
            se_square: se_sq,
            tail,
            null_hypothesis,
            alt_hypothesis,
        },
    )
}

/// Swapping the two samples of the independent test negates the statistic
/// and keeps its absolute value — so a two-tailed p-value, which reads the
/// reference CDF at the absolute statistic, is unchanged.
pub proof fn law_swapped_samples_negate_t_statistic(s1: Seq<Rat>, s2: Seq<Rat>, pooled: bool)
    requires
        rats_wf(s1),
        rats_wf(s2),
        s1.len() >= 2,
        s2.len() >= 2,
        !rat_eqv(ind_se_sq(s1, s2, pooled), int_rat(0)),
    ensures
        rat_eqv(ind_se_sq(s2, s1, pooled), ind_se_sq(s1, s2, pooled)),
        rat_eqv(ind_t_stat_sq(s2, s1, pooled), rat_neg(ind_t_stat_sq(s1, s2, pooled))),
        rat_eqv(rat_abs(ind_t_stat_sq(s2, s1, pooled)), rat_abs(ind_t_stat_sq(s1, s2, pooled))),
{
    crate::stats::lemma_var_nonneg(s1);
    crate::stats::lemma_var_nonneg(s2);
    lemma_mean_ptwise_eqv(s1, s1);
    lemma_mean_ptwise_eqv(s2, s2);
    let var1 = rat_sample_var(s1);
    let var2 = rat_sample_var(s2);
    let n1 = s1.len() as int;
    let n2 = s2.len() as int;
    if pooled {
        let a = rat_mul(int_rat(n1 - 1), var1);
        let b = rat_mul(int_rat(n2 - 1), var2);
        lemma_mul_eqv(int_rat(n1 - 1), var1, int_rat(n1 - 1), var1);
        lemma_mul_eqv(int_rat(n2 - 1), var2, int_rat(n2 - 1), var2);
        crate::rat::lemma_add_comm(b, a);
        lemma_add_eqv(b, a, b, a);
        lemma_add_eqv(a, b, a, b);
        lemma_div_int_congruence(rat_add(b, a), rat_add(a, b), n1 + n2 - 2);
        let i1 = Rat { n: 1int, d: n1 };
        let i2 = Rat { n: 1int, d: n2 };
        crate::rat::lemma_add_comm(i2, i1);
        lemma_add_eqv(i2, i1, i2, i1);
        lemma_add_eqv(i1, i2, i1, i2);
        lemma_mul_eqv(
            pooled_variance(s2, s1),
            inv_n_sum(n2, n1),
            pooled_variance(s1, s2),
            inv_n_sum(n1, n2),
        );
        lemma_mul_eqv(
            pooled_variance(s1, s2),
            inv_n_sum(n1, n2),
            pooled_variance(s1, s2),
            inv_n_sum(n1, n2),
        );
    } else {
        let t1 = rat_div_int(var1, n1);
        let t2 = rat_div_int(var2, n2);
        lemma_div_int_congruence(var1, var1, n1);
        lemma_div_int_congruence(var2, var2, n2);
        crate::rat::lemma_add_comm(t2, t1);
        lemma_add_eqv(t2, t1, t2, t1);
        lemma_add_eqv(t1, t2, t1, t2);
    }
    let se12 = ind_se_sq(s1, s2, pooled);
    let se21 = ind_se_sq(s2, s1, pooled);
    lemma_zero_eqv(se12, se12);
    lemma_zero_eqv(se21, se12);
    let d1 = rat_sub(rat_mean(s1), rat_mean(s2));
    let d2 = rat_sub(rat_mean(s2), rat_mean(s1));
    crate::rat::lemma_sub_antisym(rat_mean(s2), rat_mean(s1));
    lemma_sub_eqv(rat_mean(s1), rat_mean(s2), rat_mean(s1), rat_mean(s2));
    lemma_sub_eqv(rat_mean(s2), rat_mean(s1), rat_mean(s2), rat_mean(s1));
    crate::rat::lemma_signed_ratio_swap(d1, d2, se12, se21);
}

} // verus!
