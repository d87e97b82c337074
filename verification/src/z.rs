//! Z-tests with known population standard deviations: one-sample, paired
//! two-sample and independent two-sample, plus the companion sample-size
//! formula.  The reference distribution is always the standard normal.

use vstd::prelude::*;
use vstd::string::*;
use crate::rat::{
    Rat, Ratio, int_rat, rat_add, rat_sub, rat_mul, rat_signed_sq, rat_abs, rat_div, rat_div_int,
    rat_neg, rat_eqv, rat_le, rat_lt, rat_wf, rsub, rmul, rdiv, rdiv_u32, lemma_eqv_trans,
    lemma_abs_eqv, lemma_mul_eqv, lemma_zero_eqv, lemma_sub_eqv, lemma_add_eqv,
    lemma_div_int_congruence, lemma_self_mul_nonneg, lemma_div_int_nonneg,
    lemma_nonneg_nonzero_pos,
};
use crate::stats::{
    views, seq_wf, rats_wf, rat_mean, mean, lemma_views_wf, lemma_mean_ptwise_eqv, ptwise_eqv,
};
use crate::common::{LocationTest, RefDistribution, StatError, TailType, range_message};
use crate::text::{
    one_sample_mean_null_text, one_sample_mean_alt_text, two_sample_mean_null_text,
    two_sample_mean_alt_text, one_sample_mean_hypotheses, two_sample_mean_hypotheses,
};
use crate::t::{paired_diffs, quantile_formula_sq, ceil_quantile_formula};

verus! {

/// Square of the one-sample z standard error: `sigma^2 / n`.
pub open spec fn z_se_sq(sigma: Rat, n: int) -> Rat {
    rat_div_int(rat_mul(sigma, sigma), n)
}

/// Signed square of the one-sample z statistic
/// `(mean - mu0) / (sigma / sqrt(n))`.
pub open spec fn z_stat_sq(s: Seq<Rat>, mu0: Rat, sigma: Rat) -> Rat {
    rat_div(rat_signed_sq(rat_sub(rat_mean(s), mu0)), z_se_sq(sigma, s.len() as int))
}

/// Square of the independent two-sample z standard error:
/// `sigma1^2/n1 + sigma2^2/n2`.
pub open spec fn z_ind_se_sq(sigma1: Rat, n1: int, sigma2: Rat, n2: int) -> Rat {
    rat_add(z_se_sq(sigma1, n1), z_se_sq(sigma2, n2))
}

/// Signed square of the independent two-sample z statistic.
pub open spec fn z_ind_stat_sq(s1: Seq<Rat>, s2: Seq<Rat>, sigma1: Rat, sigma2: Rat) -> Rat {
    rat_div(
        rat_signed_sq(rat_sub(rat_mean(s1), rat_mean(s2))),
        z_ind_se_sq(sigma1, s1.len() as int, sigma2, s2.len() as int),
    )
}

/// A positive standard deviation gives a positive squared standard error.
proof fn lemma_z_se_sq_pos(sigma: Rat, n: int)
    requires
        rat_wf(sigma),
        rat_lt(int_rat(0), sigma),
        n >= 1,
    ensures
        rat_lt(int_rat(0), z_se_sq(sigma, n)),
        rat_wf(z_se_sq(sigma, n)),
        z_se_sq(sigma, n).n != 0,
{
    lemma_self_mul_nonneg(sigma);
    lemma_mul_eqv(sigma, sigma, sigma, sigma);
    lemma_div_int_congruence(rat_mul(sigma, sigma), rat_mul(sigma, sigma), n);
    assert(sigma.n != 0);
    lemma_div_int_nonneg(rat_mul(sigma, sigma), n);
    lemma_nonneg_nonzero_pos(z_se_sq(sigma, n));
}

/// Computes `sigma^2 / n` with its exact specification.  For a standard
/// deviation within 16 the computation always succeeds, with the result's
/// components bounded by 256 and `256 n`.
fn z_se_sq_exec(sigma: Ratio, n: u32) -> (r: Option<Ratio>)
    requires
        sigma.wf(),
        n >= 1,
    ensures
        r matches Some(v) ==> v.wf() && rat_eqv(v@, z_se_sq(sigma@, n as int)),
        sigma.bounded(16) ==> (r matches Some(v) && crate::rat::int_abs(v@.n) <= 256 && v@.d
            <= 256 * (n as int)),
        sigma.bounded(8) ==> (r matches Some(v) && crate::rat::int_abs(v@.n) <= 64 && v@.d <= 64
            * (n as int)),
{
    proof {
        if sigma.bounded(16) {
            assert(crate::rat::int_abs(sigma@.n) * crate::rat::int_abs(sigma@.n) <= 256
                && sigma@.d * sigma@.d <= 256) by (nonlinear_arith)
                requires
                    0 <= crate::rat::int_abs(sigma@.n) <= 16,
                    1 <= sigma@.d <= 16,
            ;
        }
        if sigma.bounded(8) {
            assert(crate::rat::int_abs(sigma@.n) * crate::rat::int_abs(sigma@.n) <= 64
                && sigma@.d * sigma@.d <= 64) by (nonlinear_arith)
                requires
                    0 <= crate::rat::int_abs(sigma@.n) <= 8,
                    1 <= sigma@.d <= 8,
            ;
        }
    }
    let sq = match rmul(sigma, sigma, Ghost(sigma@), Ghost(sigma@)) {
        Some(v) => v,
        None => {
            return None;
        },
    };
    proof {
        if sigma.bounded(8) {
            assert(crate::rat::int_abs(sq@.n) <= 64 && sq@.d <= 64) by (nonlinear_arith)
                requires
                    crate::rat::int_abs(sq@.n) <= crate::rat::int_abs(sigma@.n)
                        * crate::rat::int_abs(sigma@.n),
                    sq@.d <= sigma@.d * sigma@.d,
                    0 <= crate::rat::int_abs(sq@.n),
                    1 <= sq@.d,
                    0 <= crate::rat::int_abs(sigma@.n) <= 8,
                    1 <= sigma@.d <= 8,
            ;
            assert(sq@.d * (n as int) <= 64 * (n as int)) by (nonlinear_arith)
                requires
                    sq@.d <= 64,
                    n >= 1,
            ;
        }
        if sigma.bounded(16) {
            assert(crate::rat::int_abs(sq@.n) <= 256 && sq@.d <= 256) by (nonlinear_arith)
                requires
                    crate::rat::int_abs(sq@.n) <= crate::rat::int_abs(sigma@.n)
                        * crate::rat::int_abs(sigma@.n),
                    sq@.d <= sigma@.d * sigma@.d,
                    0 <= crate::rat::int_abs(sq@.n),
                    1 <= sq@.d,
                    0 <= crate::rat::int_abs(sigma@.n) <= 16,
                    1 <= sigma@.d <= 16,
            ;
            assert(sq@.d * (n as int) <= 256 * (n as int)) by (nonlinear_arith)
                requires
                    sq@.d <= 256,
                    n >= 1,
            ;
            assert(256 * (n as int) <= 256 * 4294967296) by (nonlinear_arith)
                requires
                    n as int <= 4294967295,
            ;
        }
    }
    let r = rdiv_u32(sq, n, Ghost(rat_mul(sigma@, sigma@)));
    proof {
        if sigma.bounded(16) {
            if let Some(v) = r {
                assert(v@.d <= 256 * (n as int)) by (nonlinear_arith)
                    requires
                        v@.d <= sq@.d * (n as int),
                        sq@.d <= 256,
                        n >= 1,
                ;
            }
        }
        if sigma.bounded(8) {
            if let Some(v) = r {
                assert(v@.d <= 64 * (n as int)) by (nonlinear_arith)
                    requires
                        v@.d <= sq@.d * (n as int),
                        sq@.d <= 64,
                        n >= 1,
                ;
            }
        }
    }
    r
}

/// One-sample z-test of a sample mean against `pop_mean`, with known
/// population standard deviation `pop_std`.  Fails with `ComputeError` on a
/// non-positive `pop_std` (or a value that exceeds the exact-arithmetic
/// range) and `EmptyData` on an empty sample.
pub fn z_test(data: &Vec<Ratio>, pop_mean: Ratio, pop_std: Ratio, tail: TailType) -> (r: Result<
    LocationTest,
    StatError,
>)
    requires
        seq_wf(data@),
        pop_mean.wf(),
        pop_std.wf(),
        data@.len() <= u32::MAX,
    ensures
        !rat_lt(int_rat(0), pop_std@) ==> (r matches Err(e) && e is ComputeError),
        rat_lt(int_rat(0), pop_std@) && data@.len() == 0 ==> (r matches Err(e) && e is EmptyData),
        r matches Err(e) ==> ((e is EmptyData <==> (rat_lt(int_rat(0), pop_std@) && data@.len()
            == 0)) && !(e is InsufficientData)),
        crate::stats::bounded_ints(views(data@), 1024) && 1 <= data@.len() <= 1024
            && pop_std.bounded(16) && rat_lt(int_rat(0), pop_std@) && pop_mean@.d == 1 && -1024
            <= pop_mean@.n <= 1024 ==> r is Ok,
        r matches Err(e) ==> (e matches StatError::ComputeError(m) ==> ((m@
            == "Population standard deviation must be positive"@ && !rat_lt(
            int_rat(0),
            pop_std@,
        )) || m@ == range_message())),
        r matches Ok(t) ==> rat_lt(int_rat(0), pop_std@) && data@.len() >= 1 && t.wf() && rat_eqv(
            t.statistic@,
            z_stat_sq(views(data@), pop_mean@, pop_std@),
        ) && t.dist is StandardNormal && rat_eqv(t.center@, rat_mean(views(data@))) && rat_eqv(
            t.se_square@,
            z_se_sq(pop_std@, data@.len() as int),
        ) && t.tail == tail && t.null_hypothesis@ == one_sample_mean_null_text(tail, pop_mean@)
            && t.alt_hypothesis@ == one_sample_mean_alt_text(tail, pop_mean@),
{
    let ghost s = views(data@);
    let zero = Ratio::from_i32(0);
    if !zero.lt(pop_std) {
        return Err(
            StatError::ComputeError(
                String::from_str("Population standard deviation must be positive"),
            ),
        );
    }
    if data.len() == 0 {
        return Err(StatError::EmptyData);
    }
    proof {
        lemma_views_wf(data@);
        lemma_mean_ptwise_eqv(s, s);
    }
    let ghost in_range = crate::stats::bounded_ints(s, 1024) && 1 <= data@.len() <= 1024
        && pop_std.bounded(16) && rat_lt(int_rat(0), pop_std@) && pop_mean@.d == 1 && -1024
        <= pop_mean@.n <= 1024;
    proof {
        if in_range {
            assert(crate::stats::bounded_ints(s, 2048)) by {
                assert(forall|i: int|
                    0 <= i < s.len() ==> (#[trigger] s[i]).d == 1 && -1024 <= s[i].n <= 1024);
            }
        }
    }
    let m = match mean(data) {
        Some(v) => v,
        None => {
            return Err(crate::common::overflow_error());
        },
    };
    let n = data.len() as u32;
    let se_sq = match z_se_sq_exec(pop_std, n) {
        Some(v) => v,
        None => {
            return Err(crate::common::overflow_error());
        },
    };
    proof {
        lemma_z_se_sq_pos(pop_std@, n as int);
        crate::rat::lemma_zero_eqv(se_sq@, z_se_sq(pop_std@, s.len() as int));
        if in_range {
            assert(crate::rat::int_abs(m@.n) <= 2097152 && m@.d <= 1024) by (nonlinear_arith)
                requires
                    -(2048 * data@.len()) <= m@.n <= 2048 * data@.len(),
                    m@.d <= data@.len(),
                    1 <= m@.d,
                    data@.len() <= 1024,
            ;
        }
    }
    let d = match rsub(m, pop_mean, Ghost(rat_mean(s)), Ghost(pop_mean@)) {
        Some(v) => v,
        None => {
            proof {
                if in_range {
                    assert(crate::rat::int_abs(m@.n) * pop_mean@.d + crate::rat::int_abs(
                        pop_mean@.n,
                    ) * m@.d <= 3145728 && m@.d * pop_mean@.d <= 1024) by (nonlinear_arith)
                        requires
                            0 <= crate::rat::int_abs(m@.n) <= 2097152,
                            1 <= m@.d <= 1024,
                            0 <= crate::rat::int_abs(pop_mean@.n) <= 1024,
                            pop_mean@.d == 1,
                    ;
                    assert(false);
                }
            }
            return Err(crate::common::overflow_error());
        },
    };
    let ghost dspec = rat_sub(rat_mean(s), pop_mean@);
    proof {
        if in_range {
            assert(crate::rat::int_abs(d@.n) <= 3145728 && d@.d <= 1024) by (nonlinear_arith)
                requires
                    crate::rat::int_abs(d@.n) <= crate::rat::int_abs(m@.n) * pop_mean@.d
                        + crate::rat::int_abs(pop_mean@.n) * m@.d,
                    d@.d <= m@.d * pop_mean@.d,
                    0 <= crate::rat::int_abs(d@.n),
                    1 <= d@.d,
                    0 <= crate::rat::int_abs(m@.n) <= 2097152,
                    1 <= m@.d <= 1024,
                    0 <= crate::rat::int_abs(pop_mean@.n) <= 1024,
                    pop_mean@.d == 1,
            ;
        }
    }
    let dabs = d.abs();
    proof {
        lemma_abs_eqv(d@, dspec);
        lemma_abs_eqv(dspec, dspec);
    }
    let num = match rmul(d, dabs, Ghost(dspec), Ghost(rat_abs(dspec))) {
        Some(v) => v,
        None => {
            proof {
                if in_range {
                    assert(crate::rat::int_abs(dabs@.n) == crate::rat::int_abs(d@.n) && dabs@.d
                        == d@.d);
                    assert(crate::rat::int_abs(d@.n) * crate::rat::int_abs(dabs@.n)
                        <= 9895604649984 && d@.d * dabs@.d <= 1048576) by (nonlinear_arith)
                        requires
                            0 <= crate::rat::int_abs(d@.n) <= 3145728,
                            1 <= d@.d <= 1024,
                            crate::rat::int_abs(dabs@.n) == crate::rat::int_abs(d@.n),
                            dabs@.d == d@.d,
                    ;
                    assert(false);
                }
            }
            return Err(crate::common::overflow_error());
        },
    };
    let stat = match rdiv(num, se_sq, Ghost(rat_signed_sq(dspec)), Ghost(
        z_se_sq(pop_std@, s.len() as int),
    )) {
        Some(v) => v,
        None => {
            proof {
                if in_range {
                    assert(crate::rat::int_abs(dabs@.n) == crate::rat::int_abs(d@.n) && dabs@.d
                        == d@.d);
                    assert(crate::rat::int_abs(num@.n) <= 9895604649984 && num@.d <= 1048576)
                        by (nonlinear_arith)
                        requires
                            crate::rat::int_abs(num@.n) <= crate::rat::int_abs(d@.n)
                                * crate::rat::int_abs(dabs@.n),
                            num@.d <= d@.d * dabs@.d,
                            0 <= crate::rat::int_abs(num@.n),
                            1 <= num@.d,
                            0 <= crate::rat::int_abs(d@.n) <= 3145728,
                            1 <= d@.d <= 1024,
                            crate::rat::int_abs(dabs@.n) == crate::rat::int_abs(d@.n),
                            dabs@.d == d@.d,
                    ;
                    assert(se_sq@.d <= 262144) by (nonlinear_arith)
                        requires
                            se_sq@.d <= 256 * (n as int),
                            n <= 1024,
                    ;
                    assert(crate::rat::int_abs(num@.n) * se_sq@.d <= 2594073385365405696
                        && num@.d * crate::rat::int_abs(se_sq@.n) <= 268435456)
                        by (nonlinear_arith)
                        requires
                            0 <= crate::rat::int_abs(num@.n) <= 9895604649984,
                            1 <= num@.d <= 1048576,
                            0 <= crate::rat::int_abs(se_sq@.n) <= 256,
                            1 <= se_sq@.d <= 262144,
                    ;
                    assert(false);
                }
            }
            return Err(crate::common::overflow_error());
        },
    };
    let (null_hypothesis, alt_hypothesis) = one_sample_mean_hypotheses(tail, pop_mean);
    Ok(
        LocationTest {
            statistic: stat,
            dist: RefDistribution::StandardNormal,
            center: m,
            se_square: se_sq,
            tail,
            null_hypothesis,
            alt_hypothesis,
        },
    )
}

/// Paired two-sample z-test: the element-wise differences are tested
/// against a mean of zero with known standard deviation `pop_std_diff` of
/// the differences.  Fails with `ComputeError` on a non-positive
/// `pop_std_diff` or unequal sample lengths, and `EmptyData` on empty
/// samples.
pub fn z_test_paired(
    data1: &Vec<Ratio>,
    data2: &Vec<Ratio>,
    pop_std_diff: Ratio,
    tail: TailType,
) -> (r: Result<LocationTest, StatError>)
    requires
        seq_wf(data1@),
        seq_wf(data2@),
        pop_std_diff.wf(),
        data1@.len() <= u32::MAX,
    ensures
        !rat_lt(int_rat(0), pop_std_diff@) ==> (r matches Err(e) && e is ComputeError),
        rat_lt(int_rat(0), pop_std_diff@) && (data1@.len() == 0 || data2@.len() == 0) ==> (
        r matches Err(e) && e is EmptyData),
        rat_lt(int_rat(0), pop_std_diff@) && data1@.len() >= 1 && data2@.len() >= 1
            && data1@.len() != data2@.len() ==> (r matches Err(e) && e is ComputeError),
        r matches Err(e) ==> ((e is EmptyData <==> (rat_lt(int_rat(0), pop_std_diff@) && (
        data1@.len() == 0 || data2@.len() == 0))) && !(e is InsufficientData)),
        crate::stats::bounded_ints(views(data1@), 512) && crate::stats::bounded_ints(
            views(data2@),
            512,
        ) && data1@.len() == data2@.len() && 1 <= data1@.len() <= 1024
            && pop_std_diff.bounded(16) && rat_lt(int_rat(0), pop_std_diff@) ==> r is Ok,
        r matches Err(e) ==> (e matches StatError::ComputeError(m) ==> ((m@
            == "Population standard deviation must be positive"@ && !rat_lt(
            int_rat(0),
            pop_std_diff@,
        )) || (m@ == "Sample sizes must be equal"@ && data1@.len() != data2@.len()) || m@
            == range_message())),
        r matches Ok(t) ==> rat_lt(int_rat(0), pop_std_diff@) && data1@.len() == data2@.len()
            && data1@.len() >= 1 && t.wf() && rat_eqv(
            t.statistic@,
            z_stat_sq(paired_diffs(views(data1@), views(data2@)), int_rat(0), pop_std_diff@),
        ) && t.dist is StandardNormal && rat_eqv(
            t.center@,
            rat_mean(paired_diffs(views(data1@), views(data2@))),
        ) && rat_eqv(t.se_square@, z_se_sq(pop_std_diff@, data1@.len() as int)) && t.tail == tail
            && t.null_hypothesis@ == two_sample_mean_null_text(tail) && t.alt_hypothesis@
            == two_sample_mean_alt_text(tail),
{
    let ghost s1 = views(data1@);
    let ghost s2 = views(data2@);
    let ghost dspec = paired_diffs(s1, s2);
    let zero = Ratio::from_i32(0);
    if !zero.lt(pop_std_diff) {
        return Err(
            StatError::ComputeError(
                String::from_str("Population standard deviation must be positive"),
            ),
        );
    }
    if data1.len() == 0 || data2.len() == 0 {
        return Err(StatError::EmptyData);
    }
    if data1.len() != data2.len() {
        return Err(StatError::ComputeError(String::from_str("Sample sizes must be equal")));
    }
    let ghost in_range = crate::stats::bounded_ints(s1, 512) && crate::stats::bounded_ints(
        s2,
        512,
    ) && data1@.len() == data2@.len() && 1 <= data1@.len() <= 1024 && pop_std_diff.bounded(16)
        && rat_lt(int_rat(0), pop_std_diff@);
    let mut diffs: Vec<Ratio> = Vec::new();
    let mut i: usize = 0;
    while i < data1.len()
        invariant
            i <= data1.len(),
            data1@.len() == data2@.len(),
            seq_wf(data1@),
            seq_wf(data2@),
            s1 == views(data1@),
            s2 == views(data2@),
            dspec == paired_diffs(s1, s2),
            diffs@.len() == i,
            seq_wf(diffs@),
            forall|j: int| 0 <= j < i ==> rat_eqv(#[trigger] views(diffs@)[j], dspec[j]),
            in_range == (crate::stats::bounded_ints(s1, 512) && crate::stats::bounded_ints(
                s2,
                512,
            ) && data1@.len() == data2@.len() && 1 <= data1@.len() <= 1024
                && pop_std_diff.bounded(16) && rat_lt(int_rat(0), pop_std_diff@)),
            in_range ==> crate::stats::bounded_ints(views(diffs@), 1024),
        decreases data1.len() - i,
    {
        proof {
            lemma_views_wf(data1@);
            lemma_views_wf(data2@);
            if in_range {
                assert(crate::rat::int_abs(s1[i as int].n) * s2[i as int].d + crate::rat::int_abs(
                    s2[i as int].n,
                ) * s1[i as int].d <= 1024 && s1[i as int].d * s2[i as int].d <= 1)
                    by (nonlinear_arith)
                    requires
                        -512 <= s1[i as int].n <= 512,
                        s1[i as int].d == 1,
                        -512 <= s2[i as int].n <= 512,
                        s2[i as int].d == 1,
                ;
            }
        }
        let d = match rsub(data1[i], data2[i], Ghost(s1[i as int]), Ghost(s2[i as int])) {
            Some(v) => v,
            None => {
                proof {
                    if in_range {
                        assert(false);
                    }
                }
                return Err(crate::common::overflow_error());
            },
        };
        let ghost prev = diffs@;
        diffs.push(d);
        proof {
            assert(views(diffs@) =~= views(prev).push(d@));
            assert(dspec[i as int] == rat_sub(s1[i as int], s2[i as int]));
            assert forall|j: int| 0 <= j < i + 1 implies rat_eqv(
                #[trigger] views(diffs@)[j],
                dspec[j],
            ) by {
                if j < i {
                    assert(views(diffs@)[j] == views(prev)[j]);
                }
            }
            if in_range {
                assert(d@.d == 1 && -1024 <= d@.n <= 1024);
                assert forall|j: int|
                    0 <= j < views(diffs@).len() implies (#[trigger] views(diffs@)[j]).d == 1
                    && -1024 <= views(diffs@)[j].n <= 1024 by {
                    if j < i {
                        assert(views(diffs@)[j] == views(prev)[j]);
                    }
                }
            }
        }
        i = i + 1;
    }
    proof {
        lemma_views_wf(data1@);
        lemma_views_wf(data2@);
        assert forall|j: int| 0 <= j < dspec.len() implies rat_wf(#[trigger] dspec[j]) by {
            lemma_sub_eqv(s1[j], s2[j], s1[j], s2[j]);
        }
        assert(ptwise_eqv(views(diffs@), dspec));
        lemma_views_wf(diffs@);
        lemma_mean_ptwise_eqv(views(diffs@), dspec);
    }
    proof {
        if in_range {
            assert(crate::stats::bounded_ints(views(diffs@), 2048)) by {
                assert(forall|j: int|
                    0 <= j < views(diffs@).len() ==> (#[trigger] views(diffs@)[j]).d == 1
                        && -1024 <= views(diffs@)[j].n <= 1024);
            }
        }
    }
    let md = match mean(&diffs) {
        Some(v) => v,
        None => {
            return Err(crate::common::overflow_error());
        },
    };
    proof {
        lemma_eqv_trans(md@, rat_mean(views(diffs@)), rat_mean(dspec));
    }
    let n = data1.len() as u32;
    let se_sq = match z_se_sq_exec(pop_std_diff, n) {
        Some(v) => v,
        None => {
            return Err(crate::common::overflow_error());
        },
    };
    proof {
        lemma_z_se_sq_pos(pop_std_diff@, n as int);
        crate::rat::lemma_zero_eqv(se_sq@, z_se_sq(pop_std_diff@, dspec.len() as int));
        if in_range {
            assert(crate::rat::int_abs(md@.n) <= 2097152 && md@.d <= 1024) by (nonlinear_arith)
                requires
                    -(2048 * diffs@.len()) <= md@.n <= 2048 * diffs@.len(),
                    md@.d <= diffs@.len(),
                    1 <= md@.d,
                    diffs@.len() <= 1024,
            ;
        }
    }
    let ghost mdspec = rat_sub(rat_mean(dspec), int_rat(0));
    let zero_ref = Ratio::from_i32(0);
    let d = match rsub(md, zero_ref, Ghost(rat_mean(dspec)), Ghost(int_rat(0))) {
        Some(v) => v,
        None => {
            proof {
                if in_range {
                    assert(crate::rat::int_abs(md@.n) * zero_ref@.d + crate::rat::int_abs(
                        zero_ref@.n,
                    ) * md@.d <= 2097152 && md@.d * zero_ref@.d <= 1024) by (nonlinear_arith)
                        requires
                            0 <= crate::rat::int_abs(md@.n) <= 2097152,
                            1 <= md@.d <= 1024,
                            zero_ref@.n == 0,
                            zero_ref@.d == 1,
                    ;
                    assert(false);
                }
            }
            return Err(crate::common::overflow_error());
        },
    };
    let dabs = d.abs();
    proof {
        lemma_abs_eqv(d@, mdspec);
        lemma_abs_eqv(mdspec, mdspec);
    }
    let num = match rmul(d, dabs, Ghost(mdspec), Ghost(rat_abs(mdspec))) {
        Some(v) => v,
        None => {
            proof {
                if in_range {
                    assert(crate::rat::int_abs(d@.n) <= 2097152 && d@.d <= 1024)
                        by (nonlinear_arith)
                        requires
                            crate::rat::int_abs(d@.n) <= crate::rat::int_abs(md@.n) * zero_ref@.d
                                + crate::rat::int_abs(zero_ref@.n) * md@.d,
                            d@.d <= md@.d * zero_ref@.d,
                            0 <= crate::rat::int_abs(d@.n),
                            1 <= d@.d,
                            0 <= crate::rat::int_abs(md@.n) <= 2097152,
                            1 <= md@.d <= 1024,
                            zero_ref@.n == 0,
                            zero_ref@.d == 1,
                    ;
                    assert(crate::rat::int_abs(dabs@.n) == crate::rat::int_abs(d@.n) && dabs@.d
                        == d@.d);
                    assert(crate::rat::int_abs(d@.n) * crate::rat::int_abs(dabs@.n)
                        <= 4398046511104 && d@.d * dabs@.d <= 1048576) by (nonlinear_arith)
                        requires
                            0 <= crate::rat::int_abs(d@.n) <= 2097152,
                            1 <= d@.d <= 1024,
                            crate::rat::int_abs(dabs@.n) == crate::rat::int_abs(d@.n),
                            dabs@.d == d@.d,
                    ;
                    assert(false);
                }
            }
            return Err(crate::common::overflow_error());
        },
    };
    let stat = match rdiv(num, se_sq, Ghost(rat_signed_sq(mdspec)), Ghost(
        z_se_sq(pop_std_diff@, dspec.len() as int),
    )) {
        Some(v) => v,
        None => {
            proof {
                if in_range {
                    assert(crate::rat::int_abs(d@.n) <= 2097152 && d@.d <= 1024)
                        by (nonlinear_arith)
                        requires
                            crate::rat::int_abs(d@.n) <= crate::rat::int_abs(md@.n) * zero_ref@.d
                                + crate::rat::int_abs(zero_ref@.n) * md@.d,
                            d@.d <= md@.d * zero_ref@.d,
                            0 <= crate::rat::int_abs(d@.n),
                            1 <= d@.d,
                            0 <= crate::rat::int_abs(md@.n) <= 2097152,
                            1 <= md@.d <= 1024,
                            zero_ref@.n == 0,
                            zero_ref@.d == 1,
                    ;
                    assert(crate::rat::int_abs(dabs@.n) == crate::rat::int_abs(d@.n) && dabs@.d
                        == d@.d);
                    assert(crate::rat::int_abs(num@.n) <= 4398046511104 && num@.d <= 1048576)
                        by (nonlinear_arith)
                        requires
                            crate::rat::int_abs(num@.n) <= crate::rat::int_abs(d@.n)
                                * crate::rat::int_abs(dabs@.n),
                            num@.d <= d@.d * dabs@.d,
                            0 <= crate::rat::int_abs(num@.n),
                            1 <= num@.d,
                            0 <= crate::rat::int_abs(d@.n) <= 2097152,
                            1 <= d@.d <= 1024,
                            crate::rat::int_abs(dabs@.n) == crate::rat::int_abs(d@.n),
                            dabs@.d == d@.d,
                    ;
                    assert(se_sq@.d <= 262144) by (nonlinear_arith)
                        requires
                            se_sq@.d <= 256 * (n as int),
                            n <= 1024,
                    ;
                    assert(crate::rat::int_abs(num@.n) * se_sq@.d <= 1152921504606846976
                        && num@.d * crate::rat::int_abs(se_sq@.n) <= 268435456)
                        by (nonlinear_arith)
                        requires
                            0 <= crate::rat::int_abs(num@.n) <= 4398046511104,
                            1 <= num@.d <= 1048576,
                            0 <= crate::rat::int_abs(se_sq@.n) <= 256,
                            1 <= se_sq@.d <= 262144,
                    ;
                    assert(false);
                }
            }
            return Err(crate::common::overflow_error());
        },
    };
    let (null_hypothesis, alt_hypothesis) = two_sample_mean_hypotheses(tail);
    Ok(
        LocationTest {
            statistic: stat,
            dist: RefDistribution::StandardNormal,
            center: md,
            se_square: se_sq,
            tail,
            null_hypothesis,
            alt_hypothesis,
        },
    )
}

/// Independent two-sample z-test with known population standard deviations
/// for both samples.  Fails with `ComputeError` on a non-positive standard
/// deviation and `EmptyData` on an empty sample.
pub fn z_test_ind(
    data1: &Vec<Ratio>,
    data2: &Vec<Ratio>,
    pop_std1: Ratio,
    pop_std2: Ratio,
    tail: TailType,
) -> (r: Result<LocationTest, StatError>)
    requires
        seq_wf(data1@),
        seq_wf(data2@),
        pop_std1.wf(),
        pop_std2.wf(),
        data1@.len() <= u32::MAX,
        data2@.len() <= u32::MAX,
    ensures
        !rat_lt(int_rat(0), pop_std1@) || !rat_lt(int_rat(0), pop_std2@) ==> (r matches Err(e)
            && e is ComputeError),
        rat_lt(int_rat(0), pop_std1@) && rat_lt(int_rat(0), pop_std2@) && (data1@.len() == 0
            || data2@.len() == 0) ==> (r matches Err(e) && e is EmptyData),
        r matches Err(e) ==> ((e is EmptyData <==> (rat_lt(int_rat(0), pop_std1@) && rat_lt(
            int_rat(0),
            pop_std2@,
        ) && (data1@.len() == 0 || data2@.len() == 0))) && !(e is InsufficientData)),
        crate::stats::bounded_ints(views(data1@), 16) && crate::stats::bounded_ints(
            views(data2@),
            16,
        ) && 1 <= data1@.len() <= 16 && 1 <= data2@.len() <= 16 && pop_std1.bounded(8)
            && pop_std2.bounded(8) && rat_lt(int_rat(0), pop_std1@) && rat_lt(
            int_rat(0),
            pop_std2@,
        ) ==> r is Ok,
        r matches Err(e) ==> (e matches StatError::ComputeError(m) ==> ((m@
            == "Population standard deviation 1 must be positive"@ && !rat_lt(
            int_rat(0),
            pop_std1@,
        )) || (m@ == "Population standard deviation 2 must be positive"@ && !rat_lt(
            int_rat(0),
            pop_std2@,
        )) || m@ == range_message())),
        r matches Ok(t) ==> rat_lt(int_rat(0), pop_std1@) && rat_lt(int_rat(0), pop_std2@)
            && data1@.len() >= 1 && data2@.len() >= 1 && t.wf() && rat_eqv(
            t.statistic@,
            z_ind_stat_sq(views(data1@), views(data2@), pop_std1@, pop_std2@),
        ) && t.dist is StandardNormal && rat_eqv(
            t.center@,
            rat_sub(rat_mean(views(data1@)), rat_mean(views(data2@))),
        ) && rat_eqv(
            t.se_square@,
            z_ind_se_sq(pop_std1@, data1@.len() as int, pop_std2@, data2@.len() as int),
        ) && t.tail == tail && t.null_hypothesis@ == two_sample_mean_null_text(tail)
            && t.alt_hypothesis@ == two_sample_mean_alt_text(tail),
{
    let ghost s1 = views(data1@);
    let ghost s2 = views(data2@);
    let zero = Ratio::from_i32(0);
    if !zero.lt(pop_std1) {
        return Err(
            StatError::ComputeError(
                String::from_str("Population standard deviation 1 must be positive"),
            ),
        );
    }
    if !zero.lt(pop_std2) {
        return Err(
            StatError::ComputeError(
                String::from_str("Population standard deviation 2 must be positive"),
            ),
        );
    }
    if data1.len() == 0 {
        return Err(StatError::EmptyData);
    }
    if data2.len() == 0 {
        return Err(StatError::EmptyData);
    }
    proof {
        lemma_views_wf(data1@);
        lemma_views_wf(data2@);
        lemma_mean_ptwise_eqv(s1, s1);
        lemma_mean_ptwise_eqv(s2, s2);
    }
    let ghost in_range = crate::stats::bounded_ints(s1, 16) && crate::stats::bounded_ints(
        s2,
        16,
    ) && 1 <= data1@.len() <= 16 && 1 <= data2@.len() <= 16 && pop_std1.bounded(8)
        && pop_std2.bounded(8) && rat_lt(int_rat(0), pop_std1@) && rat_lt(int_rat(0), pop_std2@);
    proof {
        if in_range {
            assert(crate::stats::bounded_ints(s1, 2048)) by {
                assert(forall|i: int|
                    0 <= i < s1.len() ==> (#[trigger] s1[i]).d == 1 && -16 <= s1[i].n <= 16);
            }
            assert(crate::stats::bounded_ints(s2, 2048)) by {
                assert(forall|i: int|
                    0 <= i < s2.len() ==> (#[trigger] s2[i]).d == 1 && -16 <= s2[i].n <= 16);
            }
        }
    }
    let m1 = match mean(data1) {
        Some(v) => v,
        None => {
            return Err(crate::common::overflow_error());
        },
    };
    let m2 = match mean(data2) {
        Some(v) => v,
        None => {
            return Err(crate::common::overflow_error());
        },
    };
    let n1 = data1.len() as u32;
    let n2 = data2.len() as u32;
    let e1 = match z_se_sq_exec(pop_std1, n1) {
        Some(v) => v,
        None => {
            return Err(crate::common::overflow_error());
        },
    };
    let e2 = match z_se_sq_exec(pop_std2, n2) {
        Some(v) => v,
        None => {
            return Err(crate::common::overflow_error());
        },
    };
    proof {
        lemma_z_se_sq_pos(pop_std1@, n1 as int);
        lemma_z_se_sq_pos(pop_std2@, n2 as int);
    }
    let ghost e1s = z_se_sq(pop_std1@, s1.len() as int);
    let ghost e2s = z_se_sq(pop_std2@, s2.len() as int);
    let se_sq = match crate::rat::radd(e1, e2, Ghost(e1s), Ghost(e2s)) {
        Some(v) => v,
        None => {
            proof {
                if in_range {
                    assert(crate::rat::int_abs(e1@.n) * e2@.d + crate::rat::int_abs(e2@.n)
                        * e1@.d <= 131072 && e1@.d * e2@.d <= 1048576) by (nonlinear_arith)
                        requires
                            0 <= crate::rat::int_abs(e1@.n) <= 64,
                            1 <= e1@.d <= 1024,
                            0 <= crate::rat::int_abs(e2@.n) <= 64,
                            1 <= e2@.d <= 1024,
                    ;
                    assert(false);
                }
            }
            return Err(crate::common::overflow_error());
        },
    };
    let ghost se_spec = z_ind_se_sq(pop_std1@, s1.len() as int, pop_std2@, s2.len() as int);
    proof {
        crate::rat::lemma_add_pos(e1s, e2s);
    }
    proof {
        if in_range {
            assert(crate::rat::int_abs(m1@.n) <= 32768 && m1@.d <= 16 && crate::rat::int_abs(
                m2@.n,
            ) <= 32768 && m2@.d <= 16) by (nonlinear_arith)
                requires
                    -(2048 * data1@.len()) <= m1@.n <= 2048 * data1@.len(),
                    m1@.d <= data1@.len(),
                    1 <= m1@.d,
                    data1@.len() <= 16,
                    -(2048 * data2@.len()) <= m2@.n <= 2048 * data2@.len(),
                    m2@.d <= data2@.len(),
                    1 <= m2@.d,
                    data2@.len() <= 16,
            ;
        }
    }
    let d = match rsub(m1, m2, Ghost(rat_mean(s1)), Ghost(rat_mean(s2))) {
        Some(v) => v,
        None => {
            proof {
                if in_range {
                    assert(crate::rat::int_abs(m1@.n) * m2@.d + crate::rat::int_abs(m2@.n)
                        * m1@.d <= 1048576 && m1@.d * m2@.d <= 256) by (nonlinear_arith)
                        requires
                            0 <= crate::rat::int_abs(m1@.n) <= 32768,
                            1 <= m1@.d <= 16,
                            0 <= crate::rat::int_abs(m2@.n) <= 32768,
                            1 <= m2@.d <= 16,
                    ;
                    assert(false);
                }
            }
            return Err(crate::common::overflow_error());
        },
    };
    let ghost dspec = rat_sub(rat_mean(s1), rat_mean(s2));
    proof {
        if in_range {
            assert(crate::rat::int_abs(d@.n) <= 1048576 && d@.d <= 256) by (nonlinear_arith)
                requires
                    crate::rat::int_abs(d@.n) <= crate::rat::int_abs(m1@.n) * m2@.d
                        + crate::rat::int_abs(m2@.n) * m1@.d,
                    d@.d <= m1@.d * m2@.d,
                    0 <= crate::rat::int_abs(d@.n),
                    1 <= d@.d,
                    0 <= crate::rat::int_abs(m1@.n) <= 32768,
                    1 <= m1@.d <= 16,
                    0 <= crate::rat::int_abs(m2@.n) <= 32768,
                    1 <= m2@.d <= 16,
            ;
        }
    }
    let dabs = d.abs();
    proof {
        lemma_abs_eqv(d@, dspec);
        lemma_abs_eqv(dspec, dspec);
    }
    let num = match rmul(d, dabs, Ghost(dspec), Ghost(rat_abs(dspec))) {
        Some(v) => v,
        None => {
            proof {
                if in_range {
                    assert(crate::rat::int_abs(dabs@.n) == crate::rat::int_abs(d@.n) && dabs@.d
                        == d@.d);
                    assert(crate::rat::int_abs(d@.n) * crate::rat::int_abs(dabs@.n)
                        <= 1099511627776 && d@.d * dabs@.d <= 65536) by (nonlinear_arith)
                        requires
                            0 <= crate::rat::int_abs(d@.n) <= 1048576,
                            1 <= d@.d <= 256,
                            crate::rat::int_abs(dabs@.n) == crate::rat::int_abs(d@.n),
                            dabs@.d == d@.d,
                    ;
                    assert(false);
                }
            }
            return Err(crate::common::overflow_error());
        },
    };
    let stat = match rdiv(num, se_sq, Ghost(rat_signed_sq(dspec)), Ghost(se_spec)) {
        Some(v) => v,
        None => {
            proof {
                if in_range {
                    assert(crate::rat::int_abs(dabs@.n) == crate::rat::int_abs(d@.n) && dabs@.d
                        == d@.d);
                    assert(crate::rat::int_abs(num@.n) <= 1099511627776 && num@.d <= 65536)
                        by (nonlinear_arith)
                        requires
                            crate::rat::int_abs(num@.n) <= crate::rat::int_abs(d@.n)
                                * crate::rat::int_abs(dabs@.n),
                            num@.d <= d@.d * dabs@.d,
                            0 <= crate::rat::int_abs(num@.n),
                            1 <= num@.d,
                            0 <= crate::rat::int_abs(d@.n) <= 1048576,
                            1 <= d@.d <= 256,
                            crate::rat::int_abs(dabs@.n) == crate::rat::int_abs(d@.n),
                            dabs@.d == d@.d,
                    ;
                    assert(crate::rat::int_abs(se_sq@.n) <= 131072 && se_sq@.d <= 1048576)
                        by (nonlinear_arith)
                        requires
                            crate::rat::int_abs(se_sq@.n) <= crate::rat::int_abs(e1@.n) * e2@.d
                                + crate::rat::int_abs(e2@.n) * e1@.d,
                            se_sq@.d <= e1@.d * e2@.d,
                            0 <= crate::rat::int_abs(se_sq@.n),
                            1 <= se_sq@.d,
                            0 <= crate::rat::int_abs(e1@.n) <= 64,
                            1 <= e1@.d <= 1024,
                            0 <= crate::rat::int_abs(e2@.n) <= 64,
                            1 <= e2@.d <= 1024,
                    ;
                    assert(crate::rat::int_abs(num@.n) * se_sq@.d <= 1152921504606846976
                        && num@.d * crate::rat::int_abs(se_sq@.n) <= 8589934592)
                        by (nonlinear_arith)
                        requires
                            0 <= crate::rat::int_abs(num@.n) <= 1099511627776,
                            1 <= num@.d <= 65536,
                            0 <= crate::rat::int_abs(se_sq@.n) <= 131072,
                            1 <= se_sq@.d <= 1048576,
                    ;
                    crate::rat::lemma_zero_eqv(se_sq@, se_spec);
                    assert(false);
                }
            }
            return Err(crate::common::overflow_error());
        },
    };
    let (null_hypothesis, alt_hypothesis) = two_sample_mean_hypotheses(tail);
    Ok(
        LocationTest {
            statistic: stat,
            dist: RefDistribution::StandardNormal,
            center: d,
            se_square: se_sq,
            tail,
            null_hypothesis,
            alt_hypothesis,
        },
    )
}

/// Required sample size of a one-sample z-test: the ceiling of
/// `((q_alpha + q_power) * std_dev / effect_size)^2`, with the quantiles
/// read from the standard normal distribution (see
/// `crate::common::critical_probability` for the tail adjustment).
pub fn z_sample_size(effect_size: Ratio, std_dev: Ratio, q_alpha: Ratio, q_power: Ratio) -> (r:
    Result<u64, StatError>)
    requires
        effect_size.wf(),
        std_dev.wf(),
        q_alpha.wf(),
        q_power.wf(),
    ensures
        rat_eqv(effect_size@, int_rat(0)) ==> r is Err,
        q_alpha.bounded(128) && q_power.bounded(128) && std_dev.bounded(128)
            && effect_size.bounded(128) && effect_size@.n != 0 ==> r is Ok,
        r matches Err(e) ==> e is ComputeError,
        r matches Err(e) ==> (e matches StatError::ComputeError(m) ==> ((m@
            == "Effect size must be nonzero"@ && rat_eqv(effect_size@, int_rat(0))) || m@
            == range_message())),
        r matches Ok(n) ==> rat_le(
            quantile_formula_sq(q_alpha@, q_power@, std_dev@, effect_size@),
            int_rat(n as int),
        ) && rat_lt(
            int_rat(n as int - 1),
            quantile_formula_sq(q_alpha@, q_power@, std_dev@, effect_size@),
        ),
{
    ceil_quantile_formula(q_alpha, q_power, std_dev, effect_size)
}

/// Swapping the two samples (with their standard deviations) negates the
/// independent z statistic and keeps its absolute value — so a two-tailed
/// p-value, which reads the standard normal CDF at the absolute statistic,
/// is unchanged.
pub proof fn law_swapped_samples_negate_z_statistic(
    s1: Seq<Rat>,
    s2: Seq<Rat>,
    sigma1: Rat,
    sigma2: Rat,
)
    requires
        rats_wf(s1),
        rats_wf(s2),
        s1.len() >= 1,
        s2.len() >= 1,
        rat_wf(sigma1),
        rat_wf(sigma2),
        rat_lt(int_rat(0), sigma1),
        rat_lt(int_rat(0), sigma2),
    ensures
        rat_eqv(z_ind_stat_sq(s2, s1, sigma2, sigma1), rat_neg(z_ind_stat_sq(s1, s2, sigma1, sigma2))),
        rat_eqv(
            rat_abs(z_ind_stat_sq(s2, s1, sigma2, sigma1)),
            rat_abs(z_ind_stat_sq(s1, s2, sigma1, sigma2)),
        ),
{
    lemma_mean_ptwise_eqv(s1, s1);
    lemma_mean_ptwise_eqv(s2, s2);
    lemma_z_se_sq_pos(sigma1, s1.len() as int);
    lemma_z_se_sq_pos(sigma2, s2.len() as int);
    let e1s = z_se_sq(sigma1, s1.len() as int);
    let e2s = z_se_sq(sigma2, s2.len() as int);
    crate::rat::lemma_add_comm(e2s, e1s);
    lemma_add_eqv(e2s, e1s, e2s, e1s);
    lemma_add_eqv(e1s, e2s, e1s, e2s);
    let se12 = z_ind_se_sq(sigma1, s1.len() as int, sigma2, s2.len() as int);
    let se21 = z_ind_se_sq(sigma2, s2.len() as int, sigma1, s1.len() as int);
    crate::rat::lemma_add_pos(e1s, e2s);
    crate::rat::lemma_add_pos(e2s, e1s);
    lemma_zero_eqv(se21, se12);
    let d1 = rat_sub(rat_mean(s1), rat_mean(s2));
    let d2 = rat_sub(rat_mean(s2), rat_mean(s1));
    crate::rat::lemma_sub_antisym(rat_mean(s2), rat_mean(s1));
    lemma_sub_eqv(rat_mean(s1), rat_mean(s2), rat_mean(s1), rat_mean(s2));
    lemma_sub_eqv(rat_mean(s2), rat_mean(s1), rat_mean(s2), rat_mean(s1));
    crate::rat::lemma_signed_ratio_swap(d1, d2, se12, se21);
}

} // verus!
