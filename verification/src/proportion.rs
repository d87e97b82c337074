//! Proportion z-tests on binary data: one-sample against a hypothesized
//! proportion, and independent two-sample with pooled or unpooled standard
//! errors, plus the companion sample-size formula.
//!
//! The one-sample standard error deliberately uses the *hypothesized*
//! proportion, not the sample proportion; the pooled two-sample standard
//! error uses the combined sample proportion.  This asymmetry is the
//! standard design and is preserved exactly.

use vstd::prelude::*;
use vstd::string::*;
use crate::rat::{
    Rat, Ratio, int_rat, rat_add, rat_sub, rat_mul, rat_sq, rat_signed_sq, rat_abs, rat_div,
    rat_div_int, rat_neg, rat_eqv, rat_le, rat_lt, rat_wf, int_abs, radd, rsub, rmul, rdiv,
    rdiv_u32,
    lemma_eqv_trans, lemma_abs_eqv, lemma_mul_eqv, lemma_zero_eqv, lemma_sub_eqv, lemma_add_eqv,
    lemma_add_comm, lemma_sub_antisym, lemma_signed_ratio_swap, lemma_self_mul_nonneg,
    lemma_div_nonneg, lemma_div_int_congruence,
};
use crate::stats::{
    views, seq_wf, rats_wf, rat_sum, rat_mean, mean, sum, lemma_views_wf, lemma_sum_wf,
    lemma_mean_ptwise_eqv,
};
use crate::common::{LocationTest, RefDistribution, StatError, TailType, range_message, zero_se_message};
use crate::text::{
    one_sample_prop_null_text, one_sample_prop_alt_text, two_sample_prop_null_text,
    two_sample_prop_alt_text, one_sample_prop_hypotheses, two_sample_prop_hypotheses,
};

verus! {

/// Square of the one-sample proportion standard error:
/// `p0 * (1 - p0) / n`, from the hypothesized proportion.
pub open spec fn prop_se_sq(p0: Rat, n: int) -> Rat {
    rat_div_int(rat_mul(p0, rat_sub(int_rat(1), p0)), n)
}

/// Signed square of the one-sample proportion z statistic
/// `(p_hat - p0) / sqrt(p0 (1 - p0) / n)`.
pub open spec fn prop_stat_sq(s: Seq<Rat>, p0: Rat) -> Rat {
    rat_div(rat_signed_sq(rat_sub(rat_mean(s), p0)), prop_se_sq(p0, s.len() as int))
}

/// The pooled proportion: combined successes over combined size.
pub open spec fn pooled_prop(s1: Seq<Rat>, s2: Seq<Rat>) -> Rat {
    rat_div_int(rat_add(rat_sum(s1), rat_sum(s2)), s1.len() + s2.len() as int)
}

/// Square of the two-sample proportion standard error.
pub open spec fn prop_ind_se_sq(s1: Seq<Rat>, s2: Seq<Rat>, pooled: bool) -> Rat {
    if pooled {
        rat_mul(
            rat_mul(pooled_prop(s1, s2), rat_sub(int_rat(1), pooled_prop(s1, s2))),
            rat_add(Rat { n: 1, d: s1.len() as int }, Rat { n: 1, d: s2.len() as int }),
        )
    } else {
        rat_add(
            prop_se_sq(rat_mean(s1), s1.len() as int),
            prop_se_sq(rat_mean(s2), s2.len() as int),
        )
    }
}

/// Signed square of the two-sample proportion z statistic
/// `(p1 - p2) / se`.
pub open spec fn prop_ind_stat_sq(s1: Seq<Rat>, s2: Seq<Rat>, pooled: bool) -> Rat {
    rat_div(rat_signed_sq(rat_sub(rat_mean(s1), rat_mean(s2))), prop_ind_se_sq(s1, s2, pooled))
}

/// Computes `p * (1 - p) / n` with its exact specification.  For a
/// proportion within 32 and at most 64 observations the computation
/// always succeeds, with bounded components.
fn prop_se_sq_exec(p: Ratio, n: u32) -> (r: Option<Ratio>)
    requires
        p.wf(),
        n >= 1,
    ensures
        r matches Some(v) ==> v.wf() && rat_eqv(v@, prop_se_sq(p@, n as int)) && rat_wf(
            prop_se_sq(p@, n as int),
        ),
        p.bounded(32) && n <= 64 ==> (r matches Some(v) && int_abs(v@.n) <= 2048 && v@.d
            <= 65536),
        int_abs(p@.n) <= 16384 && p@.d <= 8 && n <= 8 ==> (r matches Some(v) && int_abs(v@.n)
            <= 268566528 && v@.d <= 512),
{
    let one = Ratio::from_i32(1);
    proof {
        if p.bounded(32) {
            assert(int_abs(one@.n) * p@.d + int_abs(p@.n) * one@.d <= 64 && one@.d * p@.d <= 32)
                by (nonlinear_arith)
                requires
                    one@.n == 1,
                    one@.d == 1,
                    0 <= int_abs(p@.n) <= 32,
                    1 <= p@.d <= 32,
            ;
        }
        if int_abs(p@.n) <= 16384 && p@.d <= 8 {
            assert(int_abs(one@.n) * p@.d + int_abs(p@.n) * one@.d <= 16392 && one@.d * p@.d
                <= 8) by (nonlinear_arith)
                requires
                    one@.n == 1,
                    one@.d == 1,
                    0 <= int_abs(p@.n) <= 16384,
                    1 <= p@.d <= 8,
            ;
        }
    }
    let q = match rsub(one, p, Ghost(int_rat(1)), Ghost(p@)) {
        Some(v) => v,
        None => {
            return None;
        },
    };
    proof {
        if int_abs(p@.n) <= 16384 && p@.d <= 8 {
            assert(int_abs(q@.n) <= 16392 && q@.d <= 8) by (nonlinear_arith)
                requires
                    int_abs(q@.n) <= int_abs(one@.n) * p@.d + int_abs(p@.n) * one@.d,
                    q@.d <= one@.d * p@.d,
                    0 <= int_abs(q@.n),
                    1 <= q@.d,
                    one@.n == 1,
                    one@.d == 1,
                    0 <= int_abs(p@.n) <= 16384,
                    1 <= p@.d <= 8,
            ;
            assert(int_abs(p@.n) * int_abs(q@.n) <= 268566528 && p@.d * q@.d <= 64)
                by (nonlinear_arith)
                requires
                    0 <= int_abs(p@.n) <= 16384,
                    1 <= p@.d <= 8,
                    0 <= int_abs(q@.n) <= 16392,
                    1 <= q@.d <= 8,
            ;
        }
        if p.bounded(32) {
            assert(int_abs(q@.n) <= 64 && q@.d <= 32) by (nonlinear_arith)
                requires
                    int_abs(q@.n) <= int_abs(one@.n) * p@.d + int_abs(p@.n) * one@.d,
                    q@.d <= one@.d * p@.d,
                    0 <= int_abs(q@.n),
                    1 <= q@.d,
                    one@.n == 1,
                    one@.d == 1,
                    0 <= int_abs(p@.n) <= 32,
                    1 <= p@.d <= 32,
            ;
            assert(int_abs(p@.n) * int_abs(q@.n) <= 2048 && p@.d * q@.d <= 1024)
                by (nonlinear_arith)
                requires
                    0 <= int_abs(p@.n) <= 32,
                    1 <= p@.d <= 32,
                    0 <= int_abs(q@.n) <= 64,
                    1 <= q@.d <= 32,
            ;
        }
    }
    let pq = match rmul(p, q, Ghost(p@), Ghost(rat_sub(int_rat(1), p@))) {
        Some(v) => v,
        None => {
            return None;
        },
    };
    proof {
        if int_abs(p@.n) <= 16384 && p@.d <= 8 && n <= 8 {
            assert(int_abs(pq@.n) <= 268566528 && pq@.d <= 64) by (nonlinear_arith)
                requires
                    int_abs(pq@.n) <= int_abs(p@.n) * int_abs(q@.n),
                    pq@.d <= p@.d * q@.d,
                    0 <= int_abs(pq@.n),
                    1 <= pq@.d,
                    0 <= int_abs(p@.n) <= 16384,
                    1 <= p@.d <= 8,
                    0 <= int_abs(q@.n) <= 16392,
                    1 <= q@.d <= 8,
            ;
            assert(pq@.d * (n as int) <= 512) by (nonlinear_arith)
                requires
                    pq@.d <= 64,
                    1 <= n <= 8,
            ;
        }
        if p.bounded(32) && n <= 64 {
            assert(int_abs(pq@.n) <= 2048 && pq@.d <= 1024) by (nonlinear_arith)
                requires
                    int_abs(pq@.n) <= int_abs(p@.n) * int_abs(q@.n),
                    pq@.d <= p@.d * q@.d,
                    0 <= int_abs(pq@.n),
                    1 <= pq@.d,
                    0 <= int_abs(p@.n) <= 32,
                    1 <= p@.d <= 32,
                    0 <= int_abs(q@.n) <= 64,
                    1 <= q@.d <= 32,
            ;
            assert(pq@.d * (n as int) <= 65536) by (nonlinear_arith)
                requires
                    pq@.d <= 1024,
                    1 <= n <= 64,
            ;
        }
    }
    let r = rdiv_u32(pq, n, Ghost(rat_mul(p@, rat_sub(int_rat(1), p@))));
    proof {
        if p.bounded(32) && n <= 64 {
            if let Some(v) = r {
                assert(v@.d <= 65536) by (nonlinear_arith)
                    requires
                        v@.d <= pq@.d * (n as int),
                        pq@.d <= 1024,
                        1 <= n <= 64,
                ;
            }
        }
        if int_abs(p@.n) <= 16384 && p@.d <= 8 && n <= 8 {
            if let Some(v) = r {
                assert(v@.d <= 512) by (nonlinear_arith)
                    requires
                        v@.d <= pq@.d * (n as int),
                        pq@.d <= 64,
                        1 <= n <= 8,
                ;
            }
        }
    }
    r
}

/// One-sample proportion z-test of binary data against the hypothesized
/// proportion `pop_proportion`.  Fails with `ComputeError` when the
/// hypothesized proportion lies outside `[0, 1]` or the standard error is
/// zero (a degenerate proportion of zero or one), and `EmptyData` on an
/// empty sample.
pub fn z_test(data: &Vec<Ratio>, pop_proportion: Ratio, tail: TailType) -> (r: Result<
    LocationTest,
    StatError,
>)
    requires
        seq_wf(data@),
        pop_proportion.wf(),
        data@.len() <= u32::MAX,
    ensures
        !(rat_le(int_rat(0), pop_proportion@) && rat_le(pop_proportion@, int_rat(1))) ==> (
        r matches Err(e) && e is ComputeError),
        rat_le(int_rat(0), pop_proportion@) && rat_le(pop_proportion@, int_rat(1)) && data@.len()
            == 0 ==> (r matches Err(e) && e is EmptyData),
        r matches Err(e) ==> ((e is EmptyData <==> (rat_le(int_rat(0), pop_proportion@) && rat_le(
            pop_proportion@,
            int_rat(1),
        ) && data@.len() == 0)) && !(e is InsufficientData)),
        r matches Err(e) ==> (e matches StatError::ComputeError(m) ==> ((m@
            == "Population proportion must be between 0 and 1"@ && !(rat_le(
            int_rat(0),
            pop_proportion@,
        ) && rat_le(pop_proportion@, int_rat(1)))) || (m@ == zero_se_message() && data@.len() >= 1
            && rat_eqv(prop_se_sq(pop_proportion@, data@.len() as int), int_rat(0))) || m@
            == range_message())),
        data@.len() >= 1 && rat_le(int_rat(0), pop_proportion@) && rat_le(
            pop_proportion@,
            int_rat(1),
        ) && rat_eqv(prop_se_sq(pop_proportion@, data@.len() as int), int_rat(0)) ==> r is Err,
        crate::stats::bounded_ints(views(data@), 1) && 1 <= data@.len() <= 64
            && pop_proportion.bounded(32) && rat_le(int_rat(0), pop_proportion@) && rat_le(
            pop_proportion@,
            int_rat(1),
        ) && !rat_eqv(prop_se_sq(pop_proportion@, data@.len() as int), int_rat(0)) ==> r is Ok,
        r matches Ok(t) ==> data@.len() >= 1 && rat_le(int_rat(0), pop_proportion@) && rat_le(
            pop_proportion@,
            int_rat(1),
        ) && t.wf() && !rat_eqv(prop_se_sq(pop_proportion@, data@.len() as int), int_rat(0))
            && rat_eqv(t.statistic@, prop_stat_sq(views(data@), pop_proportion@))
            && t.dist is StandardNormal && rat_eqv(t.center@, rat_mean(views(data@))) && rat_eqv(
            t.se_square@,
            prop_se_sq(pop_proportion@, data@.len() as int),
        ) && t.tail == tail && t.null_hypothesis@ == one_sample_prop_null_text(
            tail,
            pop_proportion@,
        ) && t.alt_hypothesis@ == one_sample_prop_alt_text(tail, pop_proportion@),
{
    let ghost s = views(data@);
    let zero = Ratio::from_i32(0);
    let one = Ratio::from_i32(1);
    if !(zero.le(pop_proportion) && pop_proportion.le(one)) {
        return Err(
            StatError::ComputeError(
                String::from_str("Population proportion must be between 0 and 1"),
            ),
        );
    }
    if data.len() == 0 {
        return Err(StatError::EmptyData);
    }
    proof {
        lemma_views_wf(data@);
        lemma_mean_ptwise_eqv(s, s);
    }
    let ghost in_range = crate::stats::bounded_ints(s, 1) && 1 <= data@.len() <= 64
        && pop_proportion.bounded(32) && rat_le(int_rat(0), pop_proportion@) && rat_le(
        pop_proportion@,
        int_rat(1),
    ) && !rat_eqv(prop_se_sq(pop_proportion@, data@.len() as int), int_rat(0));
    proof {
        if in_range {
            assert(crate::stats::bounded_ints(s, 2048)) by {
                assert(forall|i: int|
                    0 <= i < s.len() ==> (#[trigger] s[i]).d == 1 && -1 <= s[i].n <= 1);
            }
        }
    }
    let m = match mean(data) {
        Some(v) => v,
        None => {
            return Err(crate::common::overflow_error());
        },
    };
    let n = data.len() as u32;
    let se_sq = match prop_se_sq_exec(pop_proportion, n) {
        Some(v) => v,
        None => {
            return Err(crate::common::overflow_error());
        },
    };
    let ghost se_spec = prop_se_sq(pop_proportion@, s.len() as int);
    if se_sq.is_zero() {
        proof {
            lemma_zero_eqv(se_sq@, se_spec);
        }
        return Err(crate::common::zero_se_error());
    }
    proof {
        lemma_zero_eqv(se_sq@, se_spec);
    }
    proof {
        if in_range {
            assert(int_abs(m@.n) <= 131072 && m@.d <= 64) by (nonlinear_arith)
                requires
                    -(2048 * data@.len()) <= m@.n <= 2048 * data@.len(),
                    m@.d <= data@.len(),
                    1 <= m@.d,
                    data@.len() <= 64,
            ;
        }
    }
    let d = match rsub(m, pop_proportion, Ghost(rat_mean(s)), Ghost(pop_proportion@)) {
        Some(v) => v,
        None => {
            proof {
                if in_range {
                    assert(int_abs(m@.n) * pop_proportion@.d + int_abs(pop_proportion@.n) * m@.d
                        <= 4196352 && m@.d * pop_proportion@.d <= 2048) by (nonlinear_arith)
                        requires
                            0 <= int_abs(m@.n) <= 131072,
                            1 <= m@.d <= 64,
                            0 <= int_abs(pop_proportion@.n) <= 32,
                            1 <= pop_proportion@.d <= 32,
                    ;
                    assert(false);
                }
            }
            return Err(crate::common::overflow_error());
        },
    };
    let ghost dspec = rat_sub(rat_mean(s), pop_proportion@);
    proof {
        if in_range {
            assert(int_abs(d@.n) <= 4196352 && d@.d <= 2048) by (nonlinear_arith)
                requires
                    int_abs(d@.n) <= int_abs(m@.n) * pop_proportion@.d + int_abs(
                        pop_proportion@.n,
                    ) * m@.d,
                    d@.d <= m@.d * pop_proportion@.d,
                    0 <= int_abs(d@.n),
                    1 <= d@.d,
                    0 <= int_abs(m@.n) <= 131072,
                    1 <= m@.d <= 64,
                    0 <= int_abs(pop_proportion@.n) <= 32,
                    1 <= pop_proportion@.d <= 32,
            ;
        }
    }
    let dabs = d.abs();
    proof {
        lemma_abs_eqv(d@, dspec);
        lemma_abs_eqv(dspec, dspec);
    }
    let num = match rmul(d, dabs, Ghost(dspec), Ghost(rat_abs(dspec))) {
        Some(v) => v,
        None => {
            proof {
                if in_range {
                    assert(int_abs(dabs@.n) == int_abs(d@.n) && dabs@.d == d@.d);
                    assert(int_abs(d@.n) * int_abs(dabs@.n) <= 17609370832896 && d@.d * dabs@.d
                        <= 4194304) by (nonlinear_arith)
                        requires
                            0 <= int_abs(d@.n) <= 4196352,
                            1 <= d@.d <= 2048,
                            int_abs(dabs@.n) == int_abs(d@.n),
                            dabs@.d == d@.d,
                    ;
                    assert(false);
                }
            }
            return Err(crate::common::overflow_error());
        },
    };
    let stat = match rdiv(num, se_sq, Ghost(rat_signed_sq(dspec)), Ghost(se_spec)) {
        Some(v) => v,
        None => {
            proof {
                if in_range {
                    assert(int_abs(dabs@.n) == int_abs(d@.n) && dabs@.d == d@.d);
                    assert(int_abs(num@.n) <= 17609370832896 && num@.d <= 4194304)
                        by (nonlinear_arith)
                        requires
                            int_abs(num@.n) <= int_abs(d@.n) * int_abs(dabs@.n),
                            num@.d <= d@.d * dabs@.d,
                            0 <= int_abs(num@.n),
                            1 <= num@.d,
                            0 <= int_abs(d@.n) <= 4196352,
                            1 <= d@.d <= 2048,
                            int_abs(dabs@.n) == int_abs(d@.n),
                            dabs@.d == d@.d,
                    ;
                    assert(int_abs(num@.n) * se_sq@.d <= 4611686018427387904 && num@.d
                        * int_abs(se_sq@.n) <= 4611686018427387904) by (nonlinear_arith)
                        requires
                            0 <= int_abs(num@.n) <= 17609370832896,
                            1 <= num@.d <= 4194304,
                            0 <= int_abs(se_sq@.n) <= 2048,
                            1 <= se_sq@.d <= 65536,
                    ;
                    assert(false);
                }
            }
            return Err(crate::common::overflow_error());
        },
    };
    let (null_hypothesis, alt_hypothesis) = one_sample_prop_hypotheses(tail, pop_proportion);
    Ok(
        LocationTest {
            statistic: stat,
            dist: RefDistribution::StandardNormal,
            center: m,
            se_square: se_sq,
            tail,
            null_hypothesis,
            alt_hypothesis,
        },
    )
}

/// Independent two-sample proportion z-test, with the standard error
/// either pooled (from the combined proportion) or unpooled (from the two
/// sample proportions), selected by `pooled`.  Fails with `EmptyData` on an
/// empty sample and `ComputeError` on a zero standard error.
pub fn z_test_ind(data1: &Vec<Ratio>, data2: &Vec<Ratio>, tail: TailType, pooled: bool) -> (r:
    Result<LocationTest, StatError>)
    requires
        seq_wf(data1@),
        seq_wf(data2@),
        data1@.len() + data2@.len() <= u32::MAX,
    ensures
        data1@.len() == 0 || data2@.len() == 0 ==> (r matches Err(e) && e is EmptyData),
        r matches Err(e) ==> ((e is EmptyData <==> (data1@.len() == 0 || data2@.len() == 0)) && !(
        e is InsufficientData)),
        r matches Err(e) ==> (e matches StatError::ComputeError(m) ==> ((m@ == zero_se_message()
            && data1@.len() >= 1 && data2@.len() >= 1 && rat_eqv(
            prop_ind_se_sq(views(data1@), views(data2@), pooled),
            int_rat(0),
        )) || m@ == range_message())),
        data1@.len() >= 1 && data2@.len() >= 1 && rat_eqv(
            prop_ind_se_sq(views(data1@), views(data2@), pooled),
            int_rat(0),
        ) ==> r is Err,
        crate::stats::bounded_ints(views(data1@), 1) && crate::stats::bounded_ints(
            views(data2@),
            1,
        ) && 1 <= data1@.len() <= 8 && 1 <= data2@.len() <= 8 && !rat_eqv(
            prop_ind_se_sq(views(data1@), views(data2@), pooled),
            int_rat(0),
        ) ==> r is Ok,
        r matches Ok(t) ==> data1@.len() >= 1 && data2@.len() >= 1 && t.wf() && !rat_eqv(
            prop_ind_se_sq(views(data1@), views(data2@), pooled),
            int_rat(0),
        ) && rat_eqv(t.statistic@, prop_ind_stat_sq(views(data1@), views(data2@), pooled))
            && t.dist is StandardNormal && rat_eqv(
            t.center@,
            rat_sub(rat_mean(views(data1@)), rat_mean(views(data2@))),
        ) && rat_eqv(t.se_square@, prop_ind_se_sq(views(data1@), views(data2@), pooled)) && t.tail
            == tail && t.null_hypothesis@ == two_sample_prop_null_text(tail) && t.alt_hypothesis@
            == two_sample_prop_alt_text(tail),
{
    let ghost s1 = views(data1@);
    let ghost s2 = views(data2@);
    if data1.len() == 0 || data2.len() == 0 {
        return Err(StatError::EmptyData);
    }
    proof {
        lemma_views_wf(data1@);
        lemma_views_wf(data2@);
        lemma_mean_ptwise_eqv(s1, s1);
        lemma_mean_ptwise_eqv(s2, s2);
        lemma_sum_wf(s1);
        lemma_sum_wf(s2);
    }
    let ghost in_range = crate::stats::bounded_ints(s1, 1) && crate::stats::bounded_ints(s2, 1)
        && 1 <= data1@.len() <= 8 && 1 <= data2@.len() <= 8 && !rat_eqv(
        prop_ind_se_sq(s1, s2, pooled),
        int_rat(0),
    );
    proof {
        if in_range {
            assert(crate::stats::bounded_ints(s1, 2048)) by {
                assert(forall|i: int|
                    0 <= i < s1.len() ==> (#[trigger] s1[i]).d == 1 && -1 <= s1[i].n <= 1);
            }
            assert(crate::stats::bounded_ints(s2, 2048)) by {
                assert(forall|i: int|
                    0 <= i < s2.len() ==> (#[trigger] s2[i]).d == 1 && -1 <= s2[i].n <= 1);
            }
        }
    }
    let m1 = match mean(data1) {
        Some(v) => v,
        None => {
            return Err(crate::common::overflow_error());
        },
    };
    let m2 = match mean(data2) {
        Some(v) => v,
        None => {
            return Err(crate::common::overflow_error());
        },
    };
    let n1 = data1.len() as u32;
    let n2 = data2.len() as u32;
    proof {
        if in_range {
            assert(int_abs(m1@.n) <= 16384 && m1@.d <= 8 && int_abs(m2@.n) <= 16384 && m2@.d
                <= 8) by (nonlinear_arith)
                requires
                    -(2048 * data1@.len()) <= m1@.n <= 2048 * data1@.len(),
                    m1@.d <= data1@.len(),
                    1 <= m1@.d,
                    data1@.len() <= 8,
                    -(2048 * data2@.len()) <= m2@.n <= 2048 * data2@.len(),
                    m2@.d <= data2@.len(),
                    1 <= m2@.d,
                    data2@.len() <= 8,
            ;
        }
    }
    let ghost se_spec = prop_ind_se_sq(s1, s2, pooled);
    let se_sq: Ratio;
    if pooled {
        let t1 = match sum(data1) {
            Some(v) => v,
            None => {
                proof {
                    if in_range {
                        assert(false);
                    }
                }
                return Err(crate::common::overflow_error());
            },
        };
        let t2 = match sum(data2) {
            Some(v) => v,
            None => {
                proof {
                    if in_range {
                        assert(false);
                    }
                }
                return Err(crate::common::overflow_error());
            },
        };
        proof {
            if in_range {
                assert(int_abs(t1@.n) <= 16384 && t1@.d == 1 && int_abs(t2@.n) <= 16384 && t2@.d
                    == 1);
            }
        }
        let tsum = match radd(t1, t2, Ghost(rat_sum(s1)), Ghost(rat_sum(s2))) {
            Some(v) => v,
            None => {
                proof {
                    if in_range {
                        assert(int_abs(t1@.n) * t2@.d + int_abs(t2@.n) * t1@.d
                            <= 4611686018427387904 && t1@.d * t2@.d <= 4611686018427387904)
                            by (nonlinear_arith)
                            requires
                                0 <= int_abs(t1@.n) <= 16384,
                                0 <= int_abs(t2@.n) <= 16384,
                                t1@.d == 1,
                                t2@.d == 1,
                        ;
                        assert(false);
                    }
                }
                return Err(crate::common::overflow_error());
            },
        };
        proof {
            if in_range {
                assert(int_abs(tsum@.n) <= 32768 && tsum@.d == 1) by (nonlinear_arith)
                    requires
                        int_abs(tsum@.n) <= int_abs(t1@.n) * t2@.d + int_abs(t2@.n) * t1@.d,
                        tsum@.d <= t1@.d * t2@.d,
                        1 <= tsum@.d,
                        0 <= int_abs(t1@.n) <= 16384,
                        0 <= int_abs(t2@.n) <= 16384,
                        t1@.d == 1,
                        t2@.d == 1,
                ;
            }
        }
        let pbar = match rdiv_u32(tsum, n1 + n2, Ghost(rat_add(rat_sum(s1), rat_sum(s2)))) {
            Some(v) => v,
            None => {
                proof {
                    if in_range {
                        assert(tsum@.d * ((n1 + n2) as int) <= 4611686018427387904)
                            by (nonlinear_arith)
                            requires
                                tsum@.d == 1,
                                1 <= (n1 + n2) as int <= 16,
                        ;
                        assert(false);
                    }
                }
                return Err(crate::common::overflow_error());
            },
        };
        proof {
            if in_range {
                assert(int_abs(pbar@.n) <= 32768 && pbar@.d <= 16) by (nonlinear_arith)
                    requires
                        int_abs(pbar@.n) <= int_abs(tsum@.n),
                        int_abs(tsum@.n) <= 32768,
                        pbar@.d <= tsum@.d * ((n1 + n2) as int),
                        tsum@.d == 1,
                        1 <= (n1 + n2) as int <= 16,
                ;
            }
        }
        let ghost pbar_spec = pooled_prop(s1, s2);
        let one = Ratio::from_i32(1);
        let q = match rsub(one, pbar, Ghost(int_rat(1)), Ghost(pbar_spec)) {
            Some(v) => v,
            None => {
                proof {
                    if in_range {
                        assert(int_abs(one@.n) * pbar@.d + int_abs(pbar@.n) * one@.d
                            <= 4611686018427387904 && one@.d * pbar@.d <= 4611686018427387904)
                            by (nonlinear_arith)
                            requires
                                one@.n == 1,
                                one@.d == 1,
                                0 <= int_abs(pbar@.n) <= 32768,
                                1 <= pbar@.d <= 16,
                        ;
                        assert(false);
                    }
                }
                return Err(crate::common::overflow_error());
            },
        };
        proof {
            if in_range {
                assert(int_abs(q@.n) <= 32784 && q@.d <= 16) by (nonlinear_arith)
                    requires
                        int_abs(q@.n) <= int_abs(one@.n) * pbar@.d + int_abs(pbar@.n) * one@.d,
                        q@.d <= one@.d * pbar@.d,
                        one@.n == 1,
                        one@.d == 1,
                        0 <= int_abs(pbar@.n) <= 32768,
                        1 <= pbar@.d <= 16,
                ;
            }
        }
        let pq = match rmul(pbar, q, Ghost(pbar_spec), Ghost(rat_sub(int_rat(1), pbar_spec))) {
            Some(v) => v,
            None => {
                proof {
                    if in_range {
                        assert(int_abs(pbar@.n) * int_abs(q@.n) <= 4611686018427387904
                            && pbar@.d * q@.d <= 4611686018427387904) by (nonlinear_arith)
                            requires
                                0 <= int_abs(pbar@.n) <= 32768,
                                0 <= int_abs(q@.n) <= 32784,
                                1 <= pbar@.d <= 16,
                                1 <= q@.d <= 16,
                        ;
                        assert(false);
                    }
                }
                return Err(crate::common::overflow_error());
            },
        };
        proof {
            if in_range {
                assert(int_abs(pq@.n) <= 1074266112 && pq@.d <= 256) by (nonlinear_arith)
                    requires
                        int_abs(pq@.n) <= int_abs(pbar@.n) * int_abs(q@.n),
                        pq@.d <= pbar@.d * q@.d,
                        0 <= int_abs(pbar@.n) <= 32768,
                        0 <= int_abs(q@.n) <= 32784,
                        1 <= pbar@.d <= 16,
                        1 <= q@.d <= 16,
                ;
            }
        }
        let i1 = match one.div_u32(n1) {
            Some(v) => v,
            None => {
                proof {
                    assert(one.small());
                    assert(false);
                }
                return Err(crate::common::overflow_error());
            },
        };
        let i2 = match one.div_u32(n2) {
            Some(v) => v,
            None => {
                proof {
                    assert(one.small());
                    assert(false);
                }
                return Err(crate::common::overflow_error());
            },
        };
        proof {
            assert(1int * (n1 as int) == n1 as int) by (nonlinear_arith);
            assert(1int * (n2 as int) == n2 as int) by (nonlinear_arith);
            assert(rat_div_int(int_rat(1), n1 as int) == Rat { n: 1int, d: n1 as int });
            assert(rat_div_int(int_rat(1), n2 as int) == Rat { n: 1int, d: n2 as int });
        }
        proof {
            if in_range {
                assert(int_abs(i1@.n) <= 1 && i1@.d <= 8 && int_abs(i2@.n) <= 1 && i2@.d <= 8)
                    by (nonlinear_arith)
                    requires
                        int_abs(i1@.n) <= int_abs(one@.n),
                        i1@.d <= one@.d * (n1 as int),
                        int_abs(i2@.n) <= int_abs(one@.n),
                        i2@.d <= one@.d * (n2 as int),
                        one@.n == 1,
                        one@.d == 1,
                        1 <= n1 as int <= 8,
                        1 <= n2 as int <= 8,
                ;
            }
        }
        let isum = match radd(
            i1,
            i2,
            Ghost(Rat { n: 1int, d: s1.len() as int }),
            Ghost(Rat { n: 1int, d: s2.len() as int }),
        ) {
            Some(v) => v,
            None => {
                proof {
                    if in_range {
                        assert(int_abs(i1@.n) * i2@.d + int_abs(i2@.n) * i1@.d
                            <= 4611686018427387904 && i1@.d * i2@.d <= 4611686018427387904)
                            by (nonlinear_arith)
                            requires
                                0 <= int_abs(i1@.n) <= 1,
                                0 <= int_abs(i2@.n) <= 1,
                                1 <= i1@.d <= 8,
                                1 <= i2@.d <= 8,
                        ;
                        assert(false);
                    }
                }
                return Err(crate::common::overflow_error());
            },
        };
        proof {
            if in_range {
                assert(int_abs(isum@.n) <= 16 && isum@.d <= 64) by (nonlinear_arith)
                    requires
                        int_abs(isum@.n) <= int_abs(i1@.n) * i2@.d + int_abs(i2@.n) * i1@.d,
                        isum@.d <= i1@.d * i2@.d,
                        0 <= int_abs(i1@.n) <= 1,
                        0 <= int_abs(i2@.n) <= 1,
                        1 <= i1@.d <= 8,
                        1 <= i2@.d <= 8,
                ;
            }
        }
        let ssq = match rmul(pq, isum, Ghost(rat_mul(pbar_spec, rat_sub(int_rat(1), pbar_spec))),
            Ghost(rat_add(Rat { n: 1int, d: s1.len() as int }, Rat { n: 1int, d: s2.len() as int }))) {
            Some(v) => v,
            None => {
                proof {
                    if in_range {
                        assert(int_abs(pq@.n) * int_abs(isum@.n) <= 4611686018427387904
                            && pq@.d * isum@.d <= 4611686018427387904) by (nonlinear_arith)
                            requires
                                0 <= int_abs(pq@.n) <= 1074266112,
                                0 <= int_abs(isum@.n) <= 16,
                                1 <= pq@.d <= 256,
                                1 <= isum@.d <= 64,
                        ;
                        assert(false);
                    }
                }
                return Err(crate::common::overflow_error());
            },
        };
        se_sq = ssq;
        proof {
            if in_range {
                assert(int_abs(se_sq@.n) <= 275012124672 && se_sq@.d <= 262144)
                    by (nonlinear_arith)
                    requires
                        int_abs(se_sq@.n) <= int_abs(pq@.n) * int_abs(isum@.n),
                        se_sq@.d <= pq@.d * isum@.d,
                        0 <= int_abs(pq@.n) <= 1074266112,
                        0 <= int_abs(isum@.n) <= 16,
                        1 <= pq@.d <= 256,
                        1 <= isum@.d <= 64,
                ;
            }
        }
    } else {
        let e1 = match prop_se_sq_exec(m1, n1) {
            Some(v) => v,
            None => {
                proof {
                    if in_range {
                        assert(false);
                    }
                }
                return Err(crate::common::overflow_error());
            },
        };
        let e2 = match prop_se_sq_exec(m2, n2) {
            Some(v) => v,
            None => {
                proof {
                    if in_range {
                        assert(false);
                    }
                }
                return Err(crate::common::overflow_error());
            },
        };
        let ghost e1sv = prop_se_sq(m1@, s1.len() as int);
        let ghost e2sv = prop_se_sq(m2@, s2.len() as int);
        let ssq = match radd(e1, e2, Ghost(e1sv), Ghost(e2sv)) {
            Some(v) => v,
            None => {
                proof {
                    if in_range {
                        assert(int_abs(e1@.n) * e2@.d + int_abs(e2@.n) * e1@.d
                            <= 4611686018427387904 && e1@.d * e2@.d <= 4611686018427387904)
                            by (nonlinear_arith)
                            requires
                                0 <= int_abs(e1@.n) <= 268566528,
                                0 <= int_abs(e2@.n) <= 268566528,
                                1 <= e1@.d <= 512,
                                1 <= e2@.d <= 512,
                        ;
                        assert(false);
                    }
                }
                return Err(crate::common::overflow_error());
            },
        };
        proof {
            lemma_prop_se_sq_eqv(m1@, rat_mean(s1), s1.len() as int);
            lemma_prop_se_sq_eqv(m2@, rat_mean(s2), s2.len() as int);
            lemma_add_eqv(
                e1sv,
                e2sv,
                prop_se_sq(rat_mean(s1), s1.len() as int),
                prop_se_sq(rat_mean(s2), s2.len() as int),
            );
            lemma_add_eqv(
                prop_se_sq(rat_mean(s1), s1.len() as int),
                prop_se_sq(rat_mean(s2), s2.len() as int),
                prop_se_sq(rat_mean(s1), s1.len() as int),
                prop_se_sq(rat_mean(s2), s2.len() as int),
            );
            lemma_eqv_trans(ssq@, rat_add(e1sv, e2sv), se_spec);
        }
        se_sq = ssq;
        proof {
            if in_range {
                assert(int_abs(se_sq@.n) <= 275012124672 && se_sq@.d <= 262144)
                    by (nonlinear_arith)
                    requires
                        int_abs(se_sq@.n) <= int_abs(e1@.n) * e2@.d + int_abs(e2@.n) * e1@.d,
                        se_sq@.d <= e1@.d * e2@.d,
                        0 <= int_abs(e1@.n) <= 268566528,
                        0 <= int_abs(e2@.n) <= 268566528,
                        1 <= e1@.d <= 512,
                        1 <= e2@.d <= 512,
                ;
            }
        }
    }
    proof {
        if in_range {
            assert(int_abs(se_sq@.n) <= 275012124672 && se_sq@.d <= 262144);
        }
    }
    if se_sq.is_zero() {
        proof {
            lemma_zero_eqv(se_sq@, se_spec);
            if in_range {
                assert(false);
            }
        }
        return Err(crate::common::zero_se_error());
    }
    proof {
        lemma_zero_eqv(se_sq@, se_spec);
    }
    let d = match rsub(m1, m2, Ghost(rat_mean(s1)), Ghost(rat_mean(s2))) {
        Some(v) => v,
        None => {
            proof {
                if in_range {
                    assert(int_abs(m1@.n) * m2@.d + int_abs(m2@.n) * m1@.d
                        <= 4611686018427387904 && m1@.d * m2@.d <= 4611686018427387904)
                        by (nonlinear_arith)
                        requires
                            0 <= int_abs(m1@.n) <= 16384,
                            0 <= int_abs(m2@.n) <= 16384,
                            1 <= m1@.d <= 8,
                            1 <= m2@.d <= 8,
                    ;
                    assert(false);
                }
            }
            return Err(crate::common::overflow_error());
        },
    };
    let ghost dspec = rat_sub(rat_mean(s1), rat_mean(s2));
    let dabs = d.abs();
    proof {
        lemma_abs_eqv(d@, dspec);
        lemma_abs_eqv(dspec, dspec);
    }
    proof {
        if in_range {
            assert(int_abs(d@.n) <= 262144 && d@.d <= 64) by (nonlinear_arith)
                requires
                    int_abs(d@.n) <= int_abs(m1@.n) * m2@.d + int_abs(m2@.n) * m1@.d,
                    d@.d <= m1@.d * m2@.d,
                    0 <= int_abs(m1@.n) <= 16384,
                    0 <= int_abs(m2@.n) <= 16384,
                    1 <= m1@.d <= 8,
                    1 <= m2@.d <= 8,
            ;
            assert(int_abs(dabs@.n) <= 262144 && dabs@.d <= 64);
        }
    }
    let num = match rmul(d, dabs, Ghost(dspec), Ghost(rat_abs(dspec))) {
        Some(v) => v,
        None => {
            proof {
                if in_range {
                    assert(int_abs(d@.n) * int_abs(dabs@.n) <= 4611686018427387904 && d@.d
                        * dabs@.d <= 4611686018427387904) by (nonlinear_arith)
                        requires
                            0 <= int_abs(d@.n) <= 262144,
                            0 <= int_abs(dabs@.n) <= 262144,
                            1 <= d@.d <= 64,
                            1 <= dabs@.d <= 64,
                    ;
                    assert(false);
                }
            }
            return Err(crate::common::overflow_error());
        },
    };
    let stat = match rdiv(num, se_sq, Ghost(rat_signed_sq(dspec)), Ghost(se_spec)) {
        Some(v) => v,
        None => {
            proof {
                if in_range {
                    assert(int_abs(num@.n) <= 68719476736 && num@.d <= 4096)
                        by (nonlinear_arith)
                        requires
                            int_abs(num@.n) <= int_abs(d@.n) * int_abs(dabs@.n),
                            num@.d <= d@.d * dabs@.d,
                            0 <= int_abs(d@.n) <= 262144,
                            0 <= int_abs(dabs@.n) <= 262144,
                            1 <= d@.d <= 64,
                            1 <= dabs@.d <= 64,
                    ;
                    assert(int_abs(num@.n) * se_sq@.d <= 4611686018427387904 && num@.d
                        * int_abs(se_sq@.n) <= 4611686018427387904) by (nonlinear_arith)
                        requires
                            0 <= int_abs(num@.n) <= 68719476736,
                            1 <= num@.d <= 4096,
                            0 <= int_abs(se_sq@.n) <= 275012124672,
                            1 <= se_sq@.d <= 262144,
                    ;
                    assert(se_sq@.n != 0);
                    assert(false);
                }
            }
            return Err(crate::common::overflow_error());
        },
    };
    let (null_hypothesis, alt_hypothesis) = two_sample_prop_hypotheses(tail);
    Ok(
        LocationTest {
            statistic: stat,
            dist: RefDistribution::StandardNormal,
            center: d,
            se_square: se_sq,
            tail,
            null_hypothesis,
            alt_hypothesis,
        },
    )
}

/// `prop_se_sq` respects rational equivalence of the proportion.
proof fn lemma_prop_se_sq_eqv(p: Rat, p2: Rat, n: int)
    requires
        rat_wf(p),
        rat_wf(p2),
        rat_eqv(p, p2),
        n >= 1,
    ensures
        rat_eqv(prop_se_sq(p, n), prop_se_sq(p2, n)),
        rat_wf(prop_se_sq(p, n)),
        rat_wf(prop_se_sq(p2, n)),
{
    lemma_sub_eqv(int_rat(1), p, int_rat(1), p2);
    lemma_sub_eqv(int_rat(1), p2, int_rat(1), p2);
    lemma_mul_eqv(p, rat_sub(int_rat(1), p), p2, rat_sub(int_rat(1), p2));
    lemma_mul_eqv(p2, rat_sub(int_rat(1), p2), p2, rat_sub(int_rat(1), p2));
    lemma_div_int_congruence(
        rat_mul(p, rat_sub(int_rat(1), p)),
        rat_mul(p2, rat_sub(int_rat(1), p2)),
        n,
    );
    lemma_div_int_congruence(
        rat_mul(p2, rat_sub(int_rat(1), p2)),
        rat_mul(p2, rat_sub(int_rat(1), p2)),
        n,
    );
}

/// Required sample size for detecting a difference between two
/// proportions, two-tailed: the ceiling of
/// `(q_alpha * s_alpha + q_power * s_power)^2 / (p2 - p1)^2`.  `q_alpha`
/// and `q_power` are the standard normal quantiles at `1 - alpha/2` and at
/// the desired power; `s_alpha` and `s_power` are the caller-evaluated
/// square roots of `2 p (1-p)` for the average proportion `p` (see
/// `prop_pooled_radicand`) and of `p1(1-p1) + p2(1-p2)` (see
/// `prop_unpooled_radicand`).  Fails with `ComputeError` when the two
/// proportions are equal.
pub fn prop_sample_size(
    p1: Ratio,
    p2: Ratio,
    q_alpha: Ratio,
    q_power: Ratio,
    s_alpha: Ratio,
    s_power: Ratio,
) -> (r: Result<u64, StatError>)
    requires
        p1.wf(),
        p2.wf(),
        q_alpha.wf(),
        q_power.wf(),
        s_alpha.wf(),
        s_power.wf(),
    ensures
        rat_eqv(p1@, p2@) ==> r is Err,
        p1.bounded(32) && p2.bounded(32) && q_alpha.bounded(32) && q_power.bounded(32)
            && s_alpha.bounded(32) && s_power.bounded(32) && !rat_eqv(p1@, p2@) ==> r is Ok,
        r matches Err(e) ==> e is ComputeError,
        r matches Err(e) ==> (e matches StatError::ComputeError(m) ==> ((m@
            == "Proportions must differ"@ && rat_eqv(p1@, p2@)) || m@ == range_message())),
        r matches Ok(n) ==> rat_le(
            prop_sample_size_value(p1@, p2@, q_alpha@, q_power@, s_alpha@, s_power@),
            int_rat(n as int),
        ) && rat_lt(
            int_rat(n as int - 1),
            prop_sample_size_value(p1@, p2@, q_alpha@, q_power@, s_alpha@, s_power@),
        ),
{
    let ghost in_range = p1.bounded(32) && p2.bounded(32) && q_alpha.bounded(32)
        && q_power.bounded(32) && s_alpha.bounded(32) && s_power.bounded(32) && !rat_eqv(
        p1@,
        p2@,
    );
    let a = match rmul(q_alpha, s_alpha, Ghost(q_alpha@), Ghost(s_alpha@)) {
        Some(v) => v,
        None => {
            proof {
                if in_range {
                    assert(int_abs(q_alpha@.n) * int_abs(s_alpha@.n) <= 1024 && q_alpha@.d
                        * s_alpha@.d <= 1024) by (nonlinear_arith)
                        requires
                            0 <= int_abs(q_alpha@.n) <= 32,
                            1 <= q_alpha@.d <= 32,
                            0 <= int_abs(s_alpha@.n) <= 32,
                            1 <= s_alpha@.d <= 32,
                    ;
                    assert(false);
                }
            }
            return Err(crate::common::overflow_error());
        },
    };
    let b = match rmul(q_power, s_power, Ghost(q_power@), Ghost(s_power@)) {
        Some(v) => v,
        None => {
            proof {
                if in_range {
                    assert(int_abs(q_power@.n) * int_abs(s_power@.n) <= 1024 && q_power@.d
                        * s_power@.d <= 1024) by (nonlinear_arith)
                        requires
                            0 <= int_abs(q_power@.n) <= 32,
                            1 <= q_power@.d <= 32,
                            0 <= int_abs(s_power@.n) <= 32,
                            1 <= s_power@.d <= 32,
                    ;
                    assert(false);
                }
            }
            return Err(crate::common::overflow_error());
        },
    };
    proof {
        if in_range {
            lemma_prop_size_product_bounds(q_alpha@, s_alpha@, a@);
            lemma_prop_size_product_bounds(q_power@, s_power@, b@);
        }
    }
    let ghost asv = rat_mul(q_alpha@, s_alpha@);
    let ghost bsv = rat_mul(q_power@, s_power@);
    let msum = match radd(a, b, Ghost(asv), Ghost(bsv)) {
        Some(v) => v,
        None => {
            proof {
                if in_range {
                    assert(int_abs(a@.n) * b@.d + int_abs(b@.n) * a@.d <= 2097152 && a@.d * b@.d
                        <= 1048576) by (nonlinear_arith)
                        requires
                            0 <= int_abs(a@.n) <= 1024,
                            1 <= a@.d <= 1024,
                            0 <= int_abs(b@.n) <= 1024,
                            1 <= b@.d <= 1024,
                    ;
                    assert(false);
                }
            }
            return Err(crate::common::overflow_error());
        },
    };
    proof {
        if in_range {
            assert(int_abs(msum@.n) <= 2097152 && msum@.d <= 1048576) by (nonlinear_arith)
                requires
                    int_abs(msum@.n) <= int_abs(a@.n) * b@.d + int_abs(b@.n) * a@.d,
                    msum@.d <= a@.d * b@.d,
                    0 <= int_abs(msum@.n),
                    1 <= msum@.d,
                    0 <= int_abs(a@.n) <= 1024,
                    1 <= a@.d <= 1024,
                    0 <= int_abs(b@.n) <= 1024,
                    1 <= b@.d <= 1024,
            ;
        }
    }
    let ghost msv = rat_add(asv, bsv);
    let numsq = match rmul(msum, msum, Ghost(msv), Ghost(msv)) {
        Some(v) => v,
        None => {
            proof {
                if in_range {
                    assert(int_abs(msum@.n) * int_abs(msum@.n) <= 4398046511104 && msum@.d
                        * msum@.d <= 1099511627776) by (nonlinear_arith)
                        requires
                            0 <= int_abs(msum@.n) <= 2097152,
                            1 <= msum@.d <= 1048576,
                    ;
                    assert(false);
                }
            }
            return Err(crate::common::overflow_error());
        },
    };
    proof {
        if in_range {
            assert(int_abs(numsq@.n) <= 4398046511104 && numsq@.d <= 1099511627776)
                by (nonlinear_arith)
                requires
                    int_abs(numsq@.n) <= int_abs(msum@.n) * int_abs(msum@.n),
                    numsq@.d <= msum@.d * msum@.d,
                    0 <= int_abs(numsq@.n),
                    1 <= numsq@.d,
                    0 <= int_abs(msum@.n) <= 2097152,
                    1 <= msum@.d <= 1048576,
            ;
        }
    }
    let diff = match rsub(p2, p1, Ghost(p2@), Ghost(p1@)) {
        Some(v) => v,
        None => {
            proof {
                if in_range {
                    assert(int_abs(p2@.n) * p1@.d + int_abs(p1@.n) * p2@.d <= 2048 && p2@.d
                        * p1@.d <= 1024) by (nonlinear_arith)
                        requires
                            0 <= int_abs(p1@.n) <= 32,
                            1 <= p1@.d <= 32,
                            0 <= int_abs(p2@.n) <= 32,
                            1 <= p2@.d <= 32,
                    ;
                    assert(false);
                }
            }
            return Err(crate::common::overflow_error());
        },
    };
    let ghost diffsv = rat_sub(p2@, p1@);
    if diff.is_zero() {
        proof {
            lemma_zero_eqv(diff@, diffsv);
            assert(rat_eqv(p1@, p2@)) by (nonlinear_arith)
                requires
                    rat_wf(p1@),
                    rat_wf(p2@),
                    rat_sub(p2@, p1@).n == 0,
            ;
        }
        return Err(
            StatError::ComputeError(String::from_str("Proportions must differ")),
        );
    }
    let densq = match rmul(diff, diff, Ghost(diffsv), Ghost(diffsv)) {
        Some(v) => v,
        None => {
            proof {
                if in_range {
                    assert(int_abs(diff@.n) <= 2048 && diff@.d <= 1024) by (nonlinear_arith)
                        requires
                            int_abs(diff@.n) <= int_abs(p2@.n) * p1@.d + int_abs(p1@.n) * p2@.d,
                            diff@.d <= p2@.d * p1@.d,
                            0 <= int_abs(diff@.n),
                            1 <= diff@.d,
                            0 <= int_abs(p1@.n) <= 32,
                            1 <= p1@.d <= 32,
                            0 <= int_abs(p2@.n) <= 32,
                            1 <= p2@.d <= 32,
                    ;
                    assert(int_abs(diff@.n) * int_abs(diff@.n) <= 4194304 && diff@.d * diff@.d
                        <= 1048576) by (nonlinear_arith)
                        requires
                            0 <= int_abs(diff@.n) <= 2048,
                            1 <= diff@.d <= 1024,
                    ;
                    assert(false);
                }
            }
            return Err(crate::common::overflow_error());
        },
    };
    let ghost densv = rat_sq(diffsv);
    proof {
        lemma_zero_eqv(diff@, diffsv);
        lemma_self_mul_nonneg(diffsv);
        lemma_mul_eqv(diffsv, diffsv, diffsv, diffsv);
        lemma_zero_eqv(densv, densv);
        if rat_eqv(p1@, p2@) {
            assert(diffsv.n == 0) by (nonlinear_arith)
                requires
                    rat_wf(p1@),
                    rat_wf(p2@),
                    rat_eqv(p1@, p2@),
                    diffsv == rat_sub(p2@, p1@),
            ;
        }
    }
    let value = match rdiv(numsq, densq, Ghost(rat_sq(msv)), Ghost(densv)) {
        Some(v) => v,
        None => {
            proof {
                if in_range {
                    assert(int_abs(diff@.n) <= 2048 && diff@.d <= 1024) by (nonlinear_arith)
                        requires
                            int_abs(diff@.n) <= int_abs(p2@.n) * p1@.d + int_abs(p1@.n) * p2@.d,
                            diff@.d <= p2@.d * p1@.d,
                            0 <= int_abs(diff@.n),
                            1 <= diff@.d,
                            0 <= int_abs(p1@.n) <= 32,
                            1 <= p1@.d <= 32,
                            0 <= int_abs(p2@.n) <= 32,
                            1 <= p2@.d <= 32,
                    ;
                    assert(int_abs(densq@.n) <= 4194304 && densq@.d <= 1048576)
                        by (nonlinear_arith)
                        requires
                            int_abs(densq@.n) <= int_abs(diff@.n) * int_abs(diff@.n),
                            densq@.d <= diff@.d * diff@.d,
                            0 <= int_abs(densq@.n),
                            1 <= densq@.d,
                            0 <= int_abs(diff@.n) <= 2048,
                            1 <= diff@.d <= 1024,
                    ;
                    // A nonzero difference keeps the squared denominator
                    // nonzero.
                    assert(diffsv.n != 0) by (nonlinear_arith)
                        requires
                            rat_wf(p1@),
                            rat_wf(p2@),
                            !rat_eqv(p1@, p2@),
                            diffsv == rat_sub(p2@, p1@),
                    ;
                    assert(densv.n != 0) by (nonlinear_arith)
                        requires
                            diffsv.n != 0,
                            densv.n == diffsv.n * diffsv.n,
                    ;
                    lemma_zero_eqv(densq@, densv);
                    assert(densq@.n != 0);
                    assert(int_abs(numsq@.n) * densq@.d <= 4611686018427387904 && numsq@.d
                        * int_abs(densq@.n) <= 4611686018427387904) by (nonlinear_arith)
                        requires
                            0 <= int_abs(numsq@.n) <= 4398046511104,
                            1 <= numsq@.d <= 1099511627776,
                            0 <= int_abs(densq@.n) <= 4194304,
                            1 <= densq@.d <= 1048576,
                    ;
                    assert(false);
                }
            }
            return Err(crate::common::overflow_error());
        },
    };
    let ghost vsv = prop_sample_size_value(p1@, p2@, q_alpha@, q_power@, s_alpha@, s_power@);
    proof {
        lemma_self_mul_nonneg(msv);
        lemma_mul_eqv(msv, msv, msv, msv);
        crate::rat::lemma_nonneg_nonzero_pos(densv);
        lemma_div_nonneg(rat_sq(msv), densv);
        crate::rat::lemma_le_eqv(int_rat(0), vsv, int_rat(0), value@);
    }
    let n = value.ceil_to_u64();
    proof {
        crate::rat::lemma_le_eqv(value@, int_rat(n as int), vsv, int_rat(n as int));
        crate::rat::lemma_le_eqv(int_rat(n as int - 1), value@, int_rat(n as int - 1), vsv);
    }
    Ok(n)
}

/// Sum bounds of a pair of values within 1024.
proof fn lemma_radicand_pair_bound(x: Rat, y: Rat)
    by (nonlinear_arith)
    requires
        rat_wf(x),
        rat_wf(y),
        -1024 <= x.n <= 1024,
        x.d <= 1024,
        -1024 <= y.n <= 1024,
        y.d <= 1024,
    ensures
        int_abs(x.n) * y.d + int_abs(y.n) * x.d <= 2097152,
        x.d * y.d <= 1048576,
{
}

/// Bounds of a product of two values within 32.
proof fn lemma_prop_size_product_bounds(x: Rat, y: Rat, v: Rat)
    by (nonlinear_arith)
    requires
        rat_wf(x),
        rat_wf(y),
        rat_wf(v),
        -32 <= x.n <= 32,
        1 <= x.d <= 32,
        -32 <= y.n <= 32,
        1 <= y.d <= 32,
        int_abs(v.n) <= int_abs(x.n) * int_abs(y.n),
        v.d <= x.d * y.d,
    ensures
        -1024 <= v.n <= 1024,
        1 <= v.d <= 1024,
{
}

/// The value whose ceiling `prop_sample_size` returns.
pub open spec fn prop_sample_size_value(
    p1: Rat,
    p2: Rat,
    q_alpha: Rat,
    q_power: Rat,
    s_alpha: Rat,
    s_power: Rat,
) -> Rat {
    rat_div(
        rat_sq(rat_add(rat_mul(q_alpha, s_alpha), rat_mul(q_power, s_power))),
        rat_sq(rat_sub(p2, p1)),
    )
}

/// `2 p (1 - p)` for the average proportion `p = (p1 + p2) / 2`: the
/// radicand of the pooled term of `prop_sample_size`.
pub fn prop_pooled_radicand(p1: Ratio, p2: Ratio) -> (r: Option<Ratio>)
    requires
        p1.wf(),
        p2.wf(),
    ensures
        r matches Some(v) ==> v.wf() && rat_eqv(
            v@,
            rat_mul(
                rat_mul(int_rat(2), rat_div_int(rat_add(p1@, p2@), 2)),
                rat_sub(int_rat(1), rat_div_int(rat_add(p1@, p2@), 2)),
            ),
        ),
        p1.bounded(1024) && p2.bounded(1024) ==> r is Some,
{
    let ghost in_range = p1.bounded(1024) && p2.bounded(1024);
    let psum = match radd(p1, p2, Ghost(p1@), Ghost(p2@)) {
        Some(v) => v,
        None => {
            proof {
                if in_range {
                    lemma_radicand_pair_bound(p1@, p2@);
                    assert(false);
                }
            }
            return None;
        },
    };
    proof {
        if in_range {
            lemma_radicand_pair_bound(p1@, p2@);
            assert(int_abs(psum@.n) <= 2097152 && psum@.d <= 1048576);
        }
    }
    let pbar = match rdiv_u32(psum, 2, Ghost(rat_add(p1@, p2@))) {
        Some(v) => v,
        None => {
            proof {
                if in_range {
                    assert(psum@.d * 2 <= 2097152) by (nonlinear_arith)
                        requires
                            psum@.d <= 1048576,
                    ;
                    assert(false);
                }
            }
            return None;
        },
    };
    let ghost pbv = rat_div_int(rat_add(p1@, p2@), 2);
    proof {
        if in_range {
            assert(int_abs(pbar@.n) <= 2097152 && pbar@.d <= 2097152) by (nonlinear_arith)
                requires
                    int_abs(pbar@.n) <= int_abs(psum@.n),
                    pbar@.d <= psum@.d * 2,
                    0 <= int_abs(pbar@.n),
                    1 <= pbar@.d,
                    0 <= int_abs(psum@.n) <= 2097152,
                    1 <= psum@.d <= 1048576,
            ;
        }
    }
    let two = Ratio::from_i32(2);
    let doubled = match rmul(two, pbar, Ghost(int_rat(2)), Ghost(pbv)) {
        Some(v) => v,
        None => {
            proof {
                if in_range {
                    assert(int_abs(two@.n) * int_abs(pbar@.n) <= 4194304 && two@.d * pbar@.d
                        <= 2097152) by (nonlinear_arith)
                        requires
                            two@.n == 2,
                            two@.d == 1,
                            0 <= int_abs(pbar@.n) <= 2097152,
                            1 <= pbar@.d <= 2097152,
                    ;
                    assert(false);
                }
            }
            return None;
        },
    };
    let one = Ratio::from_i32(1);
    let q = match rsub(one, pbar, Ghost(int_rat(1)), Ghost(pbv)) {
        Some(v) => v,
        None => {
            proof {
                if in_range {
                    assert(int_abs(one@.n) * pbar@.d + int_abs(pbar@.n) * one@.d <= 4194304
                        && one@.d * pbar@.d <= 2097152) by (nonlinear_arith)
                        requires
                            one@.n == 1,
                            one@.d == 1,
                            0 <= int_abs(pbar@.n) <= 2097152,
                            1 <= pbar@.d <= 2097152,
                    ;
                    assert(false);
                }
            }
            return None;
        },
    };
    let r = rmul(doubled, q, Ghost(rat_mul(int_rat(2), pbv)), Ghost(rat_sub(int_rat(1), pbv)));
    proof {
        if in_range {
            if r is None {
                assert(int_abs(doubled@.n) <= 4194304 && doubled@.d <= 2097152)
                    by (nonlinear_arith)
                    requires
                        int_abs(doubled@.n) <= int_abs(two@.n) * int_abs(pbar@.n),
                        doubled@.d <= two@.d * pbar@.d,
                        0 <= int_abs(doubled@.n),
                        1 <= doubled@.d,
                        two@.n == 2,
                        two@.d == 1,
                        0 <= int_abs(pbar@.n) <= 2097152,
                        1 <= pbar@.d <= 2097152,
                ;
                assert(int_abs(q@.n) <= 4194304 && q@.d <= 2097152) by (nonlinear_arith)
                    requires
                        int_abs(q@.n) <= int_abs(one@.n) * pbar@.d + int_abs(pbar@.n) * one@.d,
                        q@.d <= one@.d * pbar@.d,
                        0 <= int_abs(q@.n),
                        1 <= q@.d,
                        one@.n == 1,
                        one@.d == 1,
                        0 <= int_abs(pbar@.n) <= 2097152,
                        1 <= pbar@.d <= 2097152,
                ;
                assert(int_abs(doubled@.n) * int_abs(q@.n) <= 4611686018427387904 && doubled@.d
                    * q@.d <= 4611686018427387904) by (nonlinear_arith)
                    requires
                        0 <= int_abs(doubled@.n) <= 4194304,
                        1 <= doubled@.d <= 2097152,
                        0 <= int_abs(q@.n) <= 4194304,
                        1 <= q@.d <= 2097152,
                ;
                assert(false);
            }
        }
    }
    r
}

/// `p1 (1 - p1) + p2 (1 - p2)`: the radicand of the unpooled term of
/// `prop_sample_size`.
pub fn prop_unpooled_radicand(p1: Ratio, p2: Ratio) -> (r: Option<Ratio>)
    requires
        p1.wf(),
        p2.wf(),
    ensures
        r matches Some(v) ==> v.wf() && rat_eqv(
            v@,
            rat_add(
                rat_mul(p1@, rat_sub(int_rat(1), p1@)),
                rat_mul(p2@, rat_sub(int_rat(1), p2@)),
            ),
        ),
        p1.bounded(1024) && p2.bounded(1024) ==> r is Some,
{
    let ghost in_range = p1.bounded(1024) && p2.bounded(1024);
    let one = Ratio::from_i32(1);
    let q1 = match rsub(one, p1, Ghost(int_rat(1)), Ghost(p1@)) {
        Some(v) => v,
        None => {
            proof {
                if in_range {
                    lemma_one_minus_bound(p1@);
                    assert(false);
                }
            }
            return None;
        },
    };
    proof {
        if in_range {
            lemma_one_minus_bound(p1@);
            lemma_unpooled_term_bound(p1@, q1@);
        }
    }
    let a = match rmul(p1, q1, Ghost(p1@), Ghost(rat_sub(int_rat(1), p1@))) {
        Some(v) => v,
        None => {
            proof {
                if in_range {
                    assert(false);
                }
            }
            return None;
        },
    };
    let q2 = match rsub(one, p2, Ghost(int_rat(1)), Ghost(p2@)) {
        Some(v) => v,
        None => {
            proof {
                if in_range {
                    lemma_one_minus_bound(p2@);
                    assert(false);
                }
            }
            return None;
        },
    };
    proof {
        if in_range {
            lemma_one_minus_bound(p2@);
            lemma_unpooled_term_bound(p2@, q2@);
        }
    }
    let b = match rmul(p2, q2, Ghost(p2@), Ghost(rat_sub(int_rat(1), p2@))) {
        Some(v) => v,
        None => {
            proof {
                if in_range {
                    assert(false);
                }
            }
            return None;
        },
    };
    let r = radd(
        a,
        b,
        Ghost(rat_mul(p1@, rat_sub(int_rat(1), p1@))),
        Ghost(rat_mul(p2@, rat_sub(int_rat(1), p2@))),
    );
    proof {
        if in_range {
            if r is None {
                lemma_one_minus_bound(p1@);
                lemma_one_minus_bound(p2@);
                assert(int_abs(a@.n) <= 2098176 && a@.d <= 1048576) by (nonlinear_arith)
                    requires
                        int_abs(a@.n) <= int_abs(p1@.n) * int_abs(q1@.n),
                        a@.d <= p1@.d * q1@.d,
                        0 <= int_abs(a@.n),
                        1 <= a@.d,
                        0 <= int_abs(p1@.n) <= 1024,
                        1 <= p1@.d <= 1024,
                        0 <= int_abs(q1@.n) <= 2049,
                        1 <= q1@.d <= 1024,
                ;
                assert(int_abs(b@.n) <= 2098176 && b@.d <= 1048576) by (nonlinear_arith)
                    requires
                        int_abs(b@.n) <= int_abs(p2@.n) * int_abs(q2@.n),
                        b@.d <= p2@.d * q2@.d,
                        0 <= int_abs(b@.n),
                        1 <= b@.d,
                        0 <= int_abs(p2@.n) <= 1024,
                        1 <= p2@.d <= 1024,
                        0 <= int_abs(q2@.n) <= 2049,
                        1 <= q2@.d <= 1024,
                ;
                assert(int_abs(a@.n) * b@.d + int_abs(b@.n) * a@.d <= 4611686018427387904
                    && a@.d * b@.d <= 4611686018427387904) by (nonlinear_arith)
                    requires
                        0 <= int_abs(a@.n) <= 2098176,
                        1 <= a@.d <= 1048576,
                        0 <= int_abs(b@.n) <= 2098176,
                        1 <= b@.d <= 1048576,
                ;
                assert(false);
            }
        }
    }
    r
}

/// Bounds of `1 - p` for a value within 1024.
proof fn lemma_one_minus_bound(p: Rat)
    by (nonlinear_arith)
    requires
        rat_wf(p),
        -1024 <= p.n <= 1024,
        p.d <= 1024,
    ensures
        int_abs(int_rat(1).n) * p.d + int_abs(p.n) * int_rat(1).d <= 2049,
        int_rat(1).d * p.d <= 1024,
{
}

/// Bounds of a `p (1 - p)` product's operands.
proof fn lemma_unpooled_term_bound(p: Rat, q: Rat)
    by (nonlinear_arith)
    requires
        rat_wf(p),
        rat_wf(q),
        -1024 <= p.n <= 1024,
        p.d <= 1024,
        int_abs(q.n) <= 2049,
        q.d <= 1024,
    ensures
        int_abs(p.n) * int_abs(q.n) <= 2098176,
        p.d * q.d <= 1048576,
{
}

/// Swapping the two samples negates the proportion statistic and keeps its
/// absolute value — so a two-tailed p-value, which reads the standard
/// normal CDF at the absolute statistic, is unchanged.
pub proof fn law_swapped_samples_negate_prop_statistic(s1: Seq<Rat>, s2: Seq<Rat>, pooled: bool)
    requires
        rats_wf(s1),
        rats_wf(s2),
        s1.len() >= 1,
        s2.len() >= 1,
        !rat_eqv(prop_ind_se_sq(s1, s2, pooled), int_rat(0)),
    ensures
        rat_eqv(prop_ind_se_sq(s2, s1, pooled), prop_ind_se_sq(s1, s2, pooled)),
        rat_eqv(prop_ind_stat_sq(s2, s1, pooled), rat_neg(prop_ind_stat_sq(s1, s2, pooled))),
        rat_eqv(
            rat_abs(prop_ind_stat_sq(s2, s1, pooled)),
            rat_abs(prop_ind_stat_sq(s1, s2, pooled)),
        ),
{
    lemma_mean_ptwise_eqv(s1, s1);
    lemma_mean_ptwise_eqv(s2, s2);
    lemma_sum_wf(s1);
    lemma_sum_wf(s2);
    if pooled {
        lemma_add_comm(rat_sum(s2), rat_sum(s1));
        lemma_add_eqv(rat_sum(s2), rat_sum(s1), rat_sum(s2), rat_sum(s1));
        lemma_add_eqv(rat_sum(s1), rat_sum(s2), rat_sum(s1), rat_sum(s2));
        lemma_div_int_congruence(
            rat_add(rat_sum(s2), rat_sum(s1)),
            rat_add(rat_sum(s1), rat_sum(s2)),
            s1.len() + s2.len() as int,
        );
        lemma_div_int_congruence(
            rat_add(rat_sum(s1), rat_sum(s2)),
            rat_add(rat_sum(s1), rat_sum(s2)),
            s1.len() + s2.len() as int,
        );
        let pb21 = pooled_prop(s2, s1);
        let pb12 = pooled_prop(s1, s2);
        lemma_sub_eqv(int_rat(1), pb21, int_rat(1), pb12);
        lemma_sub_eqv(int_rat(1), pb12, int_rat(1), pb12);
        lemma_mul_eqv(pb21, rat_sub(int_rat(1), pb21), pb12, rat_sub(int_rat(1), pb12));
        lemma_mul_eqv(pb12, rat_sub(int_rat(1), pb12), pb12, rat_sub(int_rat(1), pb12));
        let i1 = Rat { n: 1int, d: s1.len() as int };
        let i2 = Rat { n: 1int, d: s2.len() as int };
        lemma_add_comm(i2, i1);
        lemma_add_eqv(i2, i1, i2, i1);
        lemma_add_eqv(i1, i2, i1, i2);
        lemma_mul_eqv(
            rat_mul(pb21, rat_sub(int_rat(1), pb21)),
            rat_add(i2, i1),
            rat_mul(pb12, rat_sub(int_rat(1), pb12)),
            rat_add(i1, i2),
        );
        lemma_mul_eqv(
            rat_mul(pb12, rat_sub(int_rat(1), pb12)),
            rat_add(i1, i2),
            rat_mul(pb12, rat_sub(int_rat(1), pb12)),
            rat_add(i1, i2),
        );
    } else {
        let e1 = prop_se_sq(rat_mean(s1), s1.len() as int);
        let e2 = prop_se_sq(rat_mean(s2), s2.len() as int);
        lemma_prop_se_sq_eqv(rat_mean(s1), rat_mean(s1), s1.len() as int);
        lemma_prop_se_sq_eqv(rat_mean(s2), rat_mean(s2), s2.len() as int);
        lemma_add_comm(e2, e1);
        lemma_add_eqv(e2, e1, e2, e1);
        lemma_add_eqv(e1, e2, e1, e2);
    }
    let se12 = prop_ind_se_sq(s1, s2, pooled);
    let se21 = prop_ind_se_sq(s2, s1, pooled);
    lemma_zero_eqv(se12, se12);
    lemma_zero_eqv(se21, se12);
    let d1 = rat_sub(rat_mean(s1), rat_mean(s2));
    let d2 = rat_sub(rat_mean(s2), rat_mean(s1));
    lemma_sub_antisym(rat_mean(s2), rat_mean(s1));
    lemma_sub_eqv(rat_mean(s1), rat_mean(s2), rat_mean(s1), rat_mean(s2));
    lemma_sub_eqv(rat_mean(s2), rat_mean(s1), rat_mean(s2), rat_mean(s1));
    lemma_signed_ratio_swap(d1, d2, se12, se21);
}

} // verus!
