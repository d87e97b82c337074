//! One-way analysis of variance: the F-test that the means of two or more
//! groups are equal, plus the companion sample-size formula.

use vstd::prelude::*;
use vstd::string::*;
use crate::rat::{
    Rat, Ratio, int_rat, rat_add, rat_sub, rat_mul, rat_sq, rat_div, rat_div_int, rat_eqv, rat_le,
    rat_lt, rat_wf, radd, rsub, rmul, rdiv, rdiv_u32, lemma_eqv_trans, lemma_mul_eqv,
    lemma_zero_eqv, lemma_sub_eqv, lemma_add_eqv,
};
use crate::stats::{
    views, seq_wf, rats_wf, rat_sum, rat_mean, rat_dev_sq_sum, mean, dev_sq_sum, lemma_views_wf,
    lemma_sum_wf, lemma_div_int_eqv, lemma_dev_sq_sum_eqv,
};
use crate::common::{OmnibusTest, RefDistribution, StatError, range_message};
use crate::text::{mean_null_text, mean_null_hypothesis};
use crate::t::{quantile_formula_sq, ceil_quantile_formula};

verus! {

/// The mathematical values of a sequence of groups.
pub open spec fn group_views(g: Seq<Vec<Ratio>>) -> Seq<Seq<Rat>> {
    g.map_values(|v: Vec<Ratio>| views(v@))
}

/// Every group is a sequence of well-formed rationals.
pub open spec fn groups_wf(g: Seq<Seq<Rat>>) -> bool {
    forall|i: int| 0 <= i < g.len() ==> rats_wf(#[trigger] g[i])
}

/// Every group is non-empty.
pub open spec fn groups_nonempty(g: Seq<Seq<Rat>>) -> bool {
    forall|i: int| 0 <= i < g.len() ==> #[trigger] g[i].len() >= 1
}

/// All groups concatenated, in order.
pub open spec fn concat_all(g: Seq<Seq<Rat>>) -> Seq<Rat>
    decreases g.len(),
{
    if g.len() == 0 {
        Seq::empty()
    } else {
        concat_all(g.drop_last()) + g.last()
    }
}

/// Between-group sum of squares around the reference point `m`:
/// the sum over groups of `n_g * (mean_g - m)^2`.
pub open spec fn ss_between(g: Seq<Seq<Rat>>, m: Rat) -> Rat
    decreases g.len(),
{
    if g.len() == 0 {
        int_rat(0)
    } else {
        rat_add(
            ss_between(g.drop_last(), m),
            rat_mul(int_rat(g.last().len() as int), rat_sq(rat_sub(rat_mean(g.last()), m))),
        )
    }
}

/// Within-group sum of squares: the sum over groups of the squared
/// deviations from each group's own mean.
pub open spec fn ss_within(g: Seq<Seq<Rat>>) -> Rat
    decreases g.len(),
{
    if g.len() == 0 {
        int_rat(0)
    } else {
        rat_add(ss_within(g.drop_last()), rat_dev_sq_sum(g.last(), rat_mean(g.last())))
    }
}

/// The one-way F statistic: `(SSB / (k - 1)) / (SSW / (n - k))`.
pub open spec fn anova_f_stat(g: Seq<Seq<Rat>>) -> Rat {
    rat_div(
        rat_div_int(ss_between(g, rat_mean(concat_all(g))), g.len() - 1),
        rat_div_int(ss_within(g), concat_all(g).len() - g.len()),
    )
}

/// `ss_between` is well formed and respects equivalence of the reference
/// point.
proof fn lemma_ss_between_eqv(g: Seq<Seq<Rat>>, m: Rat, m2: Rat)
    requires
        groups_wf(g),
        groups_nonempty(g),
        rat_wf(m),
        rat_wf(m2),
        rat_eqv(m, m2),
    ensures
        rat_eqv(ss_between(g, m), ss_between(g, m2)),
        rat_wf(ss_between(g, m)),
        rat_wf(ss_between(g, m2)),
    decreases g.len(),
{
    if g.len() > 0 {
        assert(groups_wf(g.drop_last()) && groups_nonempty(g.drop_last())) by {
            assert(forall|i: int|
                0 <= i < g.drop_last().len() ==> #[trigger] g.drop_last()[i] == g[i]);
        }
        lemma_ss_between_eqv(g.drop_last(), m, m2);
        let grp = g.last();
        crate::stats::lemma_mean_ptwise_eqv(grp, grp);
        let gm = rat_mean(grp);
        lemma_sub_eqv(gm, m, gm, m2);
        lemma_sub_eqv(gm, m2, gm, m2);
        lemma_mul_eqv(rat_sub(gm, m), rat_sub(gm, m), rat_sub(gm, m2), rat_sub(gm, m2));
        lemma_mul_eqv(rat_sub(gm, m2), rat_sub(gm, m2), rat_sub(gm, m2), rat_sub(gm, m2));
        lemma_mul_eqv(
            int_rat(grp.len() as int),
            rat_sq(rat_sub(gm, m)),
            int_rat(grp.len() as int),
            rat_sq(rat_sub(gm, m2)),
        );
        lemma_mul_eqv(
            int_rat(grp.len() as int),
            rat_sq(rat_sub(gm, m2)),
            int_rat(grp.len() as int),
            rat_sq(rat_sub(gm, m2)),
        );
        lemma_add_eqv(
            ss_between(g.drop_last(), m),
            rat_mul(int_rat(grp.len() as int), rat_sq(rat_sub(gm, m))),
            ss_between(g.drop_last(), m2),
            rat_mul(int_rat(grp.len() as int), rat_sq(rat_sub(gm, m2))),
        );
        lemma_add_eqv(
            ss_between(g.drop_last(), m2),
            rat_mul(int_rat(grp.len() as int), rat_sq(rat_sub(gm, m2))),
            ss_between(g.drop_last(), m2),
            rat_mul(int_rat(grp.len() as int), rat_sq(rat_sub(gm, m2))),
        );
    }
}

/// `ss_within` is well formed.
proof fn lemma_ss_within_wf(g: Seq<Seq<Rat>>)
    requires
        groups_wf(g),
        groups_nonempty(g),
    ensures
        rat_wf(ss_within(g)),
    decreases g.len(),
{
    if g.len() > 0 {
        assert(groups_wf(g.drop_last()) && groups_nonempty(g.drop_last())) by {
            assert(forall|i: int|
                0 <= i < g.drop_last().len() ==> #[trigger] g.drop_last()[i] == g[i]);
        }
        lemma_ss_within_wf(g.drop_last());
        let grp = g.last();
        crate::stats::lemma_mean_ptwise_eqv(grp, grp);
        lemma_dev_sq_sum_eqv(grp, rat_mean(grp), rat_mean(grp));
        lemma_add_eqv(
            ss_within(g.drop_last()),
            rat_dev_sq_sum(grp, rat_mean(grp)),
            ss_within(g.drop_last()),
            rat_dev_sq_sum(grp, rat_mean(grp)),
        );
    }
}

/// One-way ANOVA across `data_groups`.  Fails with `ComputeError` when
/// fewer than two groups are given, `EmptyData` when a group is empty, and
/// `ComputeError` when the within-group degrees of freedom are zero (every
/// group a single observation), when the within-group mean square is zero
/// (for example when every group is the same constant sample), or when a
/// value exceeds the exact-arithmetic range.
pub fn anova(data_groups: &Vec<Vec<Ratio>>) -> (r: Result<OmnibusTest, StatError>)
    requires
        forall|i: int| 0 <= i < data_groups@.len() ==> seq_wf(#[trigger] data_groups@[i]@),
        forall|i: int| 0 <= i < data_groups@.len() ==> #[trigger] data_groups@[i]@.len() <= u32::MAX,
        data_groups@.len() < u32::MAX,
        concat_all(group_views(data_groups@)).len() <= u32::MAX,
    ensures
        data_groups@.len() < 2 ==> (r matches Err(e) && e is ComputeError),
        data_groups@.len() >= 2 && !groups_nonempty(group_views(data_groups@)) ==> (r matches Err(
            e,
        ) && e is EmptyData),
        r matches Err(e) ==> (e is EmptyData <==> (data_groups@.len() >= 2 && !groups_nonempty(
            group_views(data_groups@),
        ))),
        r matches Err(e) ==> !(e is InsufficientData),
        r matches Err(e) ==> (e matches StatError::ComputeError(m) ==> ((m@
            == "ANOVA requires at least two groups"@ && data_groups@.len() < 2) || (m@
            == "Degrees of freedom too small"@ && data_groups@.len() >= 2 && concat_all(
            group_views(data_groups@),
        ).len() <= data_groups@.len()) || (m@ == "Mean square within groups is zero"@ && rat_eqv(
            ss_within(group_views(data_groups@)),
            int_rat(0),
        )) || m@ == range_message())),
        data_groups@.len() >= 2 && groups_nonempty(group_views(data_groups@)) && rat_eqv(
            ss_within(group_views(data_groups@)),
            int_rat(0),
        ) ==> r is Err,
        r matches Ok(t) ==> data_groups@.len() >= 2 && groups_nonempty(group_views(data_groups@))
            && concat_all(group_views(data_groups@)).len() > data_groups@.len() && !rat_eqv(
            ss_within(group_views(data_groups@)),
            int_rat(0),
        ) && t.wf() && rat_eqv(t.statistic@, anova_f_stat(group_views(data_groups@))) && (
        t.dist matches RefDistribution::FisherF { df1, df2 } && df1@ == int_rat(
            data_groups@.len() - 1,
        ) && df2@ == int_rat(
            concat_all(group_views(data_groups@)).len() - data_groups@.len(),
        )) && t.null_hypothesis@ == mean_null_text(data_groups@.len() as int)
            && t.alt_hypothesis@ == "Ha: At least one group mean is different"@,
{
    let ghost g = group_views(data_groups@);
    let k = data_groups.len();
    if k < 2 {
        return Err(
            StatError::ComputeError(String::from_str("ANOVA requires at least two groups")),
        );
    }
    // Flatten all observations, checking that no group is empty.
    let mut all_values: Vec<Ratio> = Vec::new();
    let mut i: usize = 0;
    proof {
        assert(concat_all(g.take(0int)) =~= Seq::<Rat>::empty());
    }
    while i < k
        invariant
            i <= k,
            k >= 2,
            k == data_groups@.len(),
            g == group_views(data_groups@),
            forall|j: int| 0 <= j < data_groups@.len() ==> seq_wf(#[trigger] data_groups@[j]@),
            forall|j: int| 0 <= j < i ==> #[trigger] g[j].len() >= 1,
            seq_wf(all_values@),
            views(all_values@) == concat_all(g.take(i as int)),
        decreases k - i,
    {
        let group = &data_groups[i];
        if group.len() == 0 {
            proof {
                assert(g[i as int].len() == 0);
            }
            return Err(StatError::EmptyData);
        }
        let mut j: usize = 0;
        while j < group.len()
            invariant
                j <= group@.len(),
                i < k,
                k >= 2,
                k == data_groups@.len(),
                g == group_views(data_groups@),
                group == &data_groups[i as int],
                forall|l: int| 0 <= l < data_groups@.len() ==> seq_wf(#[trigger] data_groups@[l]@),
                seq_wf(all_values@),
                views(all_values@) == concat_all(g.take(i as int)) + g[i as int].take(j as int),
            decreases group@.len() - j,
        {
            let ghost prev = all_values@;
            all_values.push(group[j]);
            proof {
                assert(views(all_values@) =~= views(prev).push(group@[j as int]@));
                assert(views(all_values@) =~= concat_all(g.take(i as int)) + g[i as int].take(
                    j + 1,
                ));
            }
            j = j + 1;
        }
        proof {
            assert(g[i as int].take(g[i as int].len() as int) =~= g[i as int]);
            assert(g.take(i + 1).drop_last() =~= g.take(i as int));
            assert(g.take(i + 1).last() == g[i as int]);
            assert(views(all_values@) =~= concat_all(g.take(i + 1)));
        }
        i = i + 1;
    }
    proof {
        assert(g.take(g.len() as int) =~= g);
        assert(groups_nonempty(g));
        assert(groups_wf(g)) by {
            assert forall|l: int| 0 <= l < g.len() implies rats_wf(#[trigger] g[l]) by {
                lemma_views_wf(data_groups@[l]@);
            }
        }
    }
    let total_n = all_values.len();
    if total_n <= k {
        return Err(StatError::ComputeError(String::from_str("Degrees of freedom too small")));
    }
    proof {
        lemma_views_wf(all_values@);
        crate::stats::lemma_mean_ptwise_eqv(views(all_values@), views(all_values@));
    }
    let grand_mean = match mean(&all_values) {
        Some(v) => v,
        None => {
            return Err(crate::common::overflow_error());
        },
    };
    let ghost gm_spec = rat_mean(concat_all(g));
    // Between-group sum of squares.
    let mut ssb = Ratio::from_i32(0);
    let mut i2: usize = 0;
    proof {
        assert(ss_between(g.take(0int), grand_mean@) == int_rat(0));
    }
    while i2 < k
        invariant
            i2 <= k,
            k >= 2,
            k == data_groups@.len(),
            g == group_views(data_groups@),
            forall|j: int| 0 <= j < data_groups@.len() ==> seq_wf(#[trigger] data_groups@[j]@),
            forall|j: int| 0 <= j < data_groups@.len() ==> #[trigger] data_groups@[j]@.len()
                <= u32::MAX,
            groups_wf(g),
            groups_nonempty(g),
            k < u32::MAX,
            grand_mean.wf(),
            ssb.wf(),
            rat_eqv(ssb@, ss_between(g.take(i2 as int), grand_mean@)),
        decreases k - i2,
    {
        let group = &data_groups[i2];
        proof {
            lemma_views_wf(group@);
            crate::stats::lemma_mean_ptwise_eqv(g[i2 as int], g[i2 as int]);
        }
        let gm = match mean(group) {
            Some(v) => v,
            None => {
                return Err(crate::common::overflow_error());
            },
        };
        let d = match rsub(gm, grand_mean, Ghost(rat_mean(g[i2 as int])), Ghost(grand_mean@)) {
            Some(v) => v,
            None => {
                return Err(crate::common::overflow_error());
            },
        };
        let ghost dsp = rat_sub(rat_mean(g[i2 as int]), grand_mean@);
        let sq = match rmul(d, d, Ghost(dsp), Ghost(dsp)) {
            Some(v) => v,
            None => {
                return Err(crate::common::overflow_error());
            },
        };
        let w = Ratio::from_u64(group.len() as u64);
        let term = match rmul(w, sq, Ghost(int_rat(g[i2 as int].len() as int)), Ghost(
            rat_sq(dsp),
        )) {
            Some(v) => v,
            None => {
                return Err(crate::common::overflow_error());
            },
        };
        let ghost term_spec = rat_mul(int_rat(g[i2 as int].len() as int), rat_sq(dsp));
        proof {
            assert(groups_wf(g.take(i2 as int)) && groups_nonempty(g.take(i2 as int))) by {
                assert(forall|l: int|
                    0 <= l < i2 ==> #[trigger] g.take(i2 as int)[l] == g[l]);
            }
            lemma_ss_between_eqv(g.take(i2 as int), grand_mean@, grand_mean@);
        }
        let next = match radd(ssb, term, Ghost(ss_between(g.take(i2 as int), grand_mean@)), Ghost(
            term_spec,
        )) {
            Some(v) => v,
            None => {
                return Err(crate::common::overflow_error());
            },
        };
        proof {
            assert(g.take(i2 + 1).drop_last() =~= g.take(i2 as int));
            assert(g.take(i2 + 1).last() == g[i2 as int]);
            assert(groups_wf(g.take(i2 as int)) && groups_nonempty(g.take(i2 as int))) by {
                assert(forall|l: int|
                    0 <= l < i2 ==> #[trigger] g.take(i2 as int)[l] == g[l]);
            }
            lemma_ss_between_eqv(g.take(i2 as int), grand_mean@, grand_mean@);
            lemma_eqv_trans(
                next@,
                rat_add(ss_between(g.take(i2 as int), grand_mean@), term_spec),
                ss_between(g.take(i2 + 1), grand_mean@),
            );
        }
        ssb = next;
        i2 = i2 + 1;
    }
    proof {
        assert(g.take(g.len() as int) =~= g);
    }
    // Within-group sum of squares.
    let mut ssw = Ratio::from_i32(0);
    let mut i3: usize = 0;
    proof {
        assert(ss_within(g.take(0int)) == int_rat(0));
    }
    while i3 < k
        invariant
            i3 <= k,
            k >= 2,
            k == data_groups@.len(),
            g == group_views(data_groups@),
            forall|j: int| 0 <= j < data_groups@.len() ==> seq_wf(#[trigger] data_groups@[j]@),
            forall|j: int| 0 <= j < data_groups@.len() ==> #[trigger] data_groups@[j]@.len()
                <= u32::MAX,
            groups_wf(g),
            groups_nonempty(g),
            ssw.wf(),
            rat_eqv(ssw@, ss_within(g.take(i3 as int))),
        decreases k - i3,
    {
        let group = &data_groups[i3];
        proof {
            lemma_views_wf(group@);
            crate::stats::lemma_mean_ptwise_eqv(g[i3 as int], g[i3 as int]);
        }
        let gm = match mean(group) {
            Some(v) => v,
            None => {
                return Err(crate::common::overflow_error());
            },
        };
        let term = match dev_sq_sum(group, gm) {
            Some(v) => v,
            None => {
                return Err(crate::common::overflow_error());
            },
        };
        let ghost mspec = rat_mean(g[i3 as int]);
        let ghost term_spec = rat_dev_sq_sum(g[i3 as int], mspec);
        proof {
            lemma_dev_sq_sum_eqv(g[i3 as int], gm@, mspec);
            lemma_dev_sq_sum_eqv(g[i3 as int], mspec, mspec);
            lemma_eqv_trans(term@, rat_dev_sq_sum(g[i3 as int], gm@), term_spec);
        }
        proof {
            assert(groups_wf(g.take(i3 as int)) && groups_nonempty(g.take(i3 as int))) by {
                assert(forall|l: int|
                    0 <= l < i3 ==> #[trigger] g.take(i3 as int)[l] == g[l]);
            }
            lemma_ss_within_wf(g.take(i3 as int));
        }
        let next = match radd(ssw, term, Ghost(ss_within(g.take(i3 as int))), Ghost(term_spec)) {
            Some(v) => v,
            None => {
                return Err(crate::common::overflow_error());
            },
        };
        proof {
            assert(g.take(i3 + 1).drop_last() =~= g.take(i3 as int));
            assert(g.take(i3 + 1).last() == g[i3 as int]);
            assert(groups_wf(g.take(i3 as int)) && groups_nonempty(g.take(i3 as int))) by {
                assert(forall|l: int|
                    0 <= l < i3 ==> #[trigger] g.take(i3 as int)[l] == g[l]);
            }
            lemma_ss_within_wf(g.take(i3 as int));
            lemma_eqv_trans(
                next@,
                rat_add(ss_within(g.take(i3 as int)), term_spec),
                ss_within(g.take(i3 + 1)),
            );
        }
        ssw = next;
        i3 = i3 + 1;
    }
    proof {
        assert(g.take(g.len() as int) =~= g);
        lemma_ss_within_wf(g);
        lemma_ss_between_eqv(g, grand_mean@, gm_spec);
        lemma_eqv_trans(ssb@, ss_between(g, grand_mean@), ss_between(g, gm_spec));
    }
    let ms_between = match rdiv_u32(ssb, (k - 1) as u32, Ghost(ss_between(g, gm_spec))) {
        Some(v) => v,
        None => {
            return Err(crate::common::overflow_error());
        },
    };
    let ms_within = match rdiv_u32(ssw, (total_n - k) as u32, Ghost(ss_within(g))) {
        Some(v) => v,
        None => {
            return Err(crate::common::overflow_error());
        },
    };
    if ms_within.is_zero() {
        proof {
            lemma_zero_eqv(ms_within@, rat_div_int(ss_within(g), total_n - k));
            lemma_zero_eqv(ss_within(g), ss_within(g));
        }
        return Err(
            StatError::ComputeError(String::from_str("Mean square within groups is zero")),
        );
    }
    proof {
        lemma_zero_eqv(ms_within@, rat_div_int(ss_within(g), total_n - k));
        lemma_zero_eqv(ss_within(g), ss_within(g));
    }
    let f_statistic = match rdiv(ms_between, ms_within, Ghost(
        rat_div_int(ss_between(g, gm_spec), g.len() - 1),
    ), Ghost(rat_div_int(ss_within(g), concat_all(g).len() - g.len()))) {
        Some(v) => v,
        None => {
            return Err(crate::common::overflow_error());
        },
    };
    let df1 = Ratio::from_u64((k - 1) as u64);
    let df2 = Ratio::from_u64((total_n - k) as u64);
    let null_hypothesis = mean_null_hypothesis(k);
    let alt_hypothesis = String::from_str("Ha: At least one group mean is different");
    Ok(
        OmnibusTest {
            statistic: f_statistic,
            dist: RefDistribution::FisherF { df1, df2 },
            null_hypothesis,
            alt_hypothesis,
        },
    )
}

/// Required per-group sample size of a one-way ANOVA: the ceiling of
/// `((q_alpha + q_power) * (k - 1) / effect_size^2)^2`, with the quantiles
/// read from the reference F distribution at `1 - alpha` and at the
/// desired power; the denominator degrees of freedom are conventionally
/// taken with a large-sample approximation.  Fails with `ComputeError` on
/// a zero effect size.
pub fn f_sample_size(effect_size: Ratio, num_groups: u32, q_alpha: Ratio, q_power: Ratio) -> (r:
    Result<u64, StatError>)
    requires
        effect_size.wf(),
        q_alpha.wf(),
        q_power.wf(),
        num_groups >= 2,
    ensures
        rat_eqv(effect_size@, int_rat(0)) ==> r is Err,
        q_alpha.bounded(128) && q_power.bounded(128) && effect_size.bounded(11)
            && effect_size@.n != 0 && num_groups <= 129 ==> r is Ok,
        r matches Err(e) ==> e is ComputeError,
        r matches Err(e) ==> (e matches StatError::ComputeError(m) ==> ((m@
            == "Effect size must be nonzero"@ && rat_eqv(effect_size@, int_rat(0))) || m@
            == range_message())),
        r matches Ok(n) ==> rat_le(
            quantile_formula_sq(
                q_alpha@,
                q_power@,
                int_rat(num_groups as int - 1),
                rat_sq(effect_size@),
            ),
            int_rat(n as int),
        ) && rat_lt(
            int_rat(n as int - 1),
            quantile_formula_sq(
                q_alpha@,
                q_power@,
                int_rat(num_groups as int - 1),
                rat_sq(effect_size@),
            ),
        ),
{
    let es_sq = match rmul(effect_size, effect_size, Ghost(effect_size@), Ghost(effect_size@)) {
        Some(v) => v,
        None => {
            proof {
                if effect_size.bounded(11) {
                    assert(crate::rat::int_abs(effect_size@.n) * crate::rat::int_abs(
                        effect_size@.n,
                    ) <= 121 && effect_size@.d * effect_size@.d <= 121) by (nonlinear_arith)
                        requires
                            0 <= crate::rat::int_abs(effect_size@.n) <= 11,
                            1 <= effect_size@.d <= 11,
                    ;
                    assert(false);
                }
            }
            return Err(crate::common::overflow_error());
        },
    };
    let df1 = Ratio::from_u64((num_groups - 1) as u64);
    proof {
        lemma_zero_eqv(effect_size@, effect_size@);
        lemma_zero_eqv(es_sq@, rat_sq(effect_size@));
        if rat_eqv(effect_size@, int_rat(0)) {
            assert(rat_sq(effect_size@).n == 0) by (nonlinear_arith)
                requires
                    effect_size@.n == 0,
                    rat_sq(effect_size@).n == effect_size@.n * effect_size@.n,
            ;
        }
        if rat_eqv(rat_sq(effect_size@), int_rat(0)) {
            assert(effect_size@.n == 0) by (nonlinear_arith)
                requires
                    effect_size@.n * effect_size@.n == 0,
                    rat_sq(effect_size@).n == effect_size@.n * effect_size@.n,
            ;
        }
    }
    proof {
        if effect_size.bounded(11) && effect_size@.n != 0 && num_groups <= 129 {
            assert(es_sq.bounded(128)) by (nonlinear_arith)
                requires
                    crate::rat::int_abs(es_sq@.n) <= crate::rat::int_abs(effect_size@.n)
                        * crate::rat::int_abs(effect_size@.n),
                    es_sq@.d <= effect_size@.d * effect_size@.d,
                    1 <= es_sq@.d,
                    0 <= crate::rat::int_abs(es_sq@.n),
                    0 <= crate::rat::int_abs(effect_size@.n) <= 11,
                    1 <= effect_size@.d <= 11,
                    es_sq.bounded(128) == (1 <= es_sq@.d <= 128 && -128 <= es_sq@.n <= 128),
            ;
            assert(es_sq@.n != 0);
        }
    }
    let r = ceil_quantile_formula(q_alpha, q_power, df1, es_sq);
    proof {
        if let Ok(n) = r {
            let e1 = es_sq@;
            let e2 = rat_sq(effect_size@);
            lemma_mul_eqv(effect_size@, effect_size@, effect_size@, effect_size@);
            lemma_zero_eqv(e1, e2);
            let qsum = rat_add(q_alpha@, q_power@);
            lemma_add_eqv(q_alpha@, q_power@, q_alpha@, q_power@);
            let num = rat_mul(qsum, df1@);
            lemma_mul_eqv(qsum, df1@, qsum, df1@);
            crate::rat::lemma_div_eqv(num, e1, num, e2);
            let f1 = rat_div(num, e1);
            let f2 = rat_div(num, e2);
            lemma_mul_eqv(f1, f1, f2, f2);
            lemma_mul_eqv(f2, f2, f2, f2);
            crate::rat::lemma_le_eqv(
                rat_sq(f1),
                int_rat(n as int),
                rat_sq(f2),
                int_rat(n as int),
            );
            crate::rat::lemma_le_eqv(
                int_rat(n as int - 1),
                rat_sq(f1),
                int_rat(n as int - 1),
                rat_sq(f2),
            );
        }
    }
    r
}

/// When every observation of every group denotes the same value, the
/// within-group sum of squares is zero — so the F statistic is undefined
/// and `anova` must fail with a `ComputeError` rather than return a
/// result.
pub proof fn law_identical_groups_zero_within(g: Seq<Seq<Rat>>, c: Rat)
    requires
        groups_wf(g),
        groups_nonempty(g),
        rat_wf(c),
        forall|i: int, j: int|
            0 <= i < g.len() && 0 <= j < g[i].len() ==> rat_eqv(#[trigger] g[i][j], c),
    ensures
        rat_eqv(ss_within(g), int_rat(0)),
    decreases g.len(),
{
    if g.len() > 0 {
        assert(groups_wf(g.drop_last()) && groups_nonempty(g.drop_last()) && forall|i: int, j: int|
            0 <= i < g.drop_last().len() && 0 <= j < g.drop_last()[i].len() ==> rat_eqv(
                #[trigger] g.drop_last()[i][j],
                c,
            )) by {
            assert(forall|i: int|
                0 <= i < g.drop_last().len() ==> #[trigger] g.drop_last()[i] == g[i]);
        }
        law_identical_groups_zero_within(g.drop_last(), c);
        let grp = g.last();
        assert(forall|j: int| 0 <= j < grp.len() ==> rat_eqv(#[trigger] grp[j], c)) by {
            assert(grp == g[g.len() - 1]);
        }
        lemma_const_mean(grp, c);
        crate::stats::lemma_mean_ptwise_eqv(grp, grp);
        lemma_const_dev_zero(grp, rat_mean(grp), c);
        lemma_dev_sq_sum_eqv(grp, rat_mean(grp), rat_mean(grp));
        crate::stats::lemma_sum_wf(grp);
        lemma_ss_within_wf(g.drop_last());
        assert(rat_eqv(
            rat_add(ss_within(g.drop_last()), rat_dev_sq_sum(grp, rat_mean(grp))),
            int_rat(0),
        )) by (nonlinear_arith)
            requires
                rat_wf(ss_within(g.drop_last())),
                rat_wf(rat_dev_sq_sum(grp, rat_mean(grp))),
                ss_within(g.drop_last()).n == 0,
                rat_dev_sq_sum(grp, rat_mean(grp)).n == 0,
                ss_within(g) == rat_add(ss_within(g.drop_last()), rat_dev_sq_sum(grp, rat_mean(grp))),
        ;
        lemma_ss_within_wf(g.drop_last());
        lemma_dev_sq_sum_eqv(grp, rat_mean(grp), rat_mean(grp));
        crate::rat::lemma_zero_eqv(ss_within(g.drop_last()), ss_within(g.drop_last()));
        crate::rat::lemma_zero_eqv(
            rat_dev_sq_sum(grp, rat_mean(grp)),
            rat_dev_sq_sum(grp, rat_mean(grp)),
        );
    }
}

/// The mean of a sequence whose elements all denote `c` denotes `c`.
proof fn lemma_const_mean(s: Seq<Rat>, c: Rat)
    requires
        rats_wf(s),
        rat_wf(c),
        s.len() >= 1,
        forall|j: int| 0 <= j < s.len() ==> rat_eqv(#[trigger] s[j], c),
    ensures
        rat_eqv(rat_mean(s), c),
        rat_wf(rat_mean(s)),
{
    lemma_const_sum(s, c);
    crate::stats::lemma_sum_wf(s);
    assert(rat_eqv(rat_div_int(rat_sum(s), s.len() as int), c)) by (nonlinear_arith)
        requires
            rat_wf(rat_sum(s)),
            rat_wf(c),
            s.len() >= 1,
            rat_sum(s).n * c.d == (c.n * (s.len() as int)) * rat_sum(s).d,
            rat_div_int(rat_sum(s), s.len() as int) == (Rat {
                n: rat_sum(s).n,
                d: rat_sum(s).d * (s.len() as int),
            }),
    ;
    crate::stats::lemma_div_int_eqv(rat_sum(s), rat_sum(s), s.len() as int);
}

/// The sum of a sequence whose elements all denote `c` denotes
/// `len * c`.
proof fn lemma_const_sum(s: Seq<Rat>, c: Rat)
    requires
        rats_wf(s),
        rat_wf(c),
        forall|j: int| 0 <= j < s.len() ==> rat_eqv(#[trigger] s[j], c),
    ensures
        rat_wf(rat_sum(s)),
        rat_sum(s).n * c.d == (c.n * (s.len() as int)) * rat_sum(s).d,
    decreases s.len(),
{
    crate::stats::lemma_sum_wf(s);
    if s.len() == 0 {
        assert(rat_sum(s) == int_rat(0));
    } else {
        assert(rats_wf(s.drop_last()) && forall|j: int|
            0 <= j < s.drop_last().len() ==> rat_eqv(#[trigger] s.drop_last()[j], c)) by {
            assert(forall|j: int|
                0 <= j < s.drop_last().len() ==> #[trigger] s.drop_last()[j] == s[j]);
        }
        lemma_const_sum(s.drop_last(), c);
        crate::stats::lemma_sum_wf(s.drop_last());
        let a = rat_sum(s.drop_last());
        let x = s.last();
        let m = (s.len() - 1) as int;
        assert(rat_eqv(x, c));
        assert(rat_sum(s) == rat_add(a, x));
        assert((a.n * x.d + x.n * a.d) * c.d == (a.n * c.d) * x.d + (x.n * c.d) * a.d)
            by (nonlinear_arith);
        assert((a.n * c.d) * x.d == ((c.n * m) * a.d) * x.d) by (nonlinear_arith)
            requires
                a.n * c.d == (c.n * m) * a.d,
        ;
        assert((x.n * c.d) * a.d == (c.n * x.d) * a.d) by (nonlinear_arith)
            requires
                x.n * c.d == c.n * x.d,
        ;
        assert(((c.n * m) * a.d) * x.d + (c.n * x.d) * a.d == (c.n * (m + 1)) * (a.d * x.d))
            by (nonlinear_arith);
    }
}

/// Squared deviations from a point the whole sequence denotes vanish.
proof fn lemma_const_dev_zero(s: Seq<Rat>, m: Rat, c: Rat)
    requires
        rats_wf(s),
        rat_wf(m),
        rat_wf(c),
        rat_eqv(m, c),
        forall|j: int| 0 <= j < s.len() ==> rat_eqv(#[trigger] s[j], c),
    ensures
        rat_eqv(rat_dev_sq_sum(s, m), int_rat(0)),
        rat_dev_sq_sum(s, m).n == 0,
    decreases s.len(),
{
    lemma_dev_sq_sum_eqv(s, m, m);
    crate::rat::lemma_zero_eqv(rat_dev_sq_sum(s, m), rat_dev_sq_sum(s, m));
    if s.len() > 0 {
        assert(rats_wf(s.drop_last()) && forall|j: int|
            0 <= j < s.drop_last().len() ==> rat_eqv(#[trigger] s.drop_last()[j], c)) by {
            assert(forall|j: int|
                0 <= j < s.drop_last().len() ==> #[trigger] s.drop_last()[j] == s[j]);
        }
        lemma_const_dev_zero(s.drop_last(), m, c);
        let x = s.last();
        assert(rat_eqv(x, c));
        assert(rat_sub(x, m).n == 0) by (nonlinear_arith)
            requires
                x.n * c.d == c.n * x.d,
                m.n * c.d == c.n * m.d,
                rat_sub(x, m).n == x.n * m.d + (-m.n) * x.d,
                c.d >= 1,
        ;
        assert(rat_sq(rat_sub(x, m)).n == 0) by (nonlinear_arith)
            requires
                rat_sub(x, m).n == 0,
                rat_sq(rat_sub(x, m)).n == rat_sub(x, m).n * rat_sub(x, m).n,
        ;
        assert(rat_dev_sq_sum(s, m).n == 0) by (nonlinear_arith)
            requires
                rat_dev_sq_sum(s, m) == rat_add(
                    rat_dev_sq_sum(s.drop_last(), m),
                    rat_sq(rat_sub(x, m)),
                ),
                rat_dev_sq_sum(s.drop_last(), m).n == 0,
                rat_sq(rat_sub(x, m)).n == 0,
        ;
    }
}

} // verus!
