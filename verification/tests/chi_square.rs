use hypors::chi_square::{
    chi2_sample_size_gof, chi2_sample_size_ind, chi2_sample_size_variance, goodness_of_fit,
    independence, variance,
};
use hypors::common::{
    RefDistribution, TailType, TestResult, TestStatistic, finish_omnibus_test,
    finish_variance_test,
};
use hypors::rat::Ratio;
use statrs::distribution::{ChiSquared, ContinuousCDF};

const EPSILON: f64 = 0.001;

fn ratio(n: i64, d: i64) -> Ratio {
    Ratio::new(n, d).unwrap()
}

fn rvec(xs: &[i64]) -> Vec<Ratio> {
    let mut out = Vec::new();
    for &x in xs {
        out.push(ratio(x, 1));
    }
    out
}

fn approx(x: f64) -> Ratio {
    Ratio::new((x * 1e6).round() as i64, 1_000_000).unwrap()
}

fn rf(r: &Ratio) -> f64 {
    r.num() as f64 / r.den() as f64
}

fn statistic_value(s: &TestStatistic) -> f64 {
    match s {
        TestStatistic::Exact(r) => rf(r),
        TestStatistic::SignedSquare(r) => {
            let v = rf(r);
            v.signum() * v.abs().sqrt()
        }
    }
}

#[test]
fn chi_square_test_variance() {
    let data = rvec(&[2, 3, 5, 7, 11]);
    let pop_variance = ratio(5, 1);
    let alpha = 0.05;

    let plan = variance(&data, pop_variance, TailType::Two).unwrap();
    let df = match &plan.dist {
        RefDistribution::ChiSquared { df } => rf(df),
        _ => panic!("unexpected reference distribution"),
    };
    let chi_dist = ChiSquared::new(df).unwrap();
    let stat = rf(&plan.statistic);
    let cdf_value = approx(chi_dist.cdf(stat.abs()));
    let q_lower = approx(chi_dist.inverse_cdf(alpha / 2.0));
    let q_upper = approx(chi_dist.inverse_cdf(1.0 - alpha / 2.0));
    let result: TestResult = finish_variance_test(
        plan.statistic,
        ratio(4, 1),
        plan.sample_variance,
        plan.tail,
        plan.null_hypothesis,
        plan.alt_hypothesis,
        approx(alpha),
        cdf_value,
        q_lower,
        q_upper,
    )
    .unwrap();

    let expected_chi_square_stat = 10.24;
    let expected_p_value = 0.073;
    let expected_null_hypothesis = "H0: σ² = 5";
    let expected_alt_hypothesis = "Ha: σ² ≠ 5";

    assert!((statistic_value(&result.test_statistic) - expected_chi_square_stat).abs() < EPSILON);
    assert!((rf(&result.p_value) - expected_p_value).abs() < EPSILON);

    assert_eq!(result.null_hypothesis, expected_null_hypothesis);
    assert_eq!(result.alt_hypothesis, expected_alt_hypothesis);

    assert_eq!(result.reject_null, false);

    // The interval for the population variance is built from the sample
    // variance s^2 = 12.8 and brackets it.
    let ci = result.confidence_interval.unwrap();
    assert!(rf(&ci.0) < 12.8 && 12.8 < rf(&ci.1));
    assert!((rf(&ci.0) - 4.0 * 12.8 / 11.143287).abs() < EPSILON);
    assert!((rf(&ci.1) - 4.0 * 12.8 / 0.484419).abs() < 0.01);
}

#[test]
fn chi_square_test_independence() {
    let contingency_table = vec![rvec(&[20, 30]), rvec(&[50, 10])];
    let alpha = 0.05;

    let plan = independence(&contingency_table).unwrap();
    let df = match &plan.dist {
        RefDistribution::ChiSquared { df } => rf(df),
        _ => panic!("unexpected reference distribution"),
    };
    let chi_dist = ChiSquared::new(df).unwrap();
    let cdf_value = approx(chi_dist.cdf(rf(&plan.statistic)));
    let result = finish_omnibus_test(plan, approx(alpha), cdf_value).unwrap();

    let expected_chi_square_stat = 22.131;
    let expected_p_value = 0.000;
    let expected_null_hypothesis = "H0: Variables are independent";
    let expected_alt_hypothesis = "Ha: Variables are not independent";

    assert!((statistic_value(&result.test_statistic) - expected_chi_square_stat).abs() < EPSILON);
    assert!((rf(&result.p_value) - expected_p_value).abs() < EPSILON);

    assert_eq!(result.null_hypothesis, expected_null_hypothesis);
    assert_eq!(result.alt_hypothesis, expected_alt_hypothesis);

    assert_eq!(result.reject_null, true);
}

#[test]
fn chi_square_test_goodness_of_fit() {
    let observed = rvec(&[30, 10, 20]);
    let expected = rvec(&[25, 15, 20]);
    let alpha = 0.05;

    let plan = goodness_of_fit(&observed, &expected).unwrap();
    let df = match &plan.dist {
        RefDistribution::ChiSquared { df } => rf(df),
        _ => panic!("unexpected reference distribution"),
    };
    let chi_dist = ChiSquared::new(df).unwrap();
    let cdf_value = approx(chi_dist.cdf(rf(&plan.statistic)));
    let result = finish_omnibus_test(plan, approx(alpha), cdf_value).unwrap();

    let expected_chi_square_stat = 2.666;
    let expected_p_value = 0.263;
    let expected_null_hypothesis = "H0: Observed distribution matches expected distribution";
    let expected_alt_hypothesis = "Ha: Observed distribution does not match expected distribution";

    assert!((statistic_value(&result.test_statistic) - expected_chi_square_stat).abs() < EPSILON);
    assert!((rf(&result.p_value) - expected_p_value).abs() < EPSILON);

    assert_eq!(result.null_hypothesis, expected_null_hypothesis);
    assert_eq!(result.alt_hypothesis, expected_alt_hypothesis);

    assert_eq!(result.reject_null, false);
}

#[test]
fn test_chi2_sample_size_gof() {
    let expected_counts: Vec<u64> = vec![20, 30, 50];
    let alpha = 0.05;

    let chi_dist = ChiSquared::new(expected_counts.len() as f64 - 1.0).unwrap();
    let q_alpha = approx(chi_dist.inverse_cdf(1.0 - alpha));

    let n = chi2_sample_size_gof(&expected_counts, q_alpha).unwrap();
    let expected_sample_size = 480.0;

    assert!(
        (n as f64 - expected_sample_size).abs() < 1.0,
        "Sample size is incorrect"
    );
}

#[test]
fn test_chi2_sample_size_ind() {
    let expected_counts: Vec<u64> = vec![20, 30, 50];
    let alpha = 0.05;

    let chi_dist = ChiSquared::new(expected_counts.len() as f64 - 1.0).unwrap();
    let q_alpha = approx(chi_dist.inverse_cdf(1.0 - alpha));

    let n = chi2_sample_size_ind(&expected_counts, q_alpha).unwrap();
    let expected_sample_size = 480.0;

    assert!(
        (n as f64 - expected_sample_size).abs() < 1.0,
        "Sample size is incorrect"
    );
}

#[test]
fn test_chi2_sample_size_variance() {
    let effect_size = ratio(1, 2);
    let variance = ratio(1, 1);

    let chi_dist = ChiSquared::new(1.0).unwrap();
    let q_alpha = approx(chi_dist.inverse_cdf(1.0 - 0.05));
    let q_power = approx(chi_dist.inverse_cdf(0.80));

    let n = chi2_sample_size_variance(effect_size, variance, q_alpha, q_power).unwrap();
    let expected_sample_size = 121.0;

    assert!(
        (n as f64 - expected_sample_size).abs() < 1.0,
        "Sample size is incorrect"
    );
}

#[test]
fn test_chi_square_error_cases() {
    // Variance test: too few observations.
    assert!(matches!(
        variance(&rvec(&[1]), ratio(1, 1), TailType::Two),
        Err(hypors::common::StatError::InsufficientData)
    ));
    // Variance test: non-positive hypothesized variance.
    assert!(matches!(
        variance(&rvec(&[1, 2]), ratio(0, 1), TailType::Two),
        Err(hypors::common::StatError::ComputeError(_))
    ));
    // Independence: fewer than two rows.
    assert!(matches!(
        independence(&vec![rvec(&[1, 2])]),
        Err(hypors::common::StatError::ComputeError(_))
    ));
    // Independence: ragged rows.
    assert!(matches!(
        independence(&vec![rvec(&[1, 2]), rvec(&[1, 2, 3])]),
        Err(hypors::common::StatError::ComputeError(_))
    ));
    // Independence: zero total frequency.
    assert!(matches!(
        independence(&vec![rvec(&[0, 0]), rvec(&[0, 0])]),
        Err(hypors::common::StatError::ComputeError(_))
    ));
    // Goodness of fit: mismatched lengths.
    assert!(matches!(
        goodness_of_fit(&rvec(&[1, 2, 3]), &rvec(&[1, 2])),
        Err(hypors::common::StatError::ComputeError(_))
    ));
}

// A cell with a zero expected frequency contributes zero to the
// statistic.
#[test]
fn test_goodness_of_fit_zero_expected_cell() {
    let observed = rvec(&[4, 10, 20]);
    let expected = rvec(&[0, 15, 20]);
    let plan = goodness_of_fit(&observed, &expected).unwrap();
    // Only the middle cell contributes: (10 - 15)^2 / 15 = 5/3.
    assert!(plan.statistic.eqv(ratio(5, 3)));
}
