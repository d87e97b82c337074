use hypors::common::{
    LocationTest, RefDistribution, TailType, TestResult, TestStatistic, finish_location_test,
};
use hypors::rat::Ratio;
use hypors::z::{z_sample_size, z_test, z_test_ind, z_test_paired};
use statrs::distribution::{ContinuousCDF, Normal};

const EPSILON: f64 = 0.001;

fn ratio(n: i64, d: i64) -> Ratio {
    Ratio::new(n, d).unwrap()
}

fn rvec(xs: &[i64]) -> Vec<Ratio> {
    let mut out = Vec::new();
    for &x in xs {
        out.push(ratio(x, 1));
    }
    out
}

fn approx(x: f64) -> Ratio {
    Ratio::new((x * 1e6).round() as i64, 1_000_000).unwrap()
}

fn rf(r: &Ratio) -> f64 {
    r.num() as f64 / r.den() as f64
}

fn signed_root(r: &Ratio) -> f64 {
    let v = rf(r);
    v.signum() * v.abs().sqrt()
}

fn statistic_value(s: &TestStatistic) -> f64 {
    match s {
        TestStatistic::Exact(r) => rf(r),
        TestStatistic::SignedSquare(r) => signed_root(r),
    }
}

fn run_z_test(plan: LocationTest, alpha: f64) -> TestResult {
    assert!(matches!(plan.dist, RefDistribution::StandardNormal));
    let dist = Normal::new(0.0, 1.0).unwrap();
    let stat = signed_root(&plan.statistic);
    let point = match plan.tail {
        TailType::Two => stat.abs(),
        _ => stat,
    };
    let cdf_value = approx(dist.cdf(point));
    let margin_quantile = approx(dist.inverse_cdf(1.0 - alpha / 2.0));
    let std_error = approx(rf(&plan.se_square).sqrt());
    finish_location_test(plan, approx(alpha), cdf_value, margin_quantile, std_error).unwrap()
}

#[test]
fn test_z_test() {
    let data = rvec(&[2, 3, 5, 7, 11]);
    let pop_mean = ratio(5, 1);
    let pop_std = ratio(2, 1);

    let plan = z_test(&data, pop_mean, pop_std, TailType::Two).unwrap();
    let result = run_z_test(plan, 0.05);

    let expected_z_statistic = 0.670;
    let expected_p_value = 0.502;
    let expected_ci_lower = 3.846954;
    let expected_ci_upper = 7.353045;
    let expected_null_hypothesis = "H0: µ = 5";
    let expected_alt_hypothesis = "Ha: µ ≠ 5";

    assert!((statistic_value(&result.test_statistic) - expected_z_statistic).abs() < EPSILON);
    assert!((rf(&result.p_value) - expected_p_value).abs() < EPSILON);
    assert_eq!(result.reject_null, false);

    let ci = result.confidence_interval.unwrap();
    assert!((rf(&ci.0) - expected_ci_lower).abs() < EPSILON);
    assert!((rf(&ci.1) - expected_ci_upper).abs() < EPSILON);

    assert_eq!(result.null_hypothesis, expected_null_hypothesis);
    assert_eq!(result.alt_hypothesis, expected_alt_hypothesis);
}

#[test]
fn test_z_test_paired() {
    let data1 = rvec(&[2, 3, 5, 7, 11]);
    let data2 = rvec(&[1, 3, 6, 7, 10]);
    let pop_std_diff = ratio(3, 2);

    let plan = z_test_paired(&data1, &data2, pop_std_diff, TailType::Two).unwrap();
    let result = run_z_test(plan, 0.05);

    let expected_z_statistic = 0.298;
    let expected_p_value = 0.765;
    let expected_ci_lower = -1.114783;
    let expected_ci_upper = 1.514783;
    let expected_null_hypothesis = "H0: µ1 = µ2";
    let expected_alt_hypothesis = "Ha: µ1 ≠ µ2";

    assert!((statistic_value(&result.test_statistic) - expected_z_statistic).abs() < EPSILON);
    assert!((rf(&result.p_value) - expected_p_value).abs() < EPSILON);
    assert_eq!(result.reject_null, false);

    let ci = result.confidence_interval.unwrap();
    assert!((rf(&ci.0) - expected_ci_lower).abs() < EPSILON);
    assert!((rf(&ci.1) - expected_ci_upper).abs() < EPSILON);

    assert_eq!(result.null_hypothesis, expected_null_hypothesis);
    assert_eq!(result.alt_hypothesis, expected_alt_hypothesis);
}

#[test]
fn test_z_test_ind() {
    let data1 = rvec(&[2, 3, 5, 7, 11]);
    let data2 = rvec(&[1, 3, 6, 7, 10]);
    let pop_std1 = ratio(2, 1);
    let pop_std2 = ratio(3, 2);

    let plan = z_test_ind(&data1, &data2, pop_std1, pop_std2, TailType::Two).unwrap();
    let result = run_z_test(plan, 0.05);

    let expected_z_statistic = 0.179;
    let expected_p_value = 0.858;
    let expected_ci_lower = -1.991306;
    let expected_ci_upper = 2.391306;
    let expected_null_hypothesis = "H0: µ1 = µ2";
    let expected_alt_hypothesis = "Ha: µ1 ≠ µ2";

    assert!((statistic_value(&result.test_statistic) - expected_z_statistic).abs() < EPSILON);
    assert!((rf(&result.p_value) - expected_p_value).abs() < EPSILON);
    assert_eq!(result.reject_null, false);

    let ci = result.confidence_interval.unwrap();
    assert!((rf(&ci.0) - expected_ci_lower).abs() < EPSILON);
    assert!((rf(&ci.1) - expected_ci_upper).abs() < EPSILON);

    assert_eq!(result.null_hypothesis, expected_null_hypothesis);
    assert_eq!(result.alt_hypothesis, expected_alt_hypothesis);
}

#[test]
fn test_z_sample_size() {
    let effect_size = ratio(3, 10);
    let std_dev = ratio(1, 1);

    let dist = Normal::new(0.0, 1.0).unwrap();
    let q_alpha = approx(dist.inverse_cdf(1.0 - 0.05 / 2.0));
    let q_power = approx(dist.inverse_cdf(0.80));

    let n = z_sample_size(effect_size, std_dev, q_alpha, q_power).unwrap();
    let expected_sample_size = 87.79;

    assert!(
        (n as f64 - expected_sample_size).abs() < 1.0,
        "Sample size is incorrect"
    );
}

#[test]
fn test_z_test_error_cases() {
    // Non-positive population standard deviation.
    assert!(matches!(
        z_test(&rvec(&[1, 2]), ratio(0, 1), ratio(0, 1), TailType::Two),
        Err(hypors::common::StatError::ComputeError(_))
    ));
    // Empty data.
    let empty: Vec<Ratio> = Vec::new();
    assert!(matches!(
        z_test(&empty, ratio(0, 1), ratio(1, 1), TailType::Two),
        Err(hypors::common::StatError::EmptyData)
    ));
    // Paired samples of unequal length.
    assert!(matches!(
        z_test_paired(&rvec(&[1, 2, 3]), &rvec(&[1, 2]), ratio(1, 1), TailType::Two),
        Err(hypors::common::StatError::ComputeError(_))
    ));
}

// Swapping the samples negates the statistic and keeps the two-tailed
// p-value.
#[test]
fn test_z_test_ind_swapped_samples() {
    let data1 = rvec(&[2, 3, 5, 7, 11]);
    let data2 = rvec(&[1, 3, 6, 7, 10]);
    let plan_a = z_test_ind(&data1, &data2, ratio(2, 1), ratio(3, 2), TailType::Two).unwrap();
    let plan_b = z_test_ind(&data2, &data1, ratio(3, 2), ratio(2, 1), TailType::Two).unwrap();

    assert!(plan_a.statistic.add(plan_b.statistic).unwrap().is_zero());

    let result_a = run_z_test(plan_a, 0.05);
    let result_b = run_z_test(plan_b, 0.05);
    assert!((rf(&result_a.p_value) - rf(&result_b.p_value)).abs() < 1e-9);
}
