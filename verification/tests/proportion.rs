use hypors::common::{
    LocationTest, RefDistribution, TailType, TestResult, TestStatistic, finish_location_test,
};
use hypors::proportion::{
    prop_pooled_radicand, prop_sample_size, prop_unpooled_radicand, z_test, z_test_ind,
};
use hypors::rat::Ratio;
use statrs::distribution::{ContinuousCDF, Normal};

const EPSILON: f64 = 0.001;

fn ratio(n: i64, d: i64) -> Ratio {
    Ratio::new(n, d).unwrap()
}

fn rvec(xs: &[i64]) -> Vec<Ratio> {
    let mut out = Vec::new();
    for &x in xs {
        out.push(ratio(x, 1));
    }
    out
}

fn approx(x: f64) -> Ratio {
    Ratio::new((x * 1e6).round() as i64, 1_000_000).unwrap()
}

fn rf(r: &Ratio) -> f64 {
    r.num() as f64 / r.den() as f64
}

fn signed_root(r: &Ratio) -> f64 {
    let v = rf(r);
    v.signum() * v.abs().sqrt()
}

fn statistic_value(s: &TestStatistic) -> f64 {
    match s {
        TestStatistic::Exact(r) => rf(r),
        TestStatistic::SignedSquare(r) => signed_root(r),
    }
}

fn run_prop_test(plan: LocationTest, alpha: f64) -> TestResult {
    assert!(matches!(plan.dist, RefDistribution::StandardNormal));
    let dist = Normal::new(0.0, 1.0).unwrap();
    let stat = signed_root(&plan.statistic);
    let point = match plan.tail {
        TailType::Two => stat.abs(),
        _ => stat,
    };
    let cdf_value = approx(dist.cdf(point));
    let margin_quantile = approx(dist.inverse_cdf(1.0 - alpha / 2.0));
    let std_error = approx(rf(&plan.se_square).sqrt());
    finish_location_test(plan, approx(alpha), cdf_value, margin_quantile, std_error).unwrap()
}

#[test]
fn proportion_test_z_test() {
    let data = rvec(&[1, 1, 1, 0, 0]);
    let null_prop = ratio(1, 2);

    let plan = z_test(&data, null_prop, TailType::Two).unwrap();
    let result = run_prop_test(plan, 0.05);

    let expected_z_statistic = 0.447;
    let expected_p_value = 0.655;
    let expected_null_hypothesis = "H0: p = 1/2";
    let expected_alt_hypothesis = "Ha: p ≠ 1/2";

    assert!((statistic_value(&result.test_statistic) - expected_z_statistic).abs() < EPSILON);
    assert!((rf(&result.p_value) - expected_p_value).abs() < EPSILON);

    assert_eq!(result.null_hypothesis, expected_null_hypothesis);
    assert_eq!(result.alt_hypothesis, expected_alt_hypothesis);

    assert_eq!(result.reject_null, false);
}

#[test]
fn test_z_test_ind_unpooled() {
    let data1 = rvec(&[1, 1, 1, 0, 0]);
    let data2 = rvec(&[1, 1, 0, 0, 0]);

    let plan = z_test_ind(&data1, &data2, TailType::Two, false).unwrap();
    let result = run_prop_test(plan, 0.05);

    let expected_z_statistic = 0.645;
    let expected_p_value = 0.518;
    let expected_null_hypothesis = "H0: p1 = p2";
    let expected_alt_hypothesis = "Ha: p1 ≠ p2";

    assert!((statistic_value(&result.test_statistic) - expected_z_statistic).abs() < EPSILON);
    assert!((rf(&result.p_value) - expected_p_value).abs() < EPSILON);

    assert_eq!(result.null_hypothesis, expected_null_hypothesis);
    assert_eq!(result.alt_hypothesis, expected_alt_hypothesis);

    assert_eq!(result.reject_null, false);
}

#[test]
fn test_z_test_ind_pooled() {
    let data1 = rvec(&[1, 1, 1, 0, 0]);
    let data2 = rvec(&[1, 1, 0, 0, 0]);

    let plan = z_test_ind(&data1, &data2, TailType::Two, true).unwrap();
    let result = run_prop_test(plan, 0.05);

    let expected_z_statistic = 0.632;
    let expected_p_value = 0.527;
    let expected_null_hypothesis = "H0: p1 = p2";
    let expected_alt_hypothesis = "Ha: p1 ≠ p2";

    assert!((statistic_value(&result.test_statistic) - expected_z_statistic).abs() < EPSILON);
    assert!((rf(&result.p_value) - expected_p_value).abs() < EPSILON);

    assert_eq!(result.null_hypothesis, expected_null_hypothesis);
    assert_eq!(result.alt_hypothesis, expected_alt_hypothesis);

    assert_eq!(result.reject_null, false);
}

// Coarser quantization, so that the product-of-quantiles chain of the
// proportion formula stays within the exact-arithmetic range.
fn approx3(x: f64) -> Ratio {
    Ratio::new((x * 1e3).round() as i64, 1_000).unwrap()
}

#[test]
fn test_prop_sample_size() {
    let p1 = ratio(2, 5);
    let p2 = ratio(3, 5);

    let dist = Normal::new(0.0, 1.0).unwrap();
    let q_alpha = approx3(dist.inverse_cdf(1.0 - 0.05 / 2.0));
    let q_power = approx3(dist.inverse_cdf(0.80));
    let s_alpha = approx3(rf(&prop_pooled_radicand(p1, p2).unwrap()).sqrt());
    let s_power = approx3(rf(&prop_unpooled_radicand(p1, p2).unwrap()).sqrt());

    let n = prop_sample_size(p1, p2, q_alpha, q_power, s_alpha, s_power).unwrap();
    let expected_sample_size = 97.0;

    assert!((n as f64 - expected_sample_size).abs() < 1.0);
}

#[test]
fn test_proportion_error_cases() {
    // Hypothesized proportion outside [0, 1].
    assert!(matches!(
        z_test(&rvec(&[1, 0]), ratio(3, 2), TailType::Two),
        Err(hypors::common::StatError::ComputeError(_))
    ));
    // Empty data.
    let empty: Vec<Ratio> = Vec::new();
    assert!(matches!(
        z_test(&empty, ratio(1, 2), TailType::Two),
        Err(hypors::common::StatError::EmptyData)
    ));
    // Degenerate hypothesized proportion: zero standard error.
    assert!(matches!(
        z_test(&rvec(&[1, 0]), ratio(1, 1), TailType::Two),
        Err(hypors::common::StatError::ComputeError(_))
    ));
    // Degenerate pooled samples: zero standard error.
    assert!(matches!(
        z_test_ind(&rvec(&[0, 0]), &rvec(&[0, 0]), TailType::Two, true),
        Err(hypors::common::StatError::ComputeError(_))
    ));
}

// Swapping the samples negates the statistic and keeps the two-tailed
// p-value.
#[test]
fn test_prop_ind_swapped_samples() {
    let data1 = rvec(&[1, 1, 1, 0, 0]);
    let data2 = rvec(&[1, 1, 0, 0, 0]);
    let plan_a = z_test_ind(&data1, &data2, TailType::Two, false).unwrap();
    let plan_b = z_test_ind(&data2, &data1, TailType::Two, false).unwrap();

    assert!(plan_a.statistic.add(plan_b.statistic).unwrap().is_zero());

    let result_a = run_prop_test(plan_a, 0.05);
    let result_b = run_prop_test(plan_b, 0.05);
    assert!((rf(&result_a.p_value) - rf(&result_b.p_value)).abs() < 1e-9);
}
