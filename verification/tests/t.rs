use hypors::common::{
    LocationTest, RefDistribution, TailType, TestResult, TestStatistic, finish_location_test,
};
use hypors::rat::Ratio;
use hypors::t::{t_test, t_test_ind, t_test_paired, t_sample_size};
use statrs::distribution::{ContinuousCDF, StudentsT};

const EPSILON: f64 = 0.001;

fn ratio(n: i64, d: i64) -> Ratio {
    Ratio::new(n, d).unwrap()
}

fn rvec(xs: &[i64]) -> Vec<Ratio> {
    let mut out = Vec::new();
    for &x in xs {
        out.push(ratio(x, 1));
    }
    out
}

fn approx(x: f64) -> Ratio {
    Ratio::new((x * 1e6).round() as i64, 1_000_000).unwrap()
}

fn rf(r: &Ratio) -> f64 {
    r.num() as f64 / r.den() as f64
}

fn signed_root(r: &Ratio) -> f64 {
    let v = rf(r);
    v.signum() * v.abs().sqrt()
}

fn statistic_value(s: &TestStatistic) -> f64 {
    match s {
        TestStatistic::Exact(r) => rf(r),
        TestStatistic::SignedSquare(r) => signed_root(r),
    }
}

// Evaluates the plan's reference distribution and finishes the test.
fn run_location_test(plan: LocationTest, alpha: f64) -> TestResult {
    let dist: Box<dyn ContinuousCDF<f64, f64>> = match &plan.dist {
        RefDistribution::StandardNormal => {
            Box::new(statrs::distribution::Normal::new(0.0, 1.0).unwrap())
        }
        RefDistribution::StudentsT { df } => {
            Box::new(StudentsT::new(0.0, 1.0, rf(df)).unwrap())
        }
        RefDistribution::ChiSquared { df } => {
            Box::new(statrs::distribution::ChiSquared::new(rf(df)).unwrap())
        }
        RefDistribution::FisherF { df1, df2 } => {
            Box::new(statrs::distribution::FisherSnedecor::new(rf(df1), rf(df2)).unwrap())
        }
    };
    let stat = signed_root(&plan.statistic);
    let point = match plan.tail {
        TailType::Two => stat.abs(),
        _ => stat,
    };
    let cdf_value = approx(dist.cdf(point));
    let margin_quantile = approx(dist.inverse_cdf(1.0 - alpha / 2.0));
    let std_error = approx(rf(&plan.se_square).sqrt());
    finish_location_test(plan, approx(alpha), cdf_value, margin_quantile, std_error).unwrap()
}

#[test]
fn test_t_test() {
    let data = rvec(&[2, 3, 5, 7, 11]);
    let pop_mean = ratio(5, 1);

    let plan = t_test(&data, pop_mean, TailType::Two).unwrap();
    let result = run_location_test(plan, 0.05);

    let expected_t_statistic = 0.375;
    let expected_p_value = 0.726;
    let expected_ci_lower = 1.157687;
    let expected_ci_upper = 10.042312;
    let expected_null_hypothesis = "H0: µ = 5";
    let expected_alt_hypothesis = "Ha: µ ≠ 5";

    assert!((statistic_value(&result.test_statistic) - expected_t_statistic).abs() < EPSILON);
    assert!((rf(&result.p_value) - expected_p_value).abs() < EPSILON);
    assert_eq!(result.reject_null, false);
    assert_eq!(result.null_hypothesis, expected_null_hypothesis);
    assert_eq!(result.alt_hypothesis, expected_alt_hypothesis);

    let ci = result.confidence_interval.unwrap();
    assert!((rf(&ci.0) - expected_ci_lower).abs() < EPSILON);
    assert!((rf(&ci.1) - expected_ci_upper).abs() < EPSILON);
}

#[test]
fn test_t_test_paired() {
    let data1 = rvec(&[2, 3, 5, 7, 11]);
    let data2 = rvec(&[1, 3, 6, 7, 10]);

    let plan = t_test_paired(&data1, &data2, TailType::Two).unwrap();
    let result = run_location_test(plan, 0.05);

    let expected_t_statistic = 0.534;
    let expected_p_value = 0.621;
    let expected_ci_lower = -0.838850;
    let expected_ci_upper = 1.238850;
    let expected_null_hypothesis = "H0: µ1 = µ2";
    let expected_alt_hypothesis = "Ha: µ1 ≠ µ2";

    assert!((statistic_value(&result.test_statistic) - expected_t_statistic).abs() < EPSILON);
    assert!((rf(&result.p_value) - expected_p_value).abs() < EPSILON);
    assert_eq!(result.null_hypothesis, expected_null_hypothesis);
    assert_eq!(result.alt_hypothesis, expected_alt_hypothesis);

    let ci = result.confidence_interval.unwrap();
    assert!((rf(&ci.0) - expected_ci_lower).abs() < EPSILON);
    assert!((rf(&ci.1) - expected_ci_upper).abs() < EPSILON);
}

#[test]
fn test_t_test_ind_unpooled() {
    let data1 = rvec(&[2, 3, 5, 7, 11]);
    let data2 = rvec(&[1, 3, 6, 7, 10]);

    let plan = t_test_ind(&data1, &data2, TailType::Two, false).unwrap();
    let result = run_location_test(plan, 0.05);

    let expected_t_statistic = 0.089;
    let expected_p_value = 0.931;
    let expected_ci_lower = -4.967041;
    let expected_ci_upper = 5.367041;
    let expected_null_hypothesis = "H0: µ1 = µ2";
    let expected_alt_hypothesis = "Ha: µ1 ≠ µ2";

    assert!((statistic_value(&result.test_statistic) - expected_t_statistic).abs() < EPSILON);
    assert!((rf(&result.p_value) - expected_p_value).abs() < EPSILON);
    assert_eq!(result.null_hypothesis, expected_null_hypothesis);
    assert_eq!(result.alt_hypothesis, expected_alt_hypothesis);

    let ci = result.confidence_interval.unwrap();
    assert!((rf(&ci.0) - expected_ci_lower).abs() < EPSILON);
    assert!((rf(&ci.1) - expected_ci_upper).abs() < EPSILON);
}

#[test]
fn test_t_test_ind_pooled() {
    let data1 = rvec(&[2, 3, 5, 7, 11]);
    let data2 = rvec(&[1, 3, 6, 7, 10]);

    let plan = t_test_ind(&data1, &data2, TailType::Two, true).unwrap();
    let result = run_location_test(plan, 0.05);

    let expected_t_statistic = 0.089;
    let expected_p_value = 0.931;
    let expected_ci_lower = -4.966684;
    let expected_ci_upper = 5.366684;
    let expected_null_hypothesis = "H0: µ1 = µ2";
    let expected_alt_hypothesis = "Ha: µ1 ≠ µ2";

    assert!((statistic_value(&result.test_statistic) - expected_t_statistic).abs() < EPSILON);
    assert!((rf(&result.p_value) - expected_p_value).abs() < EPSILON);
    assert_eq!(result.null_hypothesis, expected_null_hypothesis);
    assert_eq!(result.alt_hypothesis, expected_alt_hypothesis);

    let ci = result.confidence_interval.unwrap();
    assert!((rf(&ci.0) - expected_ci_lower).abs() < EPSILON);
    assert!((rf(&ci.1) - expected_ci_upper).abs() < EPSILON);
}

#[test]
fn test_t_sample_size() {
    let effect_size = ratio(3, 10);
    let std_dev = ratio(1, 1);

    // Large-sample reference t distribution, as the closed-form inversion
    // uses.
    let t_dist = StudentsT::new(0.0, 1.0, 1e6).unwrap();
    let q_alpha = approx(t_dist.inverse_cdf(1.0 - 0.05 / 2.0));
    let q_power = approx(t_dist.inverse_cdf(0.80));

    let n = t_sample_size(effect_size, std_dev, q_alpha, q_power).unwrap();
    let expected_sample_size = 88.49;

    assert!(
        (n as f64 - expected_sample_size).abs() < 1.0,
        "Sample size is incorrect"
    );
}

// Swapping the samples negates the statistic and keeps the two-tailed
// p-value.
#[test]
fn test_t_test_ind_swapped_samples() {
    let data1 = rvec(&[2, 3, 5, 7, 11]);
    let data2 = rvec(&[1, 3, 6, 7, 10]);

    let plan_a = t_test_ind(&data1, &data2, TailType::Two, true).unwrap();
    let plan_b = t_test_ind(&data2, &data1, TailType::Two, true).unwrap();

    assert!(plan_a.statistic.add(plan_b.statistic).unwrap().is_zero());
    assert!(plan_a.se_square.eqv(plan_b.se_square));

    let result_a = run_location_test(plan_a, 0.05);
    let result_b = run_location_test(plan_b, 0.05);
    assert!((rf(&result_a.p_value) - rf(&result_b.p_value)).abs() < 1e-9);
}

// The rejection decision is exactly `p < alpha`.
#[test]
fn test_t_test_reject_decision_matches_p_value() {
    let data = rvec(&[2, 3, 5, 7, 11]);
    let plan = t_test(&data, ratio(5, 1), TailType::Two).unwrap();
    let result = run_location_test(plan, 0.05);
    assert_eq!(result.reject_null, rf(&result.p_value) < 0.05);
}

#[test]
fn test_t_test_error_cases() {
    let empty: Vec<Ratio> = Vec::new();
    assert!(matches!(
        t_test(&empty, ratio(0, 1), TailType::Two),
        Err(hypors::common::StatError::EmptyData)
    ));
    let single = rvec(&[4]);
    assert!(matches!(
        t_test(&single, ratio(0, 1), TailType::Two),
        Err(hypors::common::StatError::InsufficientData)
    ));
    // Zero variance: the standard error is zero.
    let constant = rvec(&[3, 3, 3]);
    assert!(matches!(
        t_test(&constant, ratio(0, 1), TailType::Two),
        Err(hypors::common::StatError::ComputeError(_))
    ));
    // Paired samples of unequal length.
    assert!(matches!(
        t_test_paired(&rvec(&[1, 2, 3]), &rvec(&[1, 2]), TailType::Two),
        Err(hypors::common::StatError::ComputeError(_))
    ));
}
