use hypors::anova::{anova, f_sample_size};
use hypors::common::{RefDistribution, TestResult, TestStatistic, finish_omnibus_test};
use hypors::rat::Ratio;
use statrs::distribution::{ContinuousCDF, FisherSnedecor};

const EPSILON: f64 = 0.001;

fn ratio(n: i64, d: i64) -> Ratio {
    Ratio::new(n, d).unwrap()
}

fn rvec(xs: &[i64]) -> Vec<Ratio> {
    let mut out = Vec::new();
    for &x in xs {
        out.push(ratio(x, 1));
    }
    out
}

fn approx(x: f64) -> Ratio {
    Ratio::new((x * 1e6).round() as i64, 1_000_000).unwrap()
}

fn rf(r: &Ratio) -> f64 {
    r.num() as f64 / r.den() as f64
}

fn statistic_value(s: &TestStatistic) -> f64 {
    match s {
        TestStatistic::Exact(r) => rf(r),
        TestStatistic::SignedSquare(r) => {
            let v = rf(r);
            v.signum() * v.abs().sqrt()
        }
    }
}

fn run_anova(groups: &Vec<Vec<Ratio>>, alpha: f64) -> TestResult {
    let plan = anova(groups).unwrap();
    let f_value = rf(&plan.statistic);
    let (df1, df2) = match &plan.dist {
        RefDistribution::FisherF { df1, df2 } => (rf(df1), rf(df2)),
        _ => panic!("unexpected reference distribution"),
    };
    let f_dist = FisherSnedecor::new(df1, df2).unwrap();
    let cdf_value = approx(f_dist.cdf(f_value));
    finish_omnibus_test(plan, approx(alpha), cdf_value).unwrap()
}

#[test]
fn test_anova() {
    let data1 = rvec(&[2, 3, 3, 5, 6]);
    let data2 = rvec(&[3, 4, 4, 6, 8]);
    let data3 = rvec(&[5, 6, 7, 8, 9]);

    let groups = vec![data1, data2, data3];
    let result = run_anova(&groups, 0.05);

    let expected_f_statistic = 4.261;
    let expected_p_value = 0.039;
    let expected_null_hypothesis = "H0: µ1 = µ2 = µ3";
    let expected_alt_hypothesis = "Ha: At least one group mean is different";

    assert!((statistic_value(&result.test_statistic) - expected_f_statistic).abs() < EPSILON);
    assert!((rf(&result.p_value) - expected_p_value).abs() < EPSILON);
    assert_eq!(result.reject_null, true);

    assert_eq!(result.null_hypothesis, expected_null_hypothesis);
    assert_eq!(result.alt_hypothesis, expected_alt_hypothesis);
    assert!(result.confidence_interval.is_none());
}

#[test]
fn test_anova_no_rejection() {
    let data1 = rvec(&[2, 3, 4, 5, 6]);
    let data2 = rvec(&[3, 4, 5, 6, 7]);
    let data3 = rvec(&[4, 5, 6, 7, 8]);

    let groups = vec![data1, data2, data3];
    let result = run_anova(&groups, 0.05);

    let expected_f_statistic = 2.0;
    let expected_p_value = 0.177;
    let expected_null_hypothesis = "H0: µ1 = µ2 = µ3";
    let expected_alt_hypothesis = "Ha: At least one group mean is different";

    assert!((statistic_value(&result.test_statistic) - expected_f_statistic).abs() < EPSILON);
    assert!((rf(&result.p_value) - expected_p_value).abs() < EPSILON);
    assert_eq!(result.reject_null, false);

    assert_eq!(result.null_hypothesis, expected_null_hypothesis);
    assert_eq!(result.alt_hypothesis, expected_alt_hypothesis);
}

#[test]
fn test_f_sample_size() {
    let effect_size = ratio(1, 4);
    let num_groups = 3;

    let f_dist = FisherSnedecor::new(2.0, 1e6).unwrap();
    let q_alpha = approx(f_dist.inverse_cdf(1.0 - 0.05));
    let q_power = approx(f_dist.inverse_cdf(0.80));

    let n = f_sample_size(effect_size, num_groups, q_alpha, q_power).unwrap();
    let expected_sample_size = 21717.0;

    assert!((n as f64 - expected_sample_size).abs() <= 1.0);
}

// Identical constant groups have a zero within-group mean square: the F
// statistic is undefined and the test must fail.
#[test]
fn test_anova_identical_groups_fail() {
    let g = rvec(&[5, 5, 5]);
    let groups = vec![g.clone(), g.clone(), g];
    assert!(matches!(
        anova(&groups),
        Err(hypors::common::StatError::ComputeError(_))
    ));
}

#[test]
fn test_anova_error_cases() {
    // Fewer than two groups.
    let one = vec![rvec(&[1, 2, 3])];
    assert!(matches!(
        anova(&one),
        Err(hypors::common::StatError::ComputeError(_))
    ));
    // An empty group.
    let with_empty = vec![rvec(&[1, 2, 3]), Vec::new()];
    assert!(matches!(
        anova(&with_empty),
        Err(hypors::common::StatError::EmptyData)
    ));
    // All groups singletons: no within-group degrees of freedom.
    let singletons = vec![rvec(&[1]), rvec(&[2])];
    assert!(matches!(
        anova(&singletons),
        Err(hypors::common::StatError::ComputeError(_))
    ));
}
