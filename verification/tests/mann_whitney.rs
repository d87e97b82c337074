use hypors::common::{TailType, TestResult, TestStatistic, finish_plain_test};
use hypors::mann_whitney::{UTest, u_test};
use hypors::rat::Ratio;
use statrs::distribution::{ContinuousCDF, Normal};

const EPSILON: f64 = 0.0001;

fn ratio(n: i64, d: i64) -> Ratio {
    Ratio::new(n, d).unwrap()
}

fn rvec(xs: &[i64]) -> Vec<Ratio> {
    let mut out = Vec::new();
    for &x in xs {
        out.push(ratio(x, 1));
    }
    out
}

fn approx(x: f64) -> Ratio {
    Ratio::new((x * 1e6).round() as i64, 1_000_000).unwrap()
}

fn rf(r: &Ratio) -> f64 {
    r.num() as f64 / r.den() as f64
}

fn signed_root(r: &Ratio) -> f64 {
    let v = rf(r);
    v.signum() * v.abs().sqrt()
}

fn statistic_value(s: &TestStatistic) -> f64 {
    match s {
        TestStatistic::Exact(r) => rf(r),
        TestStatistic::SignedSquare(r) => signed_root(r),
    }
}

fn run_u_test(plan: UTest, alpha: f64) -> TestResult {
    let dist = Normal::new(0.0, 1.0).unwrap();
    let z = signed_root(&plan.z);
    let point = match plan.tail {
        TailType::Two => z.abs(),
        _ => z,
    };
    let cdf_value = approx(dist.cdf(point));
    finish_plain_test(
        TestStatistic::Exact(plan.u_statistic),
        plan.tail,
        plan.null_hypothesis,
        plan.alt_hypothesis,
        approx(alpha),
        cdf_value,
    )
    .unwrap()
}

#[test]
fn test_u_test() {
    let data1 = rvec(&[1, 2, 3, 4, 5]);
    let data2 = rvec(&[3, 4, 5, 6, 7]);
    let alpha = 0.05;

    let plan = u_test(&data1, &data2, TailType::Two).unwrap();
    let result = run_u_test(plan, alpha);

    let expected_u_statistic = 4.5;
    let expected_p_value = 0.0946;
    let expected_null_hypothesis = "H0: The distributions of both groups are equal.";
    let expected_alt_hypothesis = "Ha: The distributions of both groups are not equal.";

    assert!((statistic_value(&result.test_statistic) - expected_u_statistic).abs() < EPSILON);
    assert!((rf(&result.p_value) - expected_p_value).abs() < EPSILON);

    assert_eq!(result.null_hypothesis, expected_null_hypothesis);
    assert_eq!(result.alt_hypothesis, expected_alt_hypothesis);

    assert_eq!(result.reject_null, false);
}

#[test]
fn test_u_test_equal() {
    let data = rvec(&[1, 2, 3, 4, 5]);
    let alpha = 0.05;

    let plan = u_test(&data.clone(), &data, TailType::Two).unwrap();
    let result = run_u_test(plan, alpha);

    let expected_u_statistic = 12.5;
    let expected_p_value = 1.0;
    let expected_null_hypothesis = "H0: The distributions of both groups are equal.";
    let expected_alt_hypothesis = "Ha: The distributions of both groups are not equal.";

    assert!((statistic_value(&result.test_statistic) - expected_u_statistic).abs() < EPSILON);
    assert!((rf(&result.p_value) - expected_p_value).abs() < EPSILON);

    assert_eq!(result.null_hypothesis, expected_null_hypothesis);
    assert_eq!(result.alt_hypothesis, expected_alt_hypothesis);

    assert_eq!(result.reject_null, false);
}

// U1 + U2 equals n1 * n2 exactly, ties included.
#[test]
fn test_u_pair_sum_with_ties() {
    let data1 = rvec(&[1, 2, 2, 3, 7]);
    let data2 = rvec(&[2, 3, 3, 4]);
    let plan = u_test(&data1, &data2, TailType::Two).unwrap();
    let total = plan.u1.add(plan.u2).unwrap();
    assert!(total.eqv(ratio(20, 1)));
}

// Mid-ranks of tied runs: [1, 2, 2, 3] against [2, 4] pools to
// [1, 2, 2, 2, 3, 4], where the three tied values at positions 2 to 4
// each get rank 3, so R1 = 1 + 3 + 3 + 5 = 12 and U1 = 12 - 10 = 2.
#[test]
fn test_u_test_midrank_ties() {
    let data1 = rvec(&[1, 2, 2, 3]);
    let data2 = rvec(&[2, 4]);
    let plan = u_test(&data1, &data2, TailType::Two).unwrap();
    assert!(plan.u1.eqv(ratio(2, 1)));
    assert!(plan.u2.eqv(ratio(6, 1)));
    assert!(plan.u_statistic.eqv(ratio(2, 1)));
}

#[test]
fn test_u_test_error_cases() {
    let empty: Vec<Ratio> = Vec::new();
    assert!(matches!(
        u_test(&empty, &rvec(&[1]), TailType::Two),
        Err(hypors::common::StatError::EmptyData)
    ));
    assert!(matches!(
        u_test(&rvec(&[1]), &empty, TailType::Two),
        Err(hypors::common::StatError::EmptyData)
    ));
}

// The mid-rank assignment on a sorted sequence: a tied run receives the
// average of the positions it spans, and the ranks total n (n + 1) / 2.
#[test]
fn test_midranks_of_sorted_values() {
    let data1 = rvec(&[1, 2]);
    let data2 = rvec(&[2, 3]);
    let sorted = hypors::mann_whitney::combine_and_sort(&data1, &data2);
    let doubled = hypors::mann_whitney::midranks_doubled(&sorted);
    // Values [1, 2, 2, 3] carry ranks [1, 2.5, 2.5, 4]: doubled, [2, 5, 5, 8].
    assert_eq!(doubled, vec![2, 5, 5, 8]);
    let total: u64 = doubled.iter().sum();
    assert_eq!(total, 4 * 5);
}

#[test]
fn test_midranks_all_tied() {
    let data1 = rvec(&[7, 7]);
    let data2 = rvec(&[7]);
    let sorted = hypors::mann_whitney::combine_and_sort(&data1, &data2);
    let doubled = hypors::mann_whitney::midranks_doubled(&sorted);
    // Every element carries the mid-rank 2: doubled, 4.
    assert_eq!(doubled, vec![4, 4, 4]);
}
