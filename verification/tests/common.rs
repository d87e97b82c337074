use hypors::common::{StatError, TailType, TestResult, TestStatistic, calculate_p, calculate_chi2_ci, calculate_ci};
use hypors::rat::Ratio;
use statrs::distribution::{ChiSquared, ContinuousCDF, StudentsT};

const EPSILON: f64 = 1e-4;

fn ratio(n: i64, d: i64) -> Ratio {
    Ratio::new(n, d).unwrap()
}

fn approx(x: f64) -> Ratio {
    Ratio::new((x * 1e6).round() as i64, 1_000_000).unwrap()
}

fn rf(r: &Ratio) -> f64 {
    r.num() as f64 / r.den() as f64
}

#[test]
fn common_test_calculate_p_left_tail() {
    let t_dist = StudentsT::new(0.0, 1.0, 10.0).unwrap();
    let t_stat = -2.0;
    let p_value = calculate_p(TailType::Left, approx(t_dist.cdf(t_stat))).unwrap();
    let expected_p_value = 0.036694;

    assert!((rf(&p_value) - expected_p_value).abs() < EPSILON);
}

#[test]
fn common_test_calculate_p_right_tail() {
    let t_dist = StudentsT::new(0.0, 1.0, 10.0).unwrap();
    let t_stat = 2.0;
    let p_value = calculate_p(TailType::Right, approx(t_dist.cdf(t_stat))).unwrap();
    let expected_p_value = 0.036694;

    assert!((rf(&p_value) - expected_p_value).abs() < EPSILON);
}

#[test]
fn common_test_calculate_p_two_tail() {
    let t_dist = StudentsT::new(0.0, 1.0, 10.0).unwrap();
    let t_stat: f64 = 2.0;
    let p_value = calculate_p(TailType::Two, approx(t_dist.cdf(t_stat.abs()))).unwrap();
    let expected_p_value = 0.073388;

    assert!((rf(&p_value) - expected_p_value).abs() < EPSILON);
}

#[test]
fn common_test_calculate_ci() {
    let t_dist = StudentsT::new(0.0, 1.0, 10.0).unwrap();
    let mean = ratio(5, 1);
    let std_error = ratio(1, 1);
    let margin_quantile = approx(t_dist.inverse_cdf(1.0 - 0.05 / 2.0));
    let ci = calculate_ci(mean, std_error, margin_quantile).unwrap();

    let expected_ci_lower = 2.771861;
    let expected_ci_upper = 7.228138;

    assert!((rf(&ci.0) - expected_ci_lower).abs() < EPSILON);
    assert!((rf(&ci.1) - expected_ci_upper).abs() < EPSILON);
}

#[test]
fn common_test_calculate_chi2_ci() {
    let df = 9.0;
    let chi_sq_dist = ChiSquared::new(df).unwrap();
    let sample_variance = ratio(5, 2);
    let alpha = 0.05;

    let q_lower = approx(chi_sq_dist.inverse_cdf(alpha / 2.0));
    let q_upper = approx(chi_sq_dist.inverse_cdf(1.0 - alpha / 2.0));
    let ci = calculate_chi2_ci(sample_variance, ratio(9, 1), q_lower, q_upper).unwrap();

    // df * variance / quantile, with the full degrees of freedom.
    let expected_ci_lower = 1.182777;
    let expected_ci_upper = 8.332213;

    assert!((rf(&ci.0) - expected_ci_lower).abs() < EPSILON);
    assert!((rf(&ci.1) - expected_ci_upper).abs() < EPSILON);
}

#[test]
fn test_tail_type() {
    assert_eq!(TailType::Left, TailType::Left);
    assert_eq!(TailType::Right, TailType::Right);
    assert_eq!(TailType::Two, TailType::Two);
}

#[test]
fn test_test_result() {
    let t_stat = ratio(2, 1);
    let p_value = ratio(36, 1000);
    let confidence_interval = (ratio(4, 1), ratio(6, 1));
    let null_hypothesis = "H0";
    let alt_hypothesis = "Ha";
    let reject_null = false;
    let result = TestResult {
        test_statistic: TestStatistic::Exact(t_stat),
        p_value,
        confidence_interval: Some(confidence_interval),
        null_hypothesis: null_hypothesis.to_string(),
        alt_hypothesis: alt_hypothesis.to_string(),
        reject_null,
    };

    match result.test_statistic {
        TestStatistic::Exact(v) => assert!(v.eqv(t_stat)),
        TestStatistic::SignedSquare(_) => panic!("unexpected statistic form"),
    }
    assert!(result.p_value.eqv(p_value));
    let ci = result.confidence_interval.unwrap();
    assert!(ci.0.eqv(confidence_interval.0) && ci.1.eqv(confidence_interval.1));
    assert_eq!(result.null_hypothesis, null_hypothesis);
    assert_eq!(result.alt_hypothesis, alt_hypothesis);
    assert_eq!(result.reject_null, reject_null);
}

#[test]
fn test_empty_data_error() {
    let error = StatError::EmptyData;
    assert_eq!(error.to_string(), "Cannot perform test on empty data");
    assert_eq!(format!("{:?}", error), "EmptyData");
}

#[test]
fn test_insufficient_data_error() {
    let error = StatError::InsufficientData;
    assert_eq!(error.to_string(), "Insufficient data for statistical test");
    assert_eq!(format!("{:?}", error), "InsufficientData");
}

#[test]
fn test_compute_error() {
    let msg = "Failed to create distribution".to_string();
    let error = StatError::ComputeError(msg.clone());
    assert_eq!(error.to_string(), format!("Computation error: {}", msg));
    assert_eq!(format!("{:?}", error), format!("ComputeError({:?})", msg));
}

#[test]
fn test_error_equality() {
    let error1 = StatError::EmptyData;
    let error2 = StatError::EmptyData;
    let error3 = StatError::InsufficientData;

    assert_eq!(error1, error2);
    assert_ne!(error1, error3);
}

#[test]
fn test_error_cloning() {
    let original = StatError::ComputeError("Test message".to_string());
    let cloned = original.clone();
    assert_eq!(original, cloned);
}

fn validate_data(data: &[f64]) -> Result<(), StatError> {
    if data.is_empty() {
        return Err(StatError::EmptyData);
    }
    if data.len() < 2 {
        return Err(StatError::InsufficientData);
    }
    Ok(())
}

#[test]
fn test_result_integration() {
    // Test empty data
    assert_eq!(validate_data(&[]), Err(StatError::EmptyData));

    // Test insufficient data
    assert_eq!(validate_data(&[1.0]), Err(StatError::InsufficientData));

    // Test valid data
    assert_eq!(validate_data(&[1.0, 2.0]), Ok(()));
}

fn process_data(data: &[f64]) -> Result<f64, StatError> {
    if data.is_empty() {
        return Err(StatError::EmptyData);
    }
    if data.len() < 2 {
        return Err(StatError::InsufficientData);
    }
    Ok(data.iter().sum::<f64>() / data.len() as f64)
}

fn wrapper_function(data: &[f64]) -> Result<String, StatError> {
    let mean = process_data(data)?; // Uses ? operator
    Ok(format!("Mean: {:.2}", mean))
}

#[test]
fn test_error_propagation_with_question_mark() {
    // Test error propagation
    assert_eq!(wrapper_function(&[]), Err(StatError::EmptyData));
    assert_eq!(wrapper_function(&[1.0]), Err(StatError::InsufficientData));
    assert_eq!(wrapper_function(&[1.0, 3.0]), Ok("Mean: 2.00".to_string()));
}

#[test]
fn common_tests_test_calculate_p_left_tail() {
    let t_dist = StudentsT::new(0.0, 1.0, 10.0).unwrap();
    let t_stat = -2.0;
    let p_value = calculate_p(TailType::Left, approx(t_dist.cdf(t_stat))).unwrap();
    assert!(rf(&p_value) < 0.05);
}

#[test]
fn common_tests_test_calculate_p_right_tail() {
    let t_dist = StudentsT::new(0.0, 1.0, 10.0).unwrap();
    let t_stat = 2.0;
    let p_value = calculate_p(TailType::Right, approx(t_dist.cdf(t_stat))).unwrap();
    assert!(rf(&p_value) < 0.05);
}

#[test]
fn common_tests_test_calculate_p_two_tail() {
    let t_dist = StudentsT::new(0.0, 1.0, 10.0).unwrap();
    let t_stat: f64 = 2.0;
    let p_value = calculate_p(TailType::Two, approx(t_dist.cdf(t_stat.abs()))).unwrap();
    assert!(rf(&p_value) < 0.10);
}

#[test]
fn common_tests_test_calculate_ci() {
    let t_dist = StudentsT::new(0.0, 1.0, 10.0).unwrap();
    let mean = ratio(5, 1);
    let std_error = ratio(1, 1);
    let margin_quantile = approx(t_dist.inverse_cdf(1.0 - 0.05 / 2.0));
    let ci = calculate_ci(mean, std_error, margin_quantile).unwrap();
    // The mean lies within the confidence interval.
    assert!(rf(&ci.0) < 5.0 && rf(&ci.1) > 5.0);
}

#[test]
fn common_tests_test_calculate_chi2_ci() {
    let df = 9.0;
    let chi_sq_dist = ChiSquared::new(df).unwrap();
    let sample_variance = ratio(5, 2);
    let alpha = 0.05;

    let q_lower = approx(chi_sq_dist.inverse_cdf(alpha / 2.0));
    let q_upper = approx(chi_sq_dist.inverse_cdf(1.0 - alpha / 2.0));
    let ci = calculate_chi2_ci(sample_variance, ratio(9, 1), q_lower, q_upper).unwrap();
    // The sample variance lies within the confidence interval.
    assert!(rf(&ci.0) < 2.5 && rf(&ci.1) > 2.5);
}
