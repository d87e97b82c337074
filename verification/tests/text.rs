use hypors::common::{TailType, calculate_p, critical_probability, mean_null_hypothesis};
use hypors::rat::Ratio;
use hypors::text::{ratio_to_string, u64_to_string};

fn ratio(n: i64, d: i64) -> Ratio {
    Ratio::new(n, d).unwrap()
}

fn rf(r: &Ratio) -> f64 {
    r.num() as f64 / r.den() as f64
}

#[test]
fn test_mean_null_hypothesis_text() {
    assert_eq!(mean_null_hypothesis(1), "H0: µ1");
    assert_eq!(mean_null_hypothesis(3), "H0: µ1 = µ2 = µ3");
    assert_eq!(mean_null_hypothesis(5), "H0: µ1 = µ2 = µ3 = µ4 = µ5");
}

#[test]
fn test_number_rendering() {
    assert_eq!(u64_to_string(0), "0");
    assert_eq!(u64_to_string(2026), "2026");
    assert_eq!(ratio_to_string(ratio(5, 1)), "5");
    assert_eq!(ratio_to_string(ratio(1, 2)), "1/2");
    assert_eq!(ratio_to_string(ratio(-3, 4)), "-3/4");
    // Values are reduced before rendering.
    assert_eq!(ratio_to_string(ratio(10, 4)), "5/2");
}

// The two-tailed p-value is twice the right-tailed p-value read from the
// same CDF value.
#[test]
fn test_two_tailed_doubles_right_tailed() {
    let cdf_value = ratio(4, 5);
    let p_two = calculate_p(TailType::Two, cdf_value).unwrap();
    let p_right = calculate_p(TailType::Right, cdf_value).unwrap();
    let doubled = p_right.mul(ratio(2, 1)).unwrap();
    assert!(p_two.eqv(doubled));
}

// A conformant CDF value yields a p-value in the unit interval.
#[test]
fn test_p_value_unit_range() {
    let zero = ratio(0, 1);
    let one = ratio(1, 1);
    for num in [500i64, 750, 999, 1000] {
        let cdf_value = ratio(num, 1000);
        for tail in [TailType::Left, TailType::Right, TailType::Two] {
            let p = calculate_p(tail, cdf_value).unwrap();
            assert!(zero.le(p) && p.le(one));
        }
    }
}

#[test]
fn test_critical_probability() {
    let alpha = ratio(1, 20);
    let two = critical_probability(TailType::Two, alpha).unwrap();
    assert!(two.eqv(ratio(39, 40)));
    let one_sided = critical_probability(TailType::Right, alpha).unwrap();
    assert!(one_sided.eqv(ratio(19, 20)));
    assert!((rf(&two) - 0.975).abs() < 1e-12);
}
