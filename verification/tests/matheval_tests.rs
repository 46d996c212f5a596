use ancheck::matheval::evaluate_math;

#[test]
fn test_math_eval_basic() {
    assert_eq!(evaluate_math("2+2"), Some("4".to_string()));
    assert_eq!(evaluate_math("10 * 5"), Some("50".to_string()));
    assert_eq!(evaluate_math("100 / 4"), Some("25".to_string()));
    assert_eq!(evaluate_math("3.14 * 2"), Some("6.28".to_string()));
}

#[test]
fn test_math_eval_complex() {
    assert_eq!(evaluate_math("(2 + 3) * 4"), Some("20".to_string()));
    assert_eq!(evaluate_math("10 + 5 * 2"), Some("20".to_string()));
    assert_eq!(evaluate_math("100 / (2 + 3)"), Some("20".to_string()));
}

#[test]
fn test_math_eval_invalid() {
    assert_eq!(evaluate_math("hello"), None);
    assert_eq!(evaluate_math(""), None);
    assert_eq!(evaluate_math("abc + 2"), None);
}

#[test]
fn test_math_division_by_zero() {
    assert_eq!(evaluate_math("5 / 0"), None);
}

#[test]
fn test_math_modulo_and_negatives() {
    assert_eq!(evaluate_math("7 % 3"), Some("1".to_string()));
    assert_eq!(evaluate_math("7 % 0"), None);
    assert_eq!(evaluate_math("-3 + 5"), Some("2".to_string()));
    assert_eq!(evaluate_math("2 * -3"), Some("-6".to_string()));
}

#[test]
fn test_math_fractions_and_trimming() {
    assert_eq!(evaluate_math("1 / 3"), Some("0.333333".to_string()));
    assert_eq!(evaluate_math("1 / 2"), Some("0.5".to_string()));
    assert_eq!(evaluate_math("5. + .5"), Some("5.5".to_string()));
}

#[test]
fn test_math_whitespace_and_unconsumed_input() {
    assert_eq!(evaluate_math("  2+2  "), Some("4".to_string()));
    assert_eq!(evaluate_math("(2 + 3"), None);
    assert_eq!(evaluate_math("2 + 3)"), None);
}

#[test]
fn test_math_power() {
    assert_eq!(evaluate_math("2^3"), Some("8".to_string()));
    assert_eq!(evaluate_math("2 ^ 10"), Some("1024".to_string()));
    assert_eq!(evaluate_math("5^0"), Some("1".to_string()));
    assert_eq!(evaluate_math("2^-2"), Some("0.25".to_string()));
    assert_eq!(evaluate_math("(2+1)^2"), Some("9".to_string()));
    // the caret binds tighter than `*` and associates to the right
    assert_eq!(evaluate_math("2*3^2"), Some("18".to_string()));
    assert_eq!(evaluate_math("2^3^2"), Some("512".to_string()));
    // fractional exponents and zero bases of negative exponents give nothing
    assert_eq!(evaluate_math("9^0.5"), None);
    assert_eq!(evaluate_math("0^-1"), None);
}
