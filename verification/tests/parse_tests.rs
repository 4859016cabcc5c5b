use computor_v1::parser::parse;
use computor_v1::poly::Polynomial;

/// Coefficient of `X^e` as a floating-point number, for comparison with
/// the decimal values written in the equations.
fn coef(p: &Polynomial, e: usize) -> f64 {
    p.coef_units(e) as f64 / 1e9
}

#[test]
fn simple_degree_2() {
    let polynoms = parse(b"5 * X^0 + 4 * X^1 - 9.3 * X^2 = 1 * X^0").unwrap();
    assert_eq!(coef(&polynoms, 0), 4.0);
    assert_eq!(coef(&polynoms, 1), 4.0);
    assert_eq!(coef(&polynoms, 2), -9.3);
}

#[test]
fn simple_degree_1() {
    let polynoms = parse(b"5 * X^0 + 4 * X^1 = 4 * X^0").unwrap();
    assert_eq!(coef(&polynoms, 0), 1.0);
    assert_eq!(coef(&polynoms, 1), 4.0);
    assert_eq!(coef(&polynoms, 2), 0.0);
}

#[test]
fn degree_3() {
    let polynoms = parse(b"8 * X^0 - 6 * X^1 + 0 * X^2 - 5.6 * X^3 = 3 * X^0").unwrap();
    assert_eq!(coef(&polynoms, 0), 5.0);
    assert_eq!(coef(&polynoms, 1), -6.0);
    assert_eq!(coef(&polynoms, 2), 0.0);
    assert_eq!(coef(&polynoms, 3), -5.6);
}

#[test]
#[should_panic]
fn input_format_error() {
    parse(b"5 * X^0 + 4 * X^1 - 9.3 * X^2 = 1 *  X^0").unwrap();
}

#[test]
fn noisy_degree_1() {
    let polynoms = parse(b"5 * X^0 + 4 * X^1 + 0 * X^2 = 4 * X^0").unwrap();
    assert_eq!(coef(&polynoms, 0), 1.0);
    assert_eq!(coef(&polynoms, 1), 4.0);
    assert_eq!(coef(&polynoms, 2), 0.0);
}

#[test]
fn noisy_degree_2() {
    let polynoms = parse(b"5 * X^0 + 4 * X^1 - 5 * X^2 + 3 * X^2 = 4 * X^0").unwrap();
    assert_eq!(coef(&polynoms, 0), 1.0);
    assert_eq!(coef(&polynoms, 1), 4.0);
    assert_eq!(coef(&polynoms, 2), -2.0);
}

#[test]
fn shuffled_degree_2() {
    let polynoms = parse(b"4 * X^1 - 9.3 * X^2 + 5 * X^0 = 1 * X^0").unwrap();
    assert_eq!(coef(&polynoms, 0), 4.0);
    assert_eq!(coef(&polynoms, 1), 4.0);
    assert_eq!(coef(&polynoms, 2), -9.3);
}

#[test]
fn big_degree_2() {
    let polynoms =
        parse(b"5 * X^0 + 4 * X^1 - 9.3 * X^2 = -4.3 * X^0 + 40.1 * X^1 + 6.5 * X^2").unwrap();
    assert_eq!(coef(&polynoms, 0), 9.3);
    assert_eq!(coef(&polynoms, 1), -36.1);
    assert_eq!(coef(&polynoms, 2), -15.8);
}

#[test]
fn empty_input_is_zero_polynomial() {
    let polynoms = parse(b"").unwrap();
    assert_eq!(polynoms.len(), 3);
    assert_eq!(coef(&polynoms, 0), 0.0);
    assert_eq!(coef(&polynoms, 1), 0.0);
    assert_eq!(coef(&polynoms, 2), 0.0);
}

#[test]
fn term_order_does_not_matter() {
    let a = parse(b"4 * X^1 - 9.3 * X^2 + 5 * X^0 = 1 * X^0").unwrap();
    let b = parse(b"5 * X^0 + 4 * X^1 - 9.3 * X^2 = 1 * X^0").unwrap();
    assert_eq!(a.len(), b.len());
    for e in 0..a.len() {
        assert_eq!(a.coef_units(e), b.coef_units(e));
    }
}

#[test]
fn no_equals_puts_everything_on_the_right() {
    let polynoms = parse(b"5 * X^0").unwrap();
    assert_eq!(coef(&polynoms, 0), -5.0);
}

#[test]
fn signed_and_fractional_coefficients() {
    let polynoms = parse(b"-0.5 * X^0 + .25 * X^1 - 2. * X^2 = 0 * X^0").unwrap();
    assert_eq!(coef(&polynoms, 0), -0.5);
    assert_eq!(coef(&polynoms, 1), 0.25);
    assert_eq!(coef(&polynoms, 2), -2.0);
}

#[test]
fn missing_x_literal_is_rejected() {
    assert!(parse(b"5 * Y^0 = 1 * X^0").is_err());
}

#[test]
fn missing_exponent_digit_is_rejected() {
    assert!(parse(b"5 * X^ = 1 * X^0").is_err());
}

#[test]
fn missing_spaces_are_rejected() {
    assert!(parse(b"5*X^0 = 1 * X^0").is_err());
}

#[test]
fn bare_number_is_rejected() {
    assert!(parse(b"5 = 1 * X^0").is_err());
}

#[test]
fn empty_coefficient_is_rejected() {
    assert!(parse(b". * X^0 = 1 * X^0").is_err());
}

#[test]
fn trailing_separator_is_rejected() {
    assert!(parse(b"5 * X^0 + ").is_err());
}

#[test]
fn ten_fraction_digits_are_rejected() {
    assert!(parse(b"1.0000000001 * X^0 = 0 * X^0").is_err());
}

#[test]
fn nine_fraction_digits_are_exact() {
    let polynoms = parse(b"1.000000001 * X^0 = 0 * X^0").unwrap();
    assert_eq!(polynoms.coef_units(0), 1_000_000_001);
}

#[test]
fn oversized_coefficient_is_rejected() {
    assert!(parse(b"5000000000 * X^0 = 0 * X^0").is_err());
}

#[test]
fn oversized_accumulated_coefficient_is_rejected() {
    assert!(parse(b"3000000000 * X^0 + 3000000000 * X^0 = 0 * X^0").is_err());
}
