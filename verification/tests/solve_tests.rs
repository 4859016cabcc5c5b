use computor_v1::errors::{BadFormat, MissingArgument, TooManyArguments};
use computor_v1::parser::parse;
use computor_v1::poly::Polynomial;
use computor_v1::render::reduced_form;
use computor_v1::solver::{resolve, resolve_2nd_degree, Rational, Solution, Surd};

fn rational_f64(r: &Rational) -> f64 {
    r.num as f64 / r.den as f64
}

fn surd_f64(s: &Surd) -> f64 {
    (s.base as f64 + s.root_sign as f64 * (s.radicand as f64).sqrt()) / s.denom as f64
}

fn reduced_text(p: &Polynomial) -> String {
    String::from_utf8(reduced_form(p)).unwrap()
}

#[test]
fn degree_zero_constant_zero_any_solution() {
    let p = parse(b"0 * X^0 = 0 * X^0").unwrap();
    assert_eq!(p.degree(), 0);
    assert!(matches!(resolve(&p), Solution::AnySolution));
}

#[test]
fn degree_zero_constant_nonzero_no_solution() {
    let p = parse(b"5 * X^0 = 1 * X^0").unwrap();
    assert_eq!(p.degree(), 0);
    assert!(matches!(resolve(&p), Solution::NoSolution));
}

#[test]
fn degree_one_root() {
    let p = parse(b"5 * X^0 + 4 * X^1 = 4 * X^0").unwrap();
    assert_eq!(p.degree(), 1);
    match resolve(&p) {
        Solution::OneReal(r) => {
            assert_eq!(r.num, -1_000_000_000);
            assert_eq!(r.den, 4_000_000_000);
            assert_eq!(rational_f64(&r), -0.25);
        },
        other => panic!("expected one real root, got {:?}", other),
    }
}

#[test]
fn degree_two_positive_discriminant() {
    let p = parse(b"1 * X^0 - 3 * X^1 + 2 * X^2 = 0 * X^0").unwrap();
    assert_eq!(p.degree(), 2);
    match resolve(&p) {
        Solution::TwoReal(r1, r2) => {
            // Discriminant: (-3)^2 - 4*2*1 = 1, in squared fixed-point units.
            assert_eq!(r1.radicand, 1_000_000_000_000_000_000);
            assert_eq!(r1.radicand as f64 / 1e18, 1.0);
            assert_eq!(surd_f64(&r1), 0.5);
            assert_eq!(surd_f64(&r2), 1.0);
            assert!(surd_f64(&r1) < surd_f64(&r2));
        },
        other => panic!("expected two real roots, got {:?}", other),
    }
}

#[test]
fn degree_two_zero_discriminant() {
    let p = parse(b"1 * X^0 + 2 * X^1 + 1 * X^2 = 0 * X^0").unwrap();
    match resolve(&p) {
        Solution::OneReal(r) => {
            // The root is -b / (2a), not the historical -b / 2 * a.
            assert_eq!(rational_f64(&r), -1.0);
        },
        other => panic!("expected one real root, got {:?}", other),
    }
}

#[test]
fn degree_two_negative_discriminant() {
    match resolve_2nd_degree(1_000_000_000, 0, 1_000_000_000) {
        Solution::TwoComplex(z1, z2) => {
            assert_eq!(rational_f64(&z1.real_part), 0.0);
            assert_eq!(rational_f64(&z2.real_part), 0.0);
            assert_eq!(surd_f64(&z1.imaginary_part), -1.0);
            assert_eq!(surd_f64(&z2.imaginary_part), 1.0);
            // Conjugate pair: same shape, opposite root signs.
            assert_eq!(z1.real_part, z2.real_part);
            assert_eq!(z1.imaginary_part.radicand, z2.imaginary_part.radicand);
            assert_eq!(z1.imaginary_part.root_sign, -z2.imaginary_part.root_sign);
        },
        other => panic!("expected two complex roots, got {:?}", other),
    }
}

#[test]
fn negative_leading_coefficient_orders_roots() {
    // -X^2 + 1 = 0 has roots -1 and 1; the smaller must come first.
    let p = parse(b"1 * X^0 - 1 * X^2 = 0 * X^0").unwrap();
    match resolve(&p) {
        Solution::TwoReal(r1, r2) => {
            assert!(r1.denom > 0 && r2.denom > 0);
            assert_eq!(surd_f64(&r1), -1.0);
            assert_eq!(surd_f64(&r2), 1.0);
        },
        other => panic!("expected two real roots, got {:?}", other),
    }
}

#[test]
fn degree_three_cannot_be_solved() {
    let p = parse(b"8 * X^0 - 6 * X^1 + 0 * X^2 - 5.6 * X^3 = 3 * X^0").unwrap();
    assert_eq!(p.degree(), 3);
    assert!(matches!(resolve(&p), Solution::DegreeTooHigh(3)));
    assert_eq!(reduced_text(&p), "5 * X^0 - 6 * X^1 + 0 * X^2 - 5.6 * X^3 = 0");
}

#[test]
fn degree_from_coefficient_table() {
    let p = parse(b"5 * X^0 + 4 * X^1 + 0 * X^2 = 4 * X^0").unwrap();
    assert_eq!(p.degree(), 1);
    let z = parse(b"").unwrap();
    assert_eq!(z.degree(), 0);
}

#[test]
fn reduced_form_degree_two() {
    let p = parse(b"5 * X^0 + 4 * X^1 - 9.3 * X^2 = 1 * X^0").unwrap();
    assert_eq!(reduced_text(&p), "4 * X^0 + 4 * X^1 - 9.3 * X^2 = 0");
}

#[test]
fn reduced_form_zero_polynomial() {
    let p = parse(b"").unwrap();
    assert_eq!(reduced_text(&p), "0 * X^0 = 0");
}

#[test]
fn reduced_form_trims_trailing_zero_slots() {
    let p = parse(b"5 * X^0 + 4 * X^1 = 4 * X^0").unwrap();
    assert_eq!(reduced_text(&p), "1 * X^0 + 4 * X^1 = 0");
}

#[test]
fn error_messages() {
    assert_eq!(BadFormat.message(), "Argument uncorectly formated.");
    assert_eq!(MissingArgument.message(), "No argument have been passed.");
    assert_eq!(
        TooManyArguments.message(),
        "Too many arguments have been passed. Only one is allowed."
    );
}
