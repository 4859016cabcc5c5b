use vstd::prelude::*;

use crate::numbers::COEF_LIMIT;
use crate::poly::{lemma_spec_degree, spec_degree, Polynomial};

verus! {

/// An exact rational number, `num / den`.
#[derive(Debug, Clone, Copy, PartialEq, Eq, Structural)]
pub struct Rational {
    pub num: i128,
    pub den: i128,
}

/// An exact quadratic surd, `(base + root_sign * sqrt(radicand)) / denom`,
/// with `radicand >= 0` and `denom > 0`.
#[derive(Debug, Clone, Copy, PartialEq, Eq, Structural)]
pub struct Surd {
    pub base: i128,
    pub root_sign: i128,
    pub radicand: i128,
    pub denom: i128,
}

/// An exact complex number: rational real part, surd imaginary part.
#[derive(Debug, Clone, Copy, PartialEq, Eq, Structural)]
pub struct Complex {
    pub real_part: Rational,
    pub imaginary_part: Surd,
}

/// Outcome of solving the reduced equation.
#[derive(Debug, Clone, Copy, PartialEq, Eq, Structural)]
pub enum Solution {
    /// Degree 0 with a non-zero constant: no value satisfies it.
    NoSolution,
    /// The identically-zero equation: every value satisfies it.
    AnySolution,
    /// Degree 1, or degree 2 with a zero discriminant.
    OneReal(Rational),
    /// Degree 2 with a positive discriminant, the smaller root first.
    TwoReal(Surd, Surd),
    /// Degree 2 with a negative discriminant: a conjugate pair, the
    /// negative-imaginary root first.
    TwoComplex(Complex, Complex),
    /// Degree 3 or higher: the solver cannot compute roots.
    DegreeTooHigh(usize),
}

/// What solving `a*X^2 + b*X + c = 0` (with `a != 0`) must return, per the
/// sign of the discriminant `b*b - 4*a*c`. Numerator and denominator are
/// both negated when `a < 0`, so surd denominators are always positive:
/// the root carrying `-sqrt` is then the smaller one, and the imaginary
/// part carrying `-sqrt` is the negative one of the conjugate pair.
pub open spec fn quadratic_spec(a: int, b: int, c: int, s: Solution) -> bool {
    let delta = b * b - 4 * a * c;
    let nb: int = if a > 0 {
        -b
    } else {
        b
    };
    let q: int = if a > 0 {
        2 * a
    } else {
        -2 * a
    };
    &&& (delta == 0 ==> (s matches Solution::OneReal(r) && r.num == -b && r.den == 2 * a))
    &&& (delta > 0 ==> (s matches Solution::TwoReal(r1, r2) && r1.base == nb && r1.root_sign == -1
        && r1.radicand == delta && r1.denom == q && r2.base == nb && r2.root_sign == 1
        && r2.radicand == delta && r2.denom == q))
    &&& (delta < 0 ==> (s matches Solution::TwoComplex(z1, z2) && z1.real_part.num == nb
        && z1.real_part.den == q && z1.imaginary_part.base == 0 && z1.imaginary_part.root_sign
        == -1 && z1.imaginary_part.radicand == -delta && z1.imaginary_part.denom == q
        && z2.real_part.num == nb && z2.real_part.den == q && z2.imaginary_part.base == 0
        && z2.imaginary_part.root_sign == 1 && z2.imaginary_part.radicand == -delta
        && z2.imaginary_part.denom == q))
}

/// Solves `a*X^2 + b*X + c = 0` exactly by discriminant sign: one rational
/// root at zero, two real roots (smaller first) when positive, a conjugate
/// complex pair (negative imaginary part first) when negative.
pub fn resolve_2nd_degree(a: i128, b: i128, c: i128) -> (s: Solution)
    requires
        a != 0,
        -COEF_LIMIT <= a <= COEF_LIMIT,
        -COEF_LIMIT <= b <= COEF_LIMIT,
        -COEF_LIMIT <= c <= COEF_LIMIT,
    ensures
        quadratic_spec(a as int, b as int, c as int, s),
{
    proof {
        assert(0 <= b * b <= COEF_LIMIT * COEF_LIMIT) by (nonlinear_arith)
            requires -COEF_LIMIT <= b <= COEF_LIMIT,
        ;
        assert(-(COEF_LIMIT * COEF_LIMIT) <= a * c <= COEF_LIMIT * COEF_LIMIT)
            by (nonlinear_arith)
            requires
                -COEF_LIMIT <= a <= COEF_LIMIT,
                -COEF_LIMIT <= c <= COEF_LIMIT,
        ;
    }
    let delta: i128 = b * b - 4 * (a * c);
    proof {
        assert(4 * (a * c) == 4 * a * c) by (nonlinear_arith);
        assert(-2 * a == -(2 * a));
    }
    if delta == 0 {
        Solution::OneReal(Rational { num: -b, den: 2 * a })
    } else if delta > 0 {
        let (nb, q) = if a > 0 {
            (-b, 2 * a)
        } else {
            (b, -2 * a)
        };
        Solution::TwoReal(
            Surd { base: nb, root_sign: -1, radicand: delta, denom: q },
            Surd { base: nb, root_sign: 1, radicand: delta, denom: q },
        )
    } else {
        let (nb, q) = if a > 0 {
            (-b, 2 * a)
        } else {
            (b, -2 * a)
        };
        let nd: i128 = -delta;
        Solution::TwoComplex(
            Complex {
                real_part: Rational { num: nb, den: q },
                imaginary_part: Surd { base: 0, root_sign: -1, radicand: nd, denom: q },
            },
            Complex {
                real_part: Rational { num: nb, den: q },
                imaginary_part: Surd { base: 0, root_sign: 1, radicand: nd, denom: q },
            },
        )
    }
}

/// Classifies the reduced equation by its degree and computes its roots:
/// degree 0 is satisfied by anything or nothing depending on the constant,
/// degree 1 has the single rational root `-c / b`, degree 2 is solved by
/// discriminant sign, and any higher degree is reported as unsolvable.
pub fn resolve(p: &Polynomial) -> (s: Solution)
    requires
        p.wf(),
    ensures
        ({
            let d = spec_degree(p@);
            let c = p@[0];
            let b = p@[1];
            let a = p@[2];
            &&& (d > 2 ==> (s matches Solution::DegreeTooHigh(k) && k == d))
            &&& (d == 0 && c == 0 ==> s == Solution::AnySolution)
            &&& (d == 0 && c != 0 ==> s == Solution::NoSolution)
            &&& (d == 1 ==> b != 0 && (s matches Solution::OneReal(r) && r.num == -c && r.den
                == b))
            &&& (d == 2 ==> a != 0 && quadratic_spec(a, b, c, s))
        }),
{
    proof {
        lemma_spec_degree(p@);
    }
    let d = p.degree();
    if d > 2 {
        return Solution::DegreeTooHigh(d);
    }
    let c = p.coef_units(0);
    let b = p.coef_units(1);
    let a = p.coef_units(2);
    if d == 2 {
        resolve_2nd_degree(a, b, c)
    } else if d == 1 {
        Solution::OneReal(Rational { num: -c, den: b })
    } else {
        if c == 0 {
            Solution::AnySolution
        } else {
            Solution::NoSolution
        }
    }
}

} // verus!
