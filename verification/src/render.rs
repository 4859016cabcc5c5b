use vstd::prelude::*;

use crate::numbers::{lemma_pow10_nine, pow10, COEF_LIMIT, SCALE};
use crate::poly::{lemma_spec_degree, spec_degree, Polynomial};

verus! {

/// Decimal digits of `n`, most significant first, no leading zeros
/// (a single `0` for zero).
pub open spec fn digits_seq(n: nat) -> Seq<u8>
    decreases n,
{
    if n < 10 {
        seq![(48 + n) as u8]
    } else {
        digits_seq(n / 10).push((48 + n % 10) as u8)
    }
}

/// The last `w` decimal digits of `n`, zero-padded to width `w`.
pub open spec fn padded_seq(n: nat, w: nat) -> Seq<u8>
    decreases w,
{
    if w == 0 {
        Seq::empty()
    } else {
        padded_seq(n / 10, (w - 1) as nat).push((48 + n % 10) as u8)
    }
}

/// Drops trailing zero digits.
pub open spec fn trim_zeros(s: Seq<u8>) -> Seq<u8>
    decreases s.len(),
{
    if s.len() > 0 && s.last() == 48 {
        trim_zeros(s.drop_last())
    } else {
        s
    }
}

/// Shortest decimal rendering of the coefficient worth `u` fixed-point
/// units: optional minus sign, integer part, and the fractional digits
/// with trailing zeros removed (omitted entirely when zero).
pub open spec fn unit_bytes(u: int) -> Seq<u8> {
    let m = if u >= 0 {
        u
    } else {
        -u
    };
    let sign: Seq<u8> = if u < 0 {
        seq![45u8]
    } else {
        Seq::empty()
    };
    let f = m % (SCALE as int);
    if f == 0 {
        sign + digits_seq((m / (SCALE as int)) as nat)
    } else {
        sign + digits_seq((m / (SCALE as int)) as nat) + seq![46u8] + trim_zeros(
            padded_seq(f as nat, 9),
        )
    }
}

/// The fixed ` * X^e` tail of a rendered term.
pub open spec fn term_tail(e: int) -> Seq<u8> {
    seq![32u8, 42u8, 32u8, 88u8, 94u8, (48 + e) as u8]
}

/// A rendered non-leading term with its separator: ` + ` and the
/// coefficient, or ` - ` and the coefficient's absolute value.
pub open spec fn mid_term(c: int, e: int) -> Seq<u8> {
    if c < 0 {
        seq![32u8, 45u8, 32u8] + unit_bytes(-c) + term_tail(e)
    } else {
        seq![32u8, 43u8, 32u8] + unit_bytes(c) + term_tail(e)
    }
}

/// The rendered terms of exponents `0..=upto`: the leading term bare,
/// every further term with its sign separator.
pub open spec fn terms_bytes(s: Seq<int>, upto: int) -> Seq<u8>
    decreases upto,
{
    if upto <= 0 {
        unit_bytes(s[0]) + term_tail(0)
    } else {
        terms_bytes(s, upto - 1) + mid_term(s[upto], upto)
    }
}

/// The canonical reduced form: terms from exponent 0 up to the degree,
/// suffixed with ` = 0`.
pub open spec fn reduced_form_bytes(s: Seq<int>) -> Seq<u8> {
    terms_bytes(s, spec_degree(s)) + seq![32u8, 61u8, 32u8, 48u8]
}

/// Appends the decimal digits of `n`.
fn push_digits(v: &mut Vec<u8>, n: i128)
    requires
        n >= 0,
    ensures
        final(v)@ == old(v)@ + digits_seq(n as nat),
    decreases n,
{
    if n >= 10 {
        push_digits(v, n / 10);
    }
    v.push((48 + (n % 10)) as u8);
    proof {
        if n < 10 {
            assert(v@ =~= old(v)@ + digits_seq(n as nat));
        } else {
            assert(v@ =~= old(v)@ + digits_seq(n as nat));
        }
    }
}

/// Appends the last `w` decimal digits of `n`, zero-padded.
fn push_padded(v: &mut Vec<u8>, n: i128, w: usize)
    requires
        n >= 0,
        w <= 9,
    ensures
        final(v)@ == old(v)@ + padded_seq(n as nat, w as nat),
    decreases w,
{
    if w > 0 {
        push_padded(v, n / 10, w - 1);
        v.push((48 + (n % 10)) as u8);
    }
    proof {
        assert(v@ =~= old(v)@ + padded_seq(n as nat, w as nat));
    }
}

/// Appends the ` * X^e` tail.
fn push_tail(v: &mut Vec<u8>, e: usize)
    requires
        e <= 9,
    ensures
        final(v)@ == old(v)@ + term_tail(e as int),
{
    v.push(32);
    v.push(42);
    v.push(32);
    v.push(88);
    v.push(94);
    v.push((48 + e) as u8);
    proof {
        assert(v@ =~= old(v)@ + term_tail(e as int));
    }
}

/// Appends the shortest decimal rendering of `u` fixed-point units.
fn push_units(v: &mut Vec<u8>, u: i128)
    requires
        -COEF_LIMIT <= u <= COEF_LIMIT,
    ensures
        final(v)@ == old(v)@ + unit_bytes(u as int),
{
    let mut m = u;
    if u < 0 {
        v.push(45);
        m = -u;
    }
    let ip: i128 = m / SCALE;
    let f: i128 = m % SCALE;
    push_digits(v, ip);
    if f > 0 {
        v.push(46);
        let mut fr: i128 = f;
        let mut w: usize = 9;
        proof {
            lemma_pow10_nine();
        }
        while fr % 10 == 0
            invariant
                1 <= w <= 9,
                0 < fr < pow10(w as nat),
                0 < f < SCALE,
                trim_zeros(padded_seq(f as nat, 9)) == trim_zeros(padded_seq(fr as nat, w as nat)),
            decreases w,
        {
            proof {
                let whole = padded_seq(fr as nat, w as nat);
                assert(whole.drop_last() =~= padded_seq((fr / 10) as nat, (w - 1) as nat));
                assert(whole.last() == 48);
                assert(fr / 10 < pow10((w - 1) as nat)) by {
                    assert(pow10(w as nat) == 10 * pow10((w - 1) as nat));
                }
                assert(fr / 10 > 0);
            }
            fr = fr / 10;
            w = w - 1;
        }
        proof {
            let fin = padded_seq(fr as nat, w as nat);
            assert(fin.last() == (48 + (fr as nat) % 10) as u8);
            assert(fin.last() != 48);
            assert(trim_zeros(fin) == fin);
        }
        push_padded(v, fr, w);
    }
    proof {
        assert(v@ =~= old(v)@ + unit_bytes(u as int));
    }
}

/// Renders the canonical reduced form of the equation as ASCII text:
/// each term `coefficient * X^exponent` from exponent 0 up to the degree,
/// joined by the coefficients' signs and closed with ` = 0`.
pub fn reduced_form(p: &Polynomial) -> (r: Vec<u8>)
    requires
        p.wf(),
    ensures
        r@ == reduced_form_bytes(p@),
{
    proof {
        lemma_spec_degree(p@);
    }
    let mut v: Vec<u8> = Vec::new();
    let d = p.degree();
    push_units(&mut v, p.coef_units(0));
    push_tail(&mut v, 0);
    proof {
        assert(v@ =~= terms_bytes(p@, 0));
    }
    let mut e: usize = 1;
    while e <= d
        invariant
            1 <= e <= d + 1,
            d < p@.len(),
            d as int == spec_degree(p@),
            p.wf(),
            v@ == terms_bytes(p@, e - 1),
        decreases d + 1 - e,
    {
        let c: i128 = p.coef_units(e);
        if c < 0 {
            v.push(32);
            v.push(45);
            v.push(32);
            push_units(&mut v, -c);
        } else {
            v.push(32);
            v.push(43);
            v.push(32);
            push_units(&mut v, c);
        }
        push_tail(&mut v, e);
        proof {
            assert(v@ =~= terms_bytes(p@, e as int));
        }
        e = e + 1;
    }
    v.push(32);
    v.push(61);
    v.push(32);
    v.push(48);
    proof {
        assert(v@ =~= reduced_form_bytes(p@));
    }
    v
}

} // verus!
