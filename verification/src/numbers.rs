use vstd::prelude::*;

use crate::errors::BadFormat;

verus! {

/// Fixed-point scale: one coefficient unit is one billionth, so a decimal
/// literal with at most nine fractional digits is held exactly.
pub const SCALE: i128 = 1_000_000_000;

/// Largest coefficient magnitude, in units, that the library accepts.
/// It is below 2^62, so a degree-2 discriminant `b*b - 4*a*c` over such
/// coefficients always fits in `i128`.
pub const COEF_LIMIT: i128 = 4_000_000_000_000_000_000;

/// Largest integer part of a coefficient literal (`COEF_LIMIT / SCALE`).
pub const INT_LIMIT: i128 = 4_000_000_000;

pub open spec fn is_digit(b: u8) -> bool {
    48 <= b && b <= 57
}

pub open spec fn all_digits(d: Seq<u8>) -> bool {
    forall|k: int| 0 <= k < d.len() ==> is_digit(#[trigger] d[k])
}

/// The value of a big-endian decimal digit string.
pub open spec fn digits_val(d: Seq<u8>) -> int
    decreases d.len(),
{
    if d.len() == 0 {
        0
    } else {
        10 * digits_val(d.drop_last()) + (d.last() - 48)
    }
}

pub open spec fn pow10(n: nat) -> int
    decreases n,
{
    if n == 0 {
        1
    } else {
        10 * pow10((n - 1) as nat)
    }
}

/// Index of the first occurrence of `b` in `d` at or after `j`, or -1.
pub open spec fn first_at(d: Seq<u8>, b: u8, j: int) -> int
    decreases d.len() - j,
{
    if j < 0 || j >= d.len() {
        -1
    } else if d[j] == b {
        j
    } else {
        first_at(d, b, j + 1)
    }
}

pub proof fn lemma_first_at(d: Seq<u8>, b: u8, j: int)
    requires
        0 <= j <= d.len(),
    ensures
        first_at(d, b, j) == -1 ==> forall|k: int| j <= k < d.len() ==> d[k] != b,
        first_at(d, b, j) != -1 ==> j <= first_at(d, b, j) < d.len(),
        first_at(d, b, j) != -1 ==> d[first_at(d, b, j)] == b,
        first_at(d, b, j) != -1 ==> forall|k: int| j <= k < first_at(d, b, j) ==> d[k] != b,
    decreases d.len() - j,
{
    if j < d.len() && d[j] != b {
        lemma_first_at(d, b, j + 1);
    }
}

pub proof fn lemma_digits_val_nonneg(d: Seq<u8>)
    requires
        all_digits(d),
    ensures
        digits_val(d) >= 0,
    decreases d.len(),
{
    if d.len() > 0 {
        lemma_digits_val_nonneg(d.drop_last());
    }
}

pub proof fn lemma_digits_val_upper(d: Seq<u8>)
    requires
        all_digits(d),
    ensures
        digits_val(d) < pow10(d.len()),
    decreases d.len(),
{
    if d.len() > 0 {
        lemma_digits_val_upper(d.drop_last());
    }
}

pub proof fn lemma_pow10_pos(n: nat)
    ensures
        pow10(n) >= 1,
    decreases n,
{
    if n > 0 {
        lemma_pow10_pos((n - 1) as nat);
    }
}

pub proof fn lemma_pow10_adds(m: nat, n: nat)
    ensures
        pow10(m) * pow10(n) == pow10(m + n),
    decreases m,
{
    if m == 0 {
        assert(pow10(0) == 1);
    } else {
        lemma_pow10_adds((m - 1) as nat, n);
        assert(pow10(m) * pow10(n) == 10 * (pow10((m - 1) as nat) * pow10(n)))
            by (nonlinear_arith)
            requires pow10(m) == 10 * pow10((m - 1) as nat),
        ;
    }
}

pub proof fn lemma_pow10_nine()
    ensures
        pow10(9) == 1_000_000_000,
        pow10(8) == 100_000_000,
{
    reveal_with_fuel(pow10, 11);
}

/// The digit part of a literal, after any leading sign.
pub open spec fn lit_body(d: Seq<u8>) -> Seq<u8> {
    if d.len() >= 1 && (d[0] == 43 || d[0] == 45) {
        d.subrange(1, d.len() as int)
    } else {
        d
    }
}

pub open spec fn lit_negative(d: Seq<u8>) -> bool {
    d.len() >= 1 && d[0] == 45
}

/// Grammar of the digit part: digits with at most one point, at least one
/// digit overall, and at most nine fractional digits.
pub open spec fn body_ok(d: Seq<u8>) -> bool {
    let p = first_at(d, 46, 0);
    if p == -1 {
        d.len() >= 1 && all_digits(d)
    } else {
        d.len() >= 2 && all_digits(d.subrange(0, p)) && all_digits(
            d.subrange(p + 1, d.len() as int),
        ) && d.len() - 1 - p <= 9
    }
}

/// Exact value of the digit part, in units of `1 / SCALE`.
pub open spec fn body_units(d: Seq<u8>) -> int {
    let p = first_at(d, 46, 0);
    if p == -1 {
        digits_val(d) * SCALE
    } else {
        digits_val(d.subrange(0, p)) * SCALE + digits_val(d.subrange(p + 1, d.len() as int))
            * pow10((9 - (d.len() - 1 - p)) as nat)
    }
}

/// A coefficient literal: optional sign, then a digit part whose exact
/// value stays within the supported range.
pub open spec fn lit_ok(d: Seq<u8>) -> bool {
    body_ok(lit_body(d)) && body_units(lit_body(d)) <= COEF_LIMIT
}

/// Signed exact value of a coefficient literal, in units.
pub open spec fn lit_units(d: Seq<u8>) -> int {
    if lit_negative(d) {
        -body_units(lit_body(d))
    } else {
        body_units(lit_body(d))
    }
}

fn pow10_exec(n: usize) -> (r: i128)
    requires
        n <= 9,
    ensures
        r == pow10(n as nat),
        1 <= r <= 1_000_000_000,
{
    let mut r: i128 = 1;
    let mut k: usize = 0;
    while k < n
        invariant
            k <= n <= 9,
            r == pow10(k as nat),
            1 <= r <= 1_000_000_000,
        decreases n - k,
    {
        proof {
            lemma_pow10_pos((k + 1) as nat);
            lemma_pow10_adds((k + 1) as nat, (n - k - 1) as nat);
            lemma_pow10_pos((n - k - 1) as nat);
            assert(pow10((k + 1) as nat) <= pow10(n as nat)) by (nonlinear_arith)
                requires
                    pow10((k + 1) as nat) * pow10((n - k - 1) as nat) == pow10(n as nat),
                    pow10((k + 1) as nat) >= 1,
                    pow10((n - k - 1) as nat) >= 1,
            ;
            assert(pow10(n as nat) <= 1_000_000_000) by {
                lemma_pow10_nine();
                if (n as nat) < 9 {
                    lemma_pow10_adds(n as nat, (9 - n) as nat);
                    lemma_pow10_pos((9 - n) as nat);
                    lemma_pow10_pos(n as nat);
                    assert(pow10(n as nat) <= pow10(9)) by (nonlinear_arith)
                        requires
                            pow10(n as nat) * pow10((9 - n) as nat) == pow10(9),
                            pow10(n as nat) >= 1,
                            pow10((9 - n) as nat) >= 1,
                    ;
                }
            }
        }
        r = r * 10;
        k = k + 1;
    }
    r
}

/// Parses the coefficient literal held in `s[from..to]` into exact
/// fixed-point units, mirroring `lit_ok` / `lit_units` clause for clause.
pub fn parse_units(s: &[u8], from: usize, to: usize) -> (r: Result<i128, BadFormat>)
    requires
        from <= to <= s@.len(),
    ensures
        r is Ok <==> lit_ok(s@.subrange(from as int, to as int)),
        r matches Ok(u) ==> u as int == lit_units(s@.subrange(from as int, to as int)),
        r matches Ok(u) ==> -COEF_LIMIT <= u <= COEF_LIMIT,
{
    let ghost sub = s@.subrange(from as int, to as int);
    let mut j = from;
    let mut neg = false;
    if j < to && (s[j] == 43 || s[j] == 45) {
        neg = s[j] == 45;
        j = j + 1;
    }
    let ghost body = s@.subrange(j as int, to as int);
    proof {
        assert(lit_body(sub) =~= body);
        assert(neg == lit_negative(sub));
    }
    // Integer part: skip leading zeros, then accumulate.
    let int_start: usize = j;
    let mut iv: i128 = 0;
    let mut over = false;
    while j < to && 48 <= s[j] && s[j] <= 57
        invariant
            from <= int_start <= j <= to <= s@.len(),
            body == s@.subrange(int_start as int, to as int),
            all_digits(s@.subrange(int_start as int, j as int)),
            !over ==> 0 <= iv <= INT_LIMIT && iv == digits_val(
                s@.subrange(int_start as int, j as int),
            ),
            over ==> digits_val(s@.subrange(int_start as int, j as int)) > INT_LIMIT,
        decreases to - j,
    {
        let d: u8 = s[j];
        proof {
            let pre = s@.subrange(int_start as int, j as int);
            let post = s@.subrange(int_start as int, j + 1);
            assert(post.drop_last() =~= pre);
            assert(post.last() == d);
            lemma_digits_val_nonneg(pre);
        }
        if !over {
            iv = iv * 10 + (d - 48) as i128;
            if iv > INT_LIMIT {
                over = true;
            }
        }
        j = j + 1;
    }
    let ghost ipart = s@.subrange(int_start as int, j as int);
    // After the integer digits: end, or a point followed by the fraction.
    let mut fv: i128 = 0;
    let mut fw: usize = 0;
    let ghost mut fpart: Seq<u8> = Seq::empty();
    let mut has_dot = false;
    let mut dot_at: usize = 0;
    if j < to {
        if s[j] != 46 {
            // A character that is neither digit nor point: the body cannot
            // satisfy its grammar whichever side of a point it falls on.
            proof {
                lemma_first_at(body, 46, 0);
                let p: int = first_at(body, 46, 0);
                let jr: int = j - int_start;
                if p == -1 {
                    assert(!is_digit(body[jr]));
                } else {
                    assert(p != jr);
                    if p < jr {
                        assert(body[p] == 46);
                        assert(is_digit(ipart[p]));
                        assert(ipart[p] == body[p]);
                        assert(false);
                    } else {
                        assert(body.subrange(0, p)[jr] == body[jr]);
                        assert(!all_digits(body.subrange(0, p)));
                    }
                }
            }
            return Err(BadFormat);
        }
        has_dot = true;
        dot_at = j;
        j = j + 1;
        let frac_start = j;
        while j < to && 48 <= s[j] && s[j] <= 57
            invariant
                from <= frac_start <= j <= to <= s@.len(),
                int_start <= dot_at < frac_start,
                frac_start == dot_at + 1,
                s@[dot_at as int] == 46,
                sub == s@.subrange(from as int, to as int),
                lit_body(sub) == body,
                body == s@.subrange(int_start as int, to as int),
                ipart == s@.subrange(int_start as int, dot_at as int),
                all_digits(ipart),
                fw == j - frac_start,
                fpart == s@.subrange(frac_start as int, j as int),
                all_digits(fpart),
                fw <= 9,
                0 <= fv < 1_000_000_000,
                fv == digits_val(fpart),
            decreases to - j,
        {
            if fw == 9 {
                // A tenth fractional digit: the fraction is too long, and
                // appending digits can only keep it too long.
                proof {
                    lemma_first_at(body, 46, 0);
                    let p: int = first_at(body, 46, 0);
                    assert(body[dot_at - int_start] == 46);
                    assert(p != -1);
                    if p < dot_at - int_start {
                        assert(is_digit(ipart[p]));
                        assert(false);
                    }
                    assert(p == dot_at - int_start);
                    assert(body.len() - 1 - p >= 10);
                }
                return Err(BadFormat);
            }
            let d: u8 = s[j];
            proof {
                let post = s@.subrange(frac_start as int, j + 1);
                assert(post.drop_last() =~= fpart);
                assert(post.last() == d);
                lemma_digits_val_nonneg(fpart);
                lemma_digits_val_upper(fpart);
                assert(pow10(fw as nat) <= pow10(8)) by {
                    if (fw as nat) < 8 {
                        lemma_pow10_adds(fw as nat, (8 - fw) as nat);
                        lemma_pow10_pos(fw as nat);
                        lemma_pow10_pos((8 - fw) as nat);
                        assert(pow10(fw as nat) <= pow10(8)) by (nonlinear_arith)
                            requires
                                pow10(fw as nat) * pow10((8 - fw) as nat) == pow10(8),
                                pow10(fw as nat) >= 1,
                                pow10((8 - fw) as nat) >= 1,
                        ;
                    }
                }
                lemma_pow10_nine();
            }
            fv = fv * 10 + (d - 48) as i128;
            fw = fw + 1;
            proof {
                fpart = s@.subrange(frac_start as int, j + 1);
            }
            j = j + 1;
        }
        if j < to {
            // Something after the fraction digits that is not a digit:
            // it sits in the fraction part and breaks its grammar.
            proof {
                lemma_first_at(body, 46, 0);
                let p: int = first_at(body, 46, 0);
                assert(body[dot_at - int_start] == 46);
                assert(p != -1);
                if p < dot_at - int_start {
                    assert(is_digit(ipart[p]));
                    assert(false);
                }
                assert(p == dot_at - int_start);
                let fr: Seq<u8> = body.subrange(p + 1, body.len() as int);
                assert(fr[j - frac_start] == body[j - int_start]);
                assert(body[j - int_start] == s@[j as int]);
                assert(!is_digit(s@[j as int]));
            }
            return Err(BadFormat);
        }
    }
    // The whole range has been consumed; relate the pieces to the spec.
    proof {
        lemma_first_at(body, 46, 0);
        let p: int = first_at(body, 46, 0);
        if has_dot {
            assert(body[dot_at - int_start] == 46);
            assert(p != -1);
            if p < dot_at - int_start {
                assert(is_digit(ipart[p]));
                assert(false);
            }
            assert(p == dot_at - int_start);
            assert(body.subrange(0, p) =~= ipart);
            assert(body.subrange(p + 1, body.len() as int) =~= fpart);
        } else {
            assert(p == -1) by {
                if p != -1 {
                    assert(body[p] == 46);
                    assert(is_digit(ipart[p]));
                }
            }
            assert(body =~= ipart);
        }
    }
    if !has_dot && j == int_start {
        // No digits at all.
        return Err(BadFormat);
    }
    if has_dot && dot_at == int_start && j == dot_at + 1 {
        // A lone point with no digit on either side.
        assert(lit_body(sub).len() < 2);
        return Err(BadFormat);
    }
    if over {
        // Integer part alone already exceeds the supported range.
        proof {
            lemma_digits_val_nonneg(ipart);
            if has_dot {
                let p: int = first_at(body, 46, 0);
                lemma_digits_val_nonneg(fpart);
                lemma_pow10_pos((9 - (body.len() - 1 - p)) as nat);
                assert(digits_val(fpart) * pow10((9 - (body.len() - 1 - p)) as nat) >= 0)
                    by (nonlinear_arith)
                    requires
                        digits_val(fpart) >= 0,
                        pow10((9 - (body.len() - 1 - p)) as nat) >= 1,
                ;
            }
        }
        return Err(BadFormat);
    }
    let p10: i128 = pow10_exec(9 - fw);
    proof {
        lemma_digits_val_nonneg(fpart);
        lemma_digits_val_upper(fpart);
        lemma_pow10_adds(fw as nat, (9 - fw) as nat);
        lemma_pow10_nine();
        assert(fv * p10 < 1_000_000_000) by (nonlinear_arith)
            requires
                0 <= fv,
                fv < pow10(fw as nat),
                p10 == pow10((9 - fw) as nat),
                p10 >= 1,
                pow10(fw as nat) * pow10((9 - fw) as nat) == 1_000_000_000,
        ;
        assert(fv * p10 >= 0) by (nonlinear_arith)
            requires
                0 <= fv,
                p10 >= 1,
        ;
    }
    let units: i128 = iv * SCALE + fv * p10;
    proof {
        if has_dot {
            assert(fw == body.len() - 1 - (dot_at - int_start));
        } else {
            assert(fv == 0 && fw == 0);
        }
        assert(units == body_units(body));
    }
    if units > COEF_LIMIT {
        return Err(BadFormat);
    }
    if neg {
        Ok(-units)
    } else {
        Ok(units)
    }
}

} // verus!
