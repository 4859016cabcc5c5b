use vstd::prelude::*;

use crate::errors::BadFormat;
use crate::numbers::{
    first_at, is_digit, lit_ok, lit_units, parse_units, COEF_LIMIT,
};
use crate::poly::Polynomial;

verus! {

/// Separators between terms: plus, minus, equals.
pub open spec fn is_sign(b: u8) -> bool {
    b == 43 || b == 45 || b == 61
}

/// Whether an equals sign occurs at or after position `j`: terms before it
/// belong to the left-hand side of the equation.
pub open spec fn eq_ahead(s: Seq<u8>, j: int) -> bool {
    first_at(s, 61, j) != -1
}

/// One term at cursor `i`: `Some((units, exponent, next cursor))` when the
/// text at `i` matches `[sign ' '] <number> ' * X^' <digit>` followed by a
/// space or the end of input. `units` is the coefficient in fixed-point
/// units with the separator sign applied; the equation side is not yet
/// taken into account.
pub open spec fn spec_term(s: Seq<u8>, i: int) -> Option<(int, int, int)> {
    let j: int = if i == 0 {
        0
    } else {
        i + 2
    };
    let sep = first_at(s, 32, j);
    if i != 0 && !(i + 1 < s.len() && is_sign(s[i]) && s[i + 1] == 32) {
        None
    } else if sep == -1 {
        None
    } else if !lit_ok(s.subrange(j, sep)) {
        None
    } else if !(sep + 6 <= s.len() && s[sep + 1] == 42 && s[sep + 2] == 32 && s[sep + 3] == 88
        && s[sep + 4] == 94 && is_digit(s[sep + 5])) {
        None
    } else if !(sep + 6 == s.len() || s[sep + 6] == 32) {
        None
    } else {
        let sg: int = if i != 0 && s[i] == 45 {
            -1
        } else {
            1
        };
        Some((sg * lit_units(s.subrange(j, sep)), s[sep + 5] - 48, sep + 7))
    }
}

/// The full term stream from cursor `i` on: each entry is `(units, exponent)`
/// with the units negated for right-hand-side terms (those with no equals
/// sign ahead of them), as if every term were moved to the left.
pub open spec fn scan(s: Seq<u8>, i: int) -> Option<Seq<(int, int)>>
    decreases s.len() - i,
{
    if i < 0 || i >= s.len() {
        Some(Seq::empty())
    } else {
        match spec_term(s, i) {
            Option::None => None,
            Option::Some((u, e, n)) => {
                if n <= i {
                    None
                } else {
                    let nn: int = if n <= s.len() {
                        n
                    } else {
                        s.len() as int
                    };
                    match scan(s, nn) {
                        Option::None => None,
                        Option::Some(rest) => {
                            let su: int = if eq_ahead(s, i + 1) {
                                u
                            } else {
                                -u
                            };
                            Some(seq![(su, e)] + rest)
                        },
                    }
                }
            },
        }
    }
}

/// The signed sum of every term of `ts` whose exponent is `e`: the
/// accumulated coefficient of `X^e`, whatever order the terms came in.
pub open spec fn table_at(ts: Seq<(int, int)>, e: int) -> int
    decreases ts.len(),
{
    if ts.len() == 0 {
        0
    } else {
        table_at(ts.drop_last(), e) + if ts.last().1 == e {
            ts.last().0
        } else {
            0
        }
    }
}

/// Number of slots of the coefficient table built from `ts`: exponents 0, 1
/// and 2 are always present, and the table grows to the highest exponent.
pub open spec fn table_len(ts: Seq<(int, int)>) -> int
    decreases ts.len(),
{
    if ts.len() == 0 {
        3
    } else {
        let r = table_len(ts.drop_last());
        if ts.last().1 + 1 > r {
            ts.last().1 + 1
        } else {
            r
        }
    }
}

/// Every accumulated coefficient stays within the supported range.
pub open spec fn table_bounded(ts: Seq<(int, int)>) -> bool {
    forall|e: int| -COEF_LIMIT <= #[trigger] table_at(ts, e) <= COEF_LIMIT
}

/// Exponents at or above the table length (or below zero) never occur in
/// `ts`, so their accumulated coefficient is zero.
pub proof fn lemma_table_high(ts: Seq<(int, int)>, e: int)
    requires
        forall|k: int| 0 <= k < ts.len() ==> 0 <= (#[trigger] ts[k]).1,
        e >= table_len(ts) || e < 0,
    ensures
        table_at(ts, e) == 0,
    decreases ts.len(),
{
    if ts.len() > 0 {
        assert(ts.last() == ts[ts.len() - 1]);
        assert(forall|k: int| 0 <= k < ts.len() - 1 ==> ts.drop_last()[k] == ts[k]);
        assert(table_len(ts.drop_last()) <= table_len(ts));
        lemma_table_high(ts.drop_last(), e);
    }
}

/// Removing one term from the stream removes exactly its contribution
/// from the accumulated coefficient.
pub proof fn lemma_table_at_remove(ts: Seq<(int, int)>, i: int, e: int)
    requires
        0 <= i < ts.len(),
    ensures
        table_at(ts, e) == table_at(ts.remove(i), e) + if ts[i].1 == e {
            ts[i].0
        } else {
            0
        },
    decreases ts.len(),
{
    if i == ts.len() - 1 {
        assert(ts.remove(i) =~= ts.drop_last());
    } else {
        let pre = ts.drop_last();
        lemma_table_at_remove(pre, i, e);
        assert(pre[i] == ts[i]);
        assert(ts.remove(i).drop_last() =~= pre.remove(i));
        assert(ts.remove(i).last() == ts.last());
    }
}

/// Like-term accumulation does not depend on the order terms came in: two
/// term streams holding the same terms, however ordered, accumulate to the
/// same coefficient at every exponent.
pub proof fn lemma_table_at_permutation(ts1: Seq<(int, int)>, ts2: Seq<(int, int)>, e: int)
    requires
        ts1.to_multiset() == ts2.to_multiset(),
    ensures
        table_at(ts1, e) == table_at(ts2, e),
    decreases ts1.len(),
{
    ts1.to_multiset_ensures();
    ts2.to_multiset_ensures();
    if ts1.len() == 0 {
        assert(ts2.len() == 0);
    } else {
        let t = ts1.last();
        assert(ts1[ts1.len() - 1] == t);
        assert(ts1.contains(t));
        assert(ts2.to_multiset().count(t) > 0);
        assert(ts2.contains(t));
        let i = choose|i: int| 0 <= i < ts2.len() && ts2[i] == t;
        lemma_table_at_remove(ts1, ts1.len() - 1, e);
        lemma_table_at_remove(ts2, i, e);
        assert(ts1.remove(ts1.len() - 1).to_multiset() =~= ts1.to_multiset().remove(t));
        assert(ts2.remove(i).to_multiset() =~= ts2.to_multiset().remove(t));
        lemma_table_at_permutation(ts1.remove(ts1.len() - 1), ts2.remove(i), e);
    }
}

/// Finds the first occurrence of `b` in `s` at or after `from`.
fn find_byte(s: &[u8], from: usize, b: u8) -> (r: Option<usize>)
    requires
        from <= s@.len(),
    ensures
        r is Some <==> first_at(s@, b, from as int) != -1,
        r matches Some(k) ==> k as int == first_at(s@, b, from as int) && from <= k < s@.len()
            && s@[k as int] == b,
{
    let mut k = from;
    while k < s.len()
        invariant
            from <= k <= s@.len(),
            first_at(s@, b, from as int) == first_at(s@, b, k as int),
        decreases s@.len() - k,
    {
        if s[k] == b {
            return Some(k);
        }
        k = k + 1;
    }
    None
}

/// Whether an equals sign occurs at or after `from`.
fn has_eq(s: &[u8], from: usize) -> (r: bool)
    requires
        from <= s@.len(),
    ensures
        r == eq_ahead(s@, from as int),
{
    match find_byte(s, from, 61) {
        Option::Some(_) => true,
        Option::None => false,
    }
}

/// Extracts the term at cursor `i`, mirroring `spec_term` check for check:
/// the separator sign (implicit plus at the start), the coefficient number,
/// the fixed `* X^` literal, the exponent digit, and the trailing space.
pub fn extract_polynom(s: &[u8], i: usize) -> (r: Result<(i128, usize, usize), BadFormat>)
    requires
        i < s@.len(),
        s@.len() <= usize::MAX - 7,
    ensures
        r is Ok <==> spec_term(s@, i as int) is Some,
        r matches Ok((u, e, n)) ==> spec_term(s@, i as int) == Some((u as int, e as int, n as int)),
        r matches Ok((u, e, n)) ==> -COEF_LIMIT <= u <= COEF_LIMIT && e <= 9 && i < n,
{
    let mut j = i;
    let mut negate = false;
    if i != 0 {
        let b: u8 = s[i];
        if !(b == 43 || b == 45 || b == 61) {
            return Err(BadFormat);
        }
        if i + 1 >= s.len() || s[i + 1] != 32 {
            return Err(BadFormat);
        }
        negate = b == 45;
        j = i + 2;
    }
    if j > s.len() {
        // The sign sat on the last byte: no number can follow.
        return Err(BadFormat);
    }
    let sep = match find_byte(s, j, 32) {
        Option::None => {
            return Err(BadFormat);
        },
        Option::Some(sep) => sep,
    };
    let u = match parse_units(s, j, sep) {
        Result::Err(_) => {
            return Err(BadFormat);
        },
        Result::Ok(u) => u,
    };
    if s.len() - sep < 6 {
        return Err(BadFormat);
    }
    if s[sep + 1] != 42 || s[sep + 2] != 32 || s[sep + 3] != 88 || s[sep + 4] != 94 {
        return Err(BadFormat);
    }
    let d: u8 = s[sep + 5];
    if !(48 <= d && d <= 57) {
        return Err(BadFormat);
    }
    if s.len() - sep >= 7 && s[sep + 6] != 32 {
        return Err(BadFormat);
    }
    let units: i128 = if negate {
        -u
    } else {
        u
    };
    proof {
        // Every grammar check above matches one guard of `spec_term`.
        let t = spec_term(s@, i as int);
        assert(t is Some);
        assert(t.unwrap().2 == sep + 7);
        assert(t.unwrap().1 == d - 48);
        assert(t.unwrap().0 == units as int);
    }
    Ok((units, (d - 48) as usize, sep + 7))
}

/// Parses the whole equation into its canonical coefficient table.
///
/// Succeeds exactly when the byte stream is a (possibly empty) chain of
/// `coefficient * X^digit` terms joined by ` + `, ` - ` or ` = ` and every
/// accumulated coefficient stays within the supported range; each slot of
/// the result then holds the signed sum of every term with that exponent,
/// right-hand-side terms counted negatively.
pub fn parse(s: &[u8]) -> (r: Result<Polynomial, BadFormat>)
    requires
        s@.len() <= usize::MAX - 7,
    ensures
        r is Ok <==> scan(s@, 0) is Some && table_bounded(scan(s@, 0).unwrap()),
        r matches Ok(p) ==> p.wf() && p@.len() == table_len(scan(s@, 0).unwrap()) && forall|e: int|
            0 <= e < p@.len() ==> p@[e] == table_at(scan(s@, 0).unwrap(), e),
{
    let mut coefs: Vec<i128> = Vec::new();
    coefs.push(0);
    coefs.push(0);
    coefs.push(0);
    let ghost mut done: Seq<(int, int)> = Seq::empty();
    let mut i: usize = 0;
    proof {
        assert(coefs@.map(|k: int, c: i128| c as int) =~= seq![0int, 0int, 0int]);
    }
    while i < s.len()
        invariant
            s@.len() <= usize::MAX - 7,
            3 <= coefs@.len() <= 10,
            coefs@.len() as int == table_len(done),
            done.len() <= i,
            forall|k: int| 0 <= k < done.len() ==> 0 <= (#[trigger] done[k]).1 <= 9,
            forall|k: int|
                0 <= k < done.len() ==> -COEF_LIMIT <= (#[trigger] done[k]).0 <= COEF_LIMIT,
            forall|e: int|
                0 <= e < coefs@.len() ==> #[trigger] coefs@[e] as int == table_at(done, e),
            forall|e: int|
                0 <= e < coefs@.len() ==> -(done.len() as int) * COEF_LIMIT <= #[trigger] coefs@[e]
                    <= (done.len() as int) * COEF_LIMIT,
            scan(s@, 0) is Some <==> scan(s@, i as int) is Some,
            scan(s@, i as int) matches Some(rest) ==> scan(s@, 0) == Some(done + rest),
        decreases (if i < s@.len() { s@.len() - i } else { 0 }),
    {
        let (u, e, n) = match extract_polynom(s, i) {
            Result::Err(_) => {
                return Err(BadFormat);
            },
            Result::Ok(t) => t,
        };
        let left = has_eq(s, i + 1);
        let su: i128 = if left {
            u
        } else {
            -u
        };
        let ghost pre_len = coefs@.len() as int;
        while coefs.len() <= e
            invariant
                e <= 9,
                3 <= pre_len <= coefs@.len() <= 10,
                coefs@.len() <= if e + 1 > pre_len {
                    e + 1
                } else {
                    pre_len
                },
                pre_len == table_len(done),
                done.len() <= i,
                forall|k: int| 0 <= k < done.len() ==> 0 <= (#[trigger] done[k]).1 <= 9,
                forall|e2: int|
                    0 <= e2 < coefs@.len() ==> #[trigger] coefs@[e2] as int == table_at(done, e2),
                forall|e2: int|
                    0 <= e2 < coefs@.len() ==> -(done.len() as int) * COEF_LIMIT
                        <= #[trigger] coefs@[e2] <= (done.len() as int) * COEF_LIMIT,
            decreases 10 - coefs@.len(),
        {
            proof {
                lemma_table_high(done, coefs@.len() as int);
                assert((done.len() as int) * COEF_LIMIT >= 0) by (nonlinear_arith)
                    requires done.len() >= 0,
                ;
            }
            coefs.push(0);
        }
        let cur: i128 = coefs[e];
        proof {
            assert(cur + su <= (done.len() as int) * COEF_LIMIT + COEF_LIMIT);
            assert((done.len() as int) * COEF_LIMIT + COEF_LIMIT == (done.len() + 1) as int
                * COEF_LIMIT) by (nonlinear_arith);
            assert((done.len() + 1) as int * COEF_LIMIT <= (usize::MAX as int) * COEF_LIMIT)
                by (nonlinear_arith)
                requires done.len() + 1 <= usize::MAX as int,
            ;
        }
        coefs.set(e, cur + su);
        proof {
            let t = (su as int, e as int);
            let prev = done;
            done = done.push(t);
            assert(done.drop_last() =~= prev);
            assert(done.last() == t);
            // The new slot count is the old maximum extended by this term.
            assert(table_len(done) == coefs@.len());
            // Each slot still holds the signed sum for its exponent.
            assert(forall|e2: int|
                0 <= e2 < coefs@.len() ==> #[trigger] coefs@[e2] as int == table_at(done, e2));
            // Step the scan relation from cursor `i` to cursor `n`.
            let nn: int = if n as int <= s@.len() {
                n as int
            } else {
                s@.len() as int
            };
            assert(scan(s@, i as int) is Some <==> scan(s@, nn) is Some);
            if scan(s@, nn) is Some {
                let rest = scan(s@, nn).unwrap();
                assert(scan(s@, i as int) == Some(seq![t] + rest));
                assert(prev + (seq![t] + rest) =~= done + rest);
            }
            if n as int > s@.len() {
                assert(scan(s@, n as int) == scan(s@, nn));
            }
        }
        i = n;
    }
    proof {
        assert(scan(s@, i as int) == Some(Seq::<(int, int)>::empty()));
        assert(done + Seq::<(int, int)>::empty() =~= done);
        assert(scan(s@, 0) == Some(done));
    }
    let mut k: usize = 0;
    while k < coefs.len()
        invariant
            coefs@.len() <= 10,
            k <= coefs@.len(),
            scan(s@, 0) == Some(done),
            coefs@.len() as int == table_len(done),
            forall|k2: int| 0 <= k2 < done.len() ==> 0 <= (#[trigger] done[k2]).1 <= 9,
            forall|e: int|
                0 <= e < coefs@.len() ==> #[trigger] coefs@[e] as int == table_at(done, e),
            forall|e: int| 0 <= e < k ==> -COEF_LIMIT <= #[trigger] coefs@[e] <= COEF_LIMIT,
        decreases coefs@.len() - k,
    {
        let c: i128 = coefs[k];
        if c > COEF_LIMIT || c < -COEF_LIMIT {
            return Err(BadFormat);
        }
        k = k + 1;
    }
    proof {
        assert forall|e: int| -COEF_LIMIT <= #[trigger] table_at(done, e) <= COEF_LIMIT by {
            if e < 0 || e >= table_len(done) {
                lemma_table_high(done, e);
            } else {
                assert(coefs@[e] as int == table_at(done, e));
            }
        }
    }
    proof {
        assert(scan(s@, 0) == Some(done));
        assert(scan(s@, 0).unwrap() == done);
        assert(coefs@.len() as int == table_len(done));
        assert(forall|e: int|
            0 <= e < coefs@.len() ==> #[trigger] coefs@[e] as int == table_at(done, e));
        assert(forall|e: int|
            0 <= e < coefs@.len() ==> -COEF_LIMIT <= #[trigger] coefs@[e] <= COEF_LIMIT);
    }
    Ok(Polynomial::from_units(coefs))
}

} // verus!
