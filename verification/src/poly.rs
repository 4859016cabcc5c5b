use vstd::prelude::*;

use crate::numbers::COEF_LIMIT;

verus! {

/// The highest exponent whose coefficient is non-zero; 0 when every
/// coefficient is zero (the identically-zero polynomial).
pub open spec fn spec_degree(s: Seq<int>) -> int
    decreases s.len(),
{
    if s.len() <= 1 {
        0
    } else if s.last() != 0 {
        s.len() - 1
    } else {
        spec_degree(s.drop_last())
    }
}

pub proof fn lemma_spec_degree(s: Seq<int>)
    requires
        s.len() >= 1,
    ensures
        0 <= spec_degree(s) < s.len(),
        spec_degree(s) >= 1 ==> s[spec_degree(s)] != 0,
        forall|k: int| spec_degree(s) < k < s.len() ==> s[k] == 0,
    decreases s.len(),
{
    if s.len() > 1 && s.last() == 0 {
        lemma_spec_degree(s.drop_last());
        assert(forall|k: int| 0 <= k < s.len() - 1 ==> s.drop_last()[k] == s[k]);
    }
}

/// Canonical coefficient table of the reduced equation. Slot `e` holds the
/// accumulated coefficient of `X^e` in exact fixed-point units: one slot per
/// exponent from 0 up to the highest exponent seen, never fewer than three.
pub struct Polynomial {
    coefs: Vec<i128>,
}

impl View for Polynomial {
    type V = Seq<int>;

    closed spec fn view(&self) -> Seq<int> {
        self.coefs@.map(|k: int, c: i128| c as int)
    }
}

impl Polynomial {
    /// Slots for exponents 0, 1 and 2 always exist; every coefficient
    /// stays within the supported range.
    pub open spec fn wf(&self) -> bool {
        &&& 3 <= self@.len() <= 10
        &&& forall|k: int|
            0 <= k < self@.len() ==> -COEF_LIMIT <= #[trigger] self@[k] <= COEF_LIMIT
    }

    /// Wraps an already-accumulated coefficient vector.
    pub fn from_units(coefs: Vec<i128>) -> (r: Polynomial)
        requires
            3 <= coefs@.len() <= 10,
            forall|k: int|
                0 <= k < coefs@.len() ==> -COEF_LIMIT <= #[trigger] coefs@[k] <= COEF_LIMIT,
        ensures
            r.wf(),
            r@.len() == coefs@.len(),
            forall|k: int| 0 <= k < coefs@.len() ==> #[trigger] r@[k] == coefs@[k] as int,
    {
        Polynomial { coefs }
    }

    /// Number of coefficient slots (highest exponent plus one).
    pub fn len(&self) -> (n: usize)
        ensures
            n as int == self@.len(),
    {
        self.coefs.len()
    }

    /// The coefficient of `X^e`, in fixed-point units (`SCALE` per whole
    /// unit of the coefficient).
    pub fn coef_units(&self, e: usize) -> (c: i128)
        requires
            e < self@.len(),
        ensures
            c as int == self@[e as int],
    {
        self.coefs[e]
    }

    /// The polynomial degree: the highest exponent with a non-zero
    /// coefficient, or 0 when the table is identically zero.
    pub fn degree(&self) -> (d: usize)
        requires
            self@.len() >= 1,
        ensures
            d as int == spec_degree(self@),
            d < self@.len(),
    {
        let mut k: usize = self.coefs.len() - 1;
        proof {
            assert(self@.subrange(0, self@.len() as int) =~= self@);
        }
        while k > 0 && self.coefs[k] == 0
            invariant
                0 <= k < self.coefs@.len(),
                self@.len() == self.coefs@.len(),
                spec_degree(self@) == spec_degree(self@.subrange(0, k + 1)),
            decreases k,
        {
            proof {
                let pre = self@.subrange(0, k + 1);
                assert(pre.last() == self@[k as int]);
                assert(pre.drop_last() =~= self@.subrange(0, k as int));
            }
            k = k - 1;
        }
        proof {
            let pre = self@.subrange(0, k + 1);
            if k == 0 {
                assert(spec_degree(pre) == 0);
            } else {
                assert(pre.last() == self@[k as int]);
                assert(spec_degree(pre) == k);
            }
        }
        k
    }
}

} // verus!
