//! Multilinear polynomials as tables of their values on the hypercube.
use vstd::prelude::*;
use vstd::arithmetic::power2::*;
use crate::bits;
use crate::field::Field;

verus! {

/// A multilinear polynomial, by its values on the hypercube; the last variable is the lowest bit
/// of the index.
#[derive(Debug, Clone)]
pub struct MultilinearPolynomial<F> {
    pub evals: Vec<F>,
}

/// `a + r (b - a)`, the value at `r` of the line through `(0, a)` and `(1, b)`.
pub open spec fn lerp<F: Field>(a: F, b: F, r: F) -> F {
    a.plus(r.times(b.minus(a)))
}

/// The table with the last variable bound to `r`.
pub open spec fn bound_bottom<F: Field>(evals: Seq<F>, r: F) -> Seq<F> {
    Seq::new(evals.len() / 2, |i: int| lerp(evals[2 * i], evals[2 * i + 1], r))
}

/// The table with the last variable bound to each challenge in turn.
pub open spec fn bound_all<F: Field>(evals: Seq<F>, point: Seq<F>) -> Seq<F>
    decreases point.len(),
{
    if point.len() == 0 {
        evals
    } else {
        bound_all(bound_bottom(evals, point[0]), point.drop_first())
    }
}

impl<F: Field> MultilinearPolynomial<F> {
    /// A power of two of values.
    pub open spec fn wf(self) -> bool {
        bits::power_of_two(self.evals@.len())
    }

    /// The polynomial with the given values.
    pub fn new(evals: Vec<F>) -> (r: Self)
        requires
            bits::power_of_two(evals@.len()),
        ensures
            r.wf(),
            r.evals@ == evals@,
    {
        MultilinearPolynomial { evals }
    }

    /// The number of values.
    pub fn len(&self) -> (r: usize)
        ensures
            r == self.evals@.len(),
    {
        self.evals.len()
    }

    /// The number of variables.
    pub fn get_num_vars(&self) -> (r: usize)
        requires
            self.wf(),
        ensures
            r as nat == bits::log2(self.evals@.len()),
            self.evals@.len() == pow2(r as nat),
    {
        bits::log2_strict(self.evals.len())
    }

    /// Binds the last variable to `r`.
    pub fn bound_poly_var_bottom(&mut self, r: &F)
        requires
            old(self).evals@.len() >= 2,
            old(self).wf(),
        ensures
            final(self).evals@ == bound_bottom(old(self).evals@, *r),
            final(self).wf(),
    {
        let n: usize = self.evals.len() / 2;
        let mut out: Vec<F> = Vec::new();
        let mut i: usize = 0;
        while i < n
            invariant
                i <= n == self.evals@.len() / 2,
                self.evals@.len() <= usize::MAX,
                out@ == bound_bottom(self.evals@, *r).subrange(0, i as int),
            decreases n - i,
        {
            let a = self.evals[2 * i];
            let b = self.evals[2 * i + 1];
            out.push(a.add(r.mul(b.sub(a))));
            i = i + 1;
            assert(out@ =~= bound_bottom(self.evals@, *r).subrange(0, i as int));
        }
        assert(out@ =~= bound_bottom(self.evals@, *r));
        proof {
            let k = bits::log2(self.evals@.len());
            lemma_pow2_unfold(k);
            bits::lemma_log2_pow2((k - 1) as nat);
        }
        self.evals = out;
    }
}

} // verus!
