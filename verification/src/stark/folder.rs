//! The constraints of a row, folded with the powers of a challenge as they are asserted.
use vstd::prelude::*;
use crate::field::{ExtensionField, Field};
use crate::stark::septic_digest::SepticDigest;

verus! {

/// A row that a table's constraints are evaluated on, and the folded values of the constraints so
/// far.
#[derive(Clone, Debug)]
pub struct SumcheckVerifierConstraintFolder<F, EF> {
    pub preprocessed: Vec<EF>,
    pub main: Vec<EF>,
    pub permutation: Vec<EF>,
    pub perm_challenges: Vec<EF>,
    pub local_cumulative_sum: EF,
    pub global_cumulative_sum: SepticDigest<F>,
    pub is_first_row: EF,
    pub is_last_row: EF,
    pub alpha: EF,
    pub accumulator: EF,
    pub public_values: Vec<F>,
    pub constraint_count: usize,
}

/// The accumulator after the first `n` values: each step multiplies with the challenge and adds the
/// value.
pub open spec fn folded<EF: Field>(accumulator: EF, alpha: EF, values: Seq<EF>, n: nat) -> EF
    decreases n,
{
    if n == 0 {
        accumulator
    } else {
        folded(accumulator, alpha, values, (n - 1) as nat).times(alpha).plus(values[n - 1])
    }
}

impl<F: Field, EF: ExtensionField<F>> SumcheckVerifierConstraintFolder<F, EF> {
    /// Nothing but the accumulator and the count differs.
    pub open spec fn same_row(self, other: Self) -> bool {
        &&& self.preprocessed == other.preprocessed
        &&& self.main == other.main
        &&& self.permutation == other.permutation
        &&& self.perm_challenges == other.perm_challenges
        &&& self.local_cumulative_sum == other.local_cumulative_sum
        &&& self.global_cumulative_sum == other.global_cumulative_sum
        &&& self.is_first_row == other.is_first_row
        &&& self.is_last_row == other.is_last_row
        &&& self.alpha == other.alpha
        &&& self.public_values == other.public_values
    }

    /// The values were asserted to vanish, one after the other.
    pub open spec fn asserted(self, before: Self, values: Seq<EF>) -> bool {
        &&& self.same_row(before)
        &&& self.accumulator == folded(before.accumulator, before.alpha, values, values.len())
        &&& self.constraint_count == before.constraint_count + values.len()
    }

    /// Asserts that a value vanishes.
    pub fn assert_zero(&mut self, x: EF)
        requires
            old(self).constraint_count < usize::MAX,
        ensures
            final(self).asserted(*old(self), seq![x]),
    {
        reveal_with_fuel(folded, 2);
        self.accumulator = self.accumulator.mul(self.alpha).add(x);
        self.constraint_count = self.constraint_count + 1;
    }

    /// Asserts that two values are equal.
    pub fn assert_eq(&mut self, x: EF, y: EF)
        requires
            old(self).constraint_count < usize::MAX,
        ensures
            final(self).asserted(*old(self), seq![x.minus(y)]),
    {
        self.assert_zero(x.sub(y));
    }

    /// Asserts that two values are equal where a condition is not zero.
    pub fn assert_eq_when(&mut self, condition: EF, x: EF, y: EF)
        requires
            old(self).constraint_count < usize::MAX,
        ensures
            final(self).asserted(*old(self), seq![condition.times(x.minus(y))]),
    {
        self.assert_zero(condition.mul(x.sub(y)));
    }
}

/// Folding values one after the other is folding them all.
pub proof fn law_folded_on<EF: Field>(accumulator: EF, alpha: EF, a: Seq<EF>, b: Seq<EF>, n: nat)
    requires
        n <= b.len(),
    ensures
        folded(accumulator, alpha, a + b, a.len() + n) == folded(
            folded(accumulator, alpha, a, a.len()),
            alpha,
            b,
            n,
        ),
    decreases n,
{
    if n == 0 {
        lemma_folded_prefix(accumulator, alpha, a, a + b, a.len());
    } else {
        law_folded_on(accumulator, alpha, a, b, (n - 1) as nat);
        assert((a + b)[a.len() + n - 1] == b[n - 1]);
    }
}

proof fn lemma_folded_prefix<EF: Field>(
    accumulator: EF,
    alpha: EF,
    a: Seq<EF>,
    b: Seq<EF>,
    n: nat,
)
    requires
        n <= a.len(),
        n <= b.len(),
        forall|i: int| 0 <= i < n ==> a[i] == b[i],
    ensures
        folded(accumulator, alpha, a, n) == folded(accumulator, alpha, b, n),
    decreases n,
{
    if n > 0 {
        lemma_folded_prefix(accumulator, alpha, a, b, (n - 1) as nat);
    }
}

/// A folder to which nothing but vanishing values were asserted keeps a vanishing accumulator.
pub proof fn law_folded_vanishes<EF: Field>(alpha: EF, values: Seq<EF>, n: nat)
    requires
        alpha.valid(),
        n <= values.len(),
        forall|i: int| 0 <= i < n ==> #[trigger] values[i] == EF::zero_elem(),
    ensures
        folded(EF::zero_elem(), alpha, values, n) == EF::zero_elem(),
    decreases n,
{
    EF::law_constants();
    if n > 0 {
        law_folded_vanishes(alpha, values, (n - 1) as nat);
        crate::field::algebra::lemma_products(alpha, alpha, alpha);
        EF::law_plus(EF::zero_elem(), EF::zero_elem(), EF::zero_elem());
    }
}

} // verus!
