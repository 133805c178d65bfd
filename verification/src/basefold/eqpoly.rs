//! The equality polynomial.
use vstd::prelude::*;
use vstd::arithmetic::power2::*;
use crate::basefold::mlpoly::MultilinearPolynomial;
use crate::bits;
use crate::field;
use crate::field::algebra;
use crate::field::Field;

verus! {

/// The equality polynomial `eq(r, x)`, the product over `i` of
/// `r_i x_i + (1 - r_i) (1 - x_i)`, at a fixed point `r`.
pub struct EqPolynomial<F> {
    r: Vec<F>,
}

/// Up to this many variables the table is computed by splitting each entry in place.
pub const PARALLEL_THRESHOLD: usize = 16;

/// `a b + (1 - a) (1 - b)`.
pub open spec fn eq_factor<F: Field>(a: F, b: F) -> F {
    a.times(b).plus(F::one_elem().minus(a).times(F::one_elem().minus(b)))
}

/// The product over the positions of [`eq_factor`].
pub open spec fn eq_eval<F: Field>(r: Seq<F>, x: Seq<F>) -> F
    decreases r.len(),
{
    if r.len() == 0 {
        F::one_elem()
    } else {
        eq_eval(r.drop_last(), x.drop_last()).times(eq_factor(r.last(), x.last()))
    }
}

/// The factor of one variable at a Boolean value.
pub open spec fn eq_bit<F: Field>(r: F, bit: bool) -> F {
    if bit {
        r
    } else {
        F::one_elem().minus(r)
    }
}

/// The value of the equality polynomial at the vertex of the hypercube with the number `index`,
/// whose lowest bit is the last variable.
pub open spec fn eq_at<F: Field>(r: Seq<F>, index: nat) -> F
    decreases r.len(),
{
    if r.len() == 0 {
        F::one_elem()
    } else {
        eq_at(r.drop_last(), index / 2).times(eq_bit(r.last(), index % 2 == 1))
    }
}

/// All values of the equality polynomial on the hypercube.
pub open spec fn eq_table<F: Field>(r: Seq<F>) -> Seq<F> {
    Seq::new(pow2(r.len()), |i: int| eq_at(r, i as nat))
}

/// The vertex of the hypercube with the number `index`.
pub open spec fn vertex<F: Field>(n: nat, index: nat) -> Seq<F>
    decreases n,
{
    if n == 0 {
        Seq::empty()
    } else {
        vertex::<F>((n - 1) as nat, index / 2).push(
            if index % 2 == 1 {
                F::one_elem()
            } else {
                F::zero_elem()
            },
        )
    }
}

pub proof fn lemma_eq_at_valid<F: Field>(r: Seq<F>, index: nat)
    ensures
        eq_at(r, index).valid(),
{
    broadcast use algebra::group_valid;

    if r.len() > 0 {
        assert(eq_at(r, index) == eq_at(r.drop_last(), index / 2).times(
            eq_bit(r.last(), index % 2 == 1),
        ));
    }
}

/// Law: an entry of the table is the value of the polynomial at that vertex.
pub proof fn law_table_entry_is_value<F: Field>(r: Seq<F>, index: nat)
    requires
        field::all_valid(r),
    ensures
        eq_at(r, index) == eq_eval(r, vertex::<F>(r.len(), index)),
    decreases r.len(),
{
    broadcast use algebra::group_valid;

    if r.len() > 0 {
        let x = vertex::<F>(r.len(), index);
        law_table_entry_is_value(r.drop_last(), index / 2);
        assert(x.drop_last() =~= vertex::<F>((r.len() - 1) as nat, index / 2));
        let a = r.last();
        assert(r[r.len() - 1].valid());
        let one = F::one_elem();
        let zero = F::zero_elem();
        let na = one.minus(a);
        algebra::lemma_products(a, a, a);
        algebra::lemma_products(na, na, na);
        algebra::lemma_opposites(one, one);
        algebra::lemma_opposites(na, a);
        F::law_plus(a, zero, zero);
    }
}

/// A leading variable contributes the factor of the highest bit.
pub proof fn lemma_eq_at_front<F: Field>(r: Seq<F>, index: nat)
    requires
        r.len() > 0,
        field::all_valid(r),
        index < pow2(r.len()),
    ensures
        ({
            let half = pow2((r.len() - 1) as nat);
            let high = index >= half;
            eq_at(r, index) == eq_at(
                r.drop_first(),
                if high {
                    (index - half) as nat
                } else {
                    index
                },
            ).times(eq_bit(r[0], high))
        }),
    decreases r.len(),
{
    broadcast use algebra::group_valid;

    let n = r.len();
    let half = pow2((n - 1) as nat);
    lemma_pow2_unfold(n);
    let high = index >= half;
    let low = if high {
        (index - half) as nat
    } else {
        index
    };
    if n == 1 {
        lemma2_to64();
        assert(r.drop_last() =~= r.drop_first());
        assert(eq_at(r.drop_last(), index / 2) == F::one_elem());
        assert(eq_at(r.drop_first(), low) == F::one_elem());
        assert(high == (index % 2 == 1));
        assert(r.last() == r[0]);
    } else {
        lemma_pow2_unfold((n - 1) as nat);
        let quarter = pow2((n - 2) as nat);
        let front = r.drop_last();
        lemma_eq_at_front(front, index / 2);
        assert(r.drop_first().drop_last() =~= front.drop_first());
        assert((index / 2 >= quarter) == high);
        assert(low / 2 == if high {
            (index / 2 - quarter) as nat
        } else {
            index / 2
        });
        assert(low % 2 == index % 2);
        let e = eq_at(front.drop_first(), low / 2);
        lemma_eq_at_valid(front.drop_first(), low / 2);
        assert(r[0].valid() && r[n - 1].valid());
        assert(front[0] == r[0]);
        let hb = eq_bit(r[0], high);
        let lb = eq_bit(r.last(), index % 2 == 1);
        assert(r.drop_first().last() == r.last());
        assert(r.drop_first().drop_last() == front.drop_first());
        algebra::lemma_products(e, hb, lb);
        assert(eq_at(r, index) == eq_at(front, index / 2).times(lb));
        assert(eq_at(front, index / 2) == e.times(hb));
        assert(eq_at(r.drop_first(), low) == e.times(lb));
    }
}

/// The sum of a sequence.
pub open spec fn total<F: Field>(s: Seq<F>) -> F
    decreases s.len(),
{
    if s.len() == 0 {
        F::zero_elem()
    } else {
        total(s.drop_last()).plus(s.last())
    }
}

proof fn lemma_total_valid<F: Field>(s: Seq<F>)
    ensures
        total(s).valid(),
{
    broadcast use algebra::group_valid;

    if s.len() > 0 {
        assert(total(s) == total(s.drop_last()).plus(s.last()));
    }
}

/// Splitting each of the first `k` entries of the smaller table in two keeps the sum.
proof fn lemma_split_total<F: Field>(r: Seq<F>, k: nat)
    requires
        r.len() > 0,
        field::all_valid(r),
    ensures
        total(Seq::new(2 * k, |i: int| eq_at(r, i as nat))) == total(
            Seq::new(k, |i: int| eq_at(r.drop_last(), i as nat)),
        ),
    decreases k,
{
    broadcast use algebra::group_valid;

    let wide = Seq::new(2 * k, |i: int| eq_at(r, i as nat));
    let narrow = Seq::new(k, |i: int| eq_at(r.drop_last(), i as nat));
    if k > 0 {
        lemma_split_total(r, (k - 1) as nat);
        let w2 = wide.drop_last().drop_last();
        assert(w2 =~= Seq::new(2 * ((k - 1) as nat), |i: int| eq_at(r, i as nat)));
        assert(narrow.drop_last() =~= Seq::new(
            (k - 1) as nat,
            |i: int| eq_at(r.drop_last(), i as nat),
        ));
        let a = r.last();
        assert(r[r.len() - 1].valid());
        let e = eq_at(r.drop_last(), (k - 1) as nat);
        lemma_eq_at_valid(r.drop_last(), (k - 1) as nat);
        let one = F::one_elem();
        assert((2 * k - 1) / 2 == k - 1);
        assert((2 * k - 2) / 2 == k - 1);
        assert(wide.last() == e.times(a));
        assert(wide.drop_last().last() == e.times(one.minus(a)));
        let t = total(w2);
        lemma_total_valid(w2);
        assert(total(wide.drop_last()) == t.plus(e.times(one.minus(a))));
        assert(total(wide) == total(wide.drop_last()).plus(e.times(a)));
        assert(total(narrow) == t.plus(e));
        // (t + e (1 - a)) + e a = t + e.
        algebra::lemma_products(e, one, a);
        algebra::lemma_regroup(t, e.times(one.minus(a)), e.times(a));
        algebra::lemma_opposites(e, e.times(a));
    }
}

/// Law: the values of the equality polynomial on the hypercube sum to one.
pub proof fn law_table_sums_to_one<F: Field>(r: Seq<F>)
    requires
        field::all_valid(r),
    ensures
        total(eq_table(r)) == F::one_elem(),
    decreases r.len(),
{
    broadcast use algebra::group_valid;

    if r.len() == 0 {
        lemma2_to64();
        let t = eq_table(r);
        assert(t.drop_last() =~= Seq::<F>::empty());
        assert(t.last() == F::one_elem());
        assert(total(t.drop_last()) == F::zero_elem());
        algebra::lemma_opposites(F::one_elem(), F::one_elem());
    } else {
        law_table_sums_to_one(r.drop_last());
        lemma_pow2_unfold(r.len());
        let k = pow2((r.len() - 1) as nat);
        lemma_split_total(r, k);
        assert(eq_table(r) =~= Seq::new(2 * k, |i: int| eq_at(r, i as nat)));
        assert(eq_table(r.drop_last()) =~= Seq::new(k, |i: int| eq_at(r.drop_last(), i as nat)));
    }
}

impl<F: Field> EqPolynomial<F> {
    /// The fixed point.
    pub closed spec fn point(self) -> Seq<F> {
        self.r@
    }

    pub fn new(r: Vec<F>) -> (s: Self)
        ensures
            s.point() == r@,
    {
        EqPolynomial { r }
    }

    /// The value at `rx`.
    pub fn evaluate(&self, rx: &[F]) -> (v: F)
        requires
            self.point().len() == rx@.len(),
        ensures
            v == eq_eval(self.point(), rx@),
    {
        let mut acc = F::one();
        let mut i: usize = 0;
        while i < rx.len()
            invariant
                i <= rx@.len() == self.r@.len(),
                acc == eq_eval(self.r@.subrange(0, i as int), rx@.subrange(0, i as int)),
            decreases rx@.len() - i,
        {
            let a = self.r[i];
            let b = rx[i];
            proof {
                assert(self.r@.subrange(0, i + 1).drop_last() =~= self.r@.subrange(0, i as int));
                assert(rx@.subrange(0, i + 1).drop_last() =~= rx@.subrange(0, i as int));
            }
            acc = acc.mul(a.mul(b).add(F::one().sub(a).mul(F::one().sub(b))));
            i = i + 1;
        }
        assert(self.r@.subrange(0, i as int) =~= self.r@);
        assert(rx@.subrange(0, i as int) =~= rx@);
        acc
    }

    /// All values on the hypercube.
    pub fn evals(&self) -> (t: Vec<F>)
        requires
            self.point().len() < usize::BITS,
            field::all_valid(self.point()),
        ensures
            t@ == eq_table(self.point()),
    {
        if self.r.len() <= PARALLEL_THRESHOLD {
            self.evals_serial()
        } else {
            self.evals_parallel()
        }
    }

    /// The table of values as a multilinear polynomial.
    pub fn to_ml(&self) -> (m: MultilinearPolynomial<F>)
        requires
            self.point().len() < usize::BITS,
            field::all_valid(self.point()),
        ensures
            m.evals@ == eq_table(self.point()),
            m.wf(),
    {
        proof {
            bits::lemma_log2_pow2(self.point().len());
        }
        MultilinearPolynomial::new(self.evals())
    }

    /// All values on the hypercube: with each variable every entry is split into its products
    /// with `1 - r_j` and `r_j`, from the last entry on, in place.
    pub fn evals_serial(&self) -> (t: Vec<F>)
        requires
            self.point().len() < usize::BITS,
            field::all_valid(self.point()),
        ensures
            t@ == eq_table(self.point()),
    {
        let ell: usize = self.r.len();
        let full: usize = bits::two_to_the(ell);
        let mut evals: Vec<F> = Vec::new();
        let mut f: usize = 0;
        while f < full
            invariant
                f <= full,
                evals@.len() == f,
                f > 0 ==> evals@[0] == F::one_elem(),
            decreases full - f,
        {
            evals.push(F::one());
            f = f + 1;
        }
        proof {
            lemma_pow2_pos(ell as nat);
            lemma2_to64();
            assert(self.r@.subrange(0, 0) =~= Seq::<F>::empty());
        }
        let mut size: usize = 1;
        let mut j: usize = 0;
        while j < ell
            invariant
                j <= ell == self.r@.len(),
                ell < usize::BITS,
                field::all_valid(self.r@),
                full == pow2(ell as nat),
                size == pow2(j as nat),
                evals@.len() == full,
                size <= full,
                forall|q: int|
                    0 <= q < size ==> #[trigger] evals@[q] == eq_at(
                        self.r@.subrange(0, j as int),
                        q as nat,
                    ),
            decreases ell - j,
        {
            let ghost before = self.r@.subrange(0, j as int);
            let ghost after = self.r@.subrange(0, j + 1);
            proof {
                lemma_pow2_unfold((j + 1) as nat);
                if j + 1 < ell {
                    lemma_pow2_strictly_increases((j + 1) as nat, ell as nat);
                }
                assert(after.drop_last() =~= before);
                assert(after.last() == self.r@[j as int]);
                assert(self.r@[j as int].valid());
            }
            let r_j = self.r[j];
            let mut i: usize = size;
            while i > 0
                invariant
                    i <= size,
                    2 * size <= full,
                    evals@.len() == full,
                    r_j.valid(),
                    r_j == after.last(),
                    after.len() > 0,
                    after.drop_last() == before,
                    forall|q: int|
                        0 <= q < i ==> #[trigger] evals@[q] == eq_at(before, q as nat),
                    forall|q: int|
                        2 * i <= q < 2 * size ==> #[trigger] evals@[q] == eq_at(after, q as nat),
                decreases i,
            {
                broadcast use algebra::group_valid;

                let top: usize = 2 * i - 1;
                let scalar = evals[i - 1];
                let odd = scalar.mul(r_j);
                let even = scalar.sub(odd);
                proof {
                    lemma_eq_at_valid(before, (i - 1) as nat);
                    algebra::lemma_products(scalar, F::one_elem(), r_j);
                    assert((2 * i - 1) / 2 == i - 1);
                    assert((2 * i - 2) / 2 == i - 1);
                    assert(eq_at(after, (2 * i - 1) as nat) == odd);
                    assert(eq_at(after, (2 * i - 2) as nat) == even);
                }
                evals.set(top, odd);
                evals.set(top - 1, even);
                i = i - 1;
            }
            size = size * 2;
            j = j + 1;
        }
        assert(self.r@.subrange(0, ell as int) =~= self.r@);
        assert(evals@ =~= eq_table(self.r@));
        evals
    }

    /// All values on the hypercube: from the last variable on the table is doubled by appending
    /// its products with `r_j` and taking them off its entries.
    pub fn evals_parallel(&self) -> (t: Vec<F>)
        requires
            self.point().len() < usize::BITS,
            field::all_valid(self.point()),
        ensures
            t@ == eq_table(self.point()),
    {
        let ell: usize = self.r.len();
        let mut evals: Vec<F> = Vec::new();
        evals.push(F::one());
        let mut j: usize = ell;
        proof {
            lemma2_to64();
            assert(self.r@.subrange(ell as int, ell as int) =~= Seq::<F>::empty());
            assert(evals@ =~= eq_table(Seq::<F>::empty()));
        }
        while j > 0
            invariant
                j <= ell == self.r@.len(),
                ell < usize::BITS,
                field::all_valid(self.r@),
                evals@ == eq_table(self.r@.subrange(j as int, ell as int)),
            decreases j,
        {
            let r_j = self.r[j - 1];
            let ghost tail = self.r@.subrange(j as int, ell as int);
            let ghost ext = self.r@.subrange(j - 1, ell as int);
            let ghost base = evals@;
            let size: usize = evals.len();
            proof {
                assert(ext.drop_first() =~= tail);
                assert(ext[0] == r_j);
                assert(self.r@[j - 1].valid());
                lemma_pow2_unfold(ext.len());
            }
            let mut right: Vec<F> = Vec::new();
            let mut i: usize = 0;
            while i < size
                invariant
                    i <= size == base.len() == evals@.len(),
                    base == eq_table(tail),
                    size == pow2((ext.len() - 1) as nat),
                    pow2(ext.len()) == 2 * size,
                    ext.len() > 0,
                    ext.drop_first() == tail,
                    ext[0] == r_j,
                    r_j.valid(),
                    field::all_valid(ext),
                    right@.len() == i,
                    forall|q: int|
                        0 <= q < i ==> #[trigger] evals@[q] == eq_at(ext, q as nat),
                    forall|q: int| i <= q < size ==> #[trigger] evals@[q] == base[q],
                    forall|q: int|
                        0 <= q < i ==> #[trigger] right@[q] == eq_at(ext, (q + size) as nat),
                decreases size - i,
            {
                broadcast use algebra::group_valid;

                let x = evals[i];
                let y = x.mul(r_j);
                proof {
                    lemma_eq_at_valid(tail, i as nat);
                    lemma_eq_at_front(ext, i as nat);
                    lemma_eq_at_front(ext, (i + size) as nat);
                    algebra::lemma_products(x, F::one_elem(), r_j);
                }
                right.push(y);
                evals.set(i, x.sub(y));
                i = i + 1;
            }
            evals.append(&mut right);
            j = j - 1;
            assert(evals@ =~= eq_table(ext));
        }
        assert(self.r@.subrange(0, ell as int) =~= self.r@);
        evals
    }
}

/// The values of the equality polynomial are canonical.
pub proof fn lemma_eq_eval_valid<F: Field>(r: Seq<F>, x: Seq<F>)
    ensures
        eq_eval(r, x).valid(),
{
    broadcast use algebra::group_valid;

    F::law_constants();
}

} // verus!
