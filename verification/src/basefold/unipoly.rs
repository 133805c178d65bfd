//! Univariate polynomials.
use vstd::prelude::*;
use crate::basefold::gauss;
use crate::basefold::math;
use crate::field;
use crate::field::algebra;
use crate::field::Field;

verus! {

/// A univariate polynomial; `a x^2 + b x + c` is stored as `[c, b, a]`.
#[derive(Default, Debug, Clone)]
pub struct UniPoly<F> {
    pub coeffs: Vec<F>,
}

/// The powers of `x` below `n`.
pub open spec fn powers<F: Field>(x: F, n: nat) -> Seq<F> {
    Seq::new(n, |i: int| field::power(x, i as nat))
}

/// The value at `x` of the polynomial with the coefficients `c`, from the lowest.
pub open spec fn poly_eval<F: Field>(c: Seq<F>, x: F) -> F {
    math::dot(powers(x, c.len()), c)
}

/// The polynomial takes the values `evals` at the integers from zero on.
pub open spec fn interpolates<F: Field>(c: Seq<F>, evals: Seq<F>) -> bool {
    forall|i: int| 0 <= i < evals.len() ==> poly_eval(c, F::from_int(i)) == #[trigger] evals[i]
}

pub proof fn lemma_powers_valid<F: Field>(x: F, n: nat)
    ensures
        field::all_valid(powers(x, n)),
{
    assert forall|i: int| 0 <= i < n implies (#[trigger] powers(x, n)[i]).valid() by {
        algebra::lemma_power_valid(x, i as nat);
    }
}

/// One coefficient more.
pub proof fn lemma_poly_eval_push<F: Field>(c: Seq<F>, a: F, x: F)
    ensures
        poly_eval(c.push(a), x) == poly_eval(c, x).plus(field::power(x, c.len()).times(a)),
{
    assert(c.push(a).drop_last() =~= c);
    assert(powers(x, c.len() + 1).drop_last() =~= powers(x, c.len()));
}

/// The coefficients multiplied by `x`, with a zero in front.
pub proof fn lemma_poly_eval_shift<F: Field>(c: Seq<F>, x: F)
    requires
        field::all_valid(c),
        x.valid(),
    ensures
        poly_eval(seq![F::zero_elem()] + c, x) == x.times(poly_eval(c, x)),
    decreases c.len(),
{
    broadcast use algebra::group_valid;

    let z = seq![F::zero_elem()];
    if c.len() == 0 {
        lemma_poly_eval_push(Seq::<F>::empty(), F::zero_elem(), x);
        assert(Seq::<F>::empty().push(F::zero_elem()) =~= z + c);
        algebra::lemma_products(F::one_elem(), F::zero_elem(), F::zero_elem());
        algebra::lemma_products(x, x, x);
        F::law_plus(F::zero_elem(), F::zero_elem(), F::zero_elem());
    } else {
        let front = c.drop_last();
        let last = c.last();
        lemma_poly_eval_shift(front, x);
        assert((z + front).push(last) =~= z + c);
        assert(front.push(last) =~= c);
        lemma_poly_eval_push(z + front, last, x);
        lemma_poly_eval_push(front, last, x);
        lemma_poly_eval_valid(front, x);
        let p = field::power(x, front.len());
        algebra::lemma_power_valid(x, front.len());
        assert(last.valid());
        // x e + (p x) a = x (e + p a).
        algebra::lemma_products(x, poly_eval(front, x), p.times(last));
        algebra::lemma_products(p, x, last);
        algebra::lemma_products(x, p, last);
        assert((z + front).len() == front.len() + 1);
    }
}

pub proof fn lemma_poly_eval_valid<F: Field>(c: Seq<F>, x: F)
    ensures
        poly_eval(c, x).valid(),
{
    broadcast use algebra::group_valid;

    if c.len() > 0 {
        let d = math::dot(powers(x, c.len()).drop_last(), c.drop_last());
        let t = powers(x, c.len()).last().times(c.last());
        assert(poly_eval(c, x) == d.plus(t));
    }
}

/// The coefficients of the product of `X - m` over the integers `m` below `i`.
pub open spec fn falling<F: Field>(i: nat) -> Seq<F>
    decreases i,
{
    if i == 0 {
        seq![F::one_elem()]
    } else {
        let q = falling::<F>((i - 1) as nat);
        let m = F::from_int(i - 1);
        gauss::row_minus(seq![F::zero_elem()] + q, m, q.push(F::zero_elem()))
    }
}

proof fn lemma_falling<F: Field>(i: nat)
    ensures
        falling::<F>(i).len() == i + 1,
        field::all_valid(falling::<F>(i)),
        falling::<F>(i)[i as int] == F::one_elem(),
    decreases i,
{
    broadcast use algebra::group_valid;

    if i > 0 {
        lemma_falling::<F>((i - 1) as nat);
        let q = falling::<F>((i - 1) as nat);
        let m = F::from_int(i - 1);
        F::law_from_int(i - 1, 0);
        algebra::lemma_products(m, m, m);
        algebra::lemma_opposites(F::one_elem(), m);
        assert((seq![F::zero_elem()] + q)[i as int] == q[i - 1]);
    }
}

/// The value of the product at `x` gains the factor `x - m` with each `m`.
proof fn lemma_falling_step<F: Field>(i: nat, x: F)
    requires
        x.valid(),
    ensures
        poly_eval(falling::<F>(i + 1), x) == x.minus(F::from_int(i as int)).times(
            poly_eval(falling::<F>(i), x),
        ),
{
    broadcast use algebra::group_valid;

    let q = falling::<F>(i);
    let m = F::from_int(i as int);
    F::law_from_int(i as int, 0);
    lemma_falling::<F>(i);
    lemma_falling::<F>(i + 1);
    let a = seq![F::zero_elem()] + q;
    let b = q.push(F::zero_elem());
    assert(field::all_valid(a));
    assert(field::all_valid(b));
    lemma_powers_valid(x, i + 2);
    lemma_dot_commutes(powers(x, i + 2), gauss::row_minus(a, m, b));
    lemma_dot_commutes(powers(x, i + 2), a);
    lemma_dot_commutes(powers(x, i + 2), b);
    gauss::lemma_dot_row_minus(a, m, b, powers(x, i + 2));
    lemma_poly_eval_shift(q, x);
    lemma_poly_eval_push(q, F::zero_elem(), x);
    let e = poly_eval(q, x);
    lemma_poly_eval_valid(q, x);
    let p = field::power(x, q.len());
    algebra::lemma_power_valid(x, q.len());
    algebra::lemma_products(p, p, p);
    F::law_plus(e, F::zero_elem(), F::zero_elem());
    algebra::lemma_products(e, x, m);
    assert(b.len() == i + 2 && a.len() == i + 2);
}

pub proof fn lemma_dot_commutes<F: Field>(a: Seq<F>, b: Seq<F>)
    requires
        a.len() == b.len(),
        field::all_valid(a),
        field::all_valid(b),
    ensures
        math::dot(a, b) == math::dot(b, a),
    decreases a.len(),
{
    if a.len() > 0 {
        lemma_dot_commutes(a.drop_last(), b.drop_last());
        assert(a[a.len() - 1].valid() && b[b.len() - 1].valid());
        F::law_times(a.last(), b.last(), b.last());
    }
}

/// The product vanishes at the integers below `i`.
proof fn lemma_falling_roots<F: Field>(i: nat, m: nat)
    requires
        m < i,
    ensures
        poly_eval(falling::<F>(i), F::from_int(m as int)) == F::zero_elem(),
    decreases i,
{
    broadcast use algebra::group_valid;

    let x = F::from_int(m as int);
    let k = (i - 1) as nat;
    F::law_from_int(m as int, 0);
    lemma_falling_step::<F>(k, x);
    lemma_poly_eval_valid(falling::<F>(k), x);
    let e = poly_eval(falling::<F>(k), x);
    algebra::lemma_products(e, e, e);
    if m == k {
        algebra::lemma_opposites(x, x);
    } else {
        lemma_falling_roots::<F>(k, m);
        algebra::lemma_products(x.minus(F::from_int(k as int)), e, e);
    }
}

/// The product is a unit at the integers from `i` on.
proof fn lemma_falling_unit<F: Field>(i: nat, m: nat)
    requires
        i <= m < F::characteristic(),
    ensures
        field::is_unit(poly_eval(falling::<F>(i), F::from_int(m as int))),
    decreases i,
{
    broadcast use algebra::group_valid;

    let x = F::from_int(m as int);
    F::law_from_int(m as int, 0);
    F::law_constants();
    if i == 0 {
        lemma_poly_eval_push(Seq::<F>::empty(), F::one_elem(), x);
        assert(Seq::<F>::empty().push(F::one_elem()) =~= falling::<F>(0));
        algebra::lemma_products(F::one_elem(), F::one_elem(), F::one_elem());
        algebra::lemma_opposites(F::one_elem(), F::one_elem());
        assert(field::is_inverse(F::one_elem(), F::one_elem()));
    } else {
        let k = (i - 1) as nat;
        lemma_falling_unit::<F>(k, m);
        lemma_falling_step::<F>(k, x);
        lemma_poly_eval_valid(falling::<F>(k), x);
        // x - k is the image of the integer m - k.
        F::law_from_int(m - k, k as int);
        F::law_from_int(k as int, 0);
        F::law_from_int(m - k, 0);
        algebra::lemma_opposites(F::from_int(m - k), F::from_int(k as int));
        F::law_small_int_unit(m - k);
        let y = choose|y: F|
            #[trigger] y.valid() && F::from_int(m - k).times(y) == F::one_elem();
        assert(field::is_inverse(F::from_int(m - k), y));
        algebra::lemma_unit_product(
            x.minus(F::from_int(k as int)),
            poly_eval(falling::<F>(k), x),
        );
    }
}

/// Row `i` of the Vandermonde system of the values `evals` at the integers from zero on.
pub open spec fn vandermonde_row<F: Field>(evals: Seq<F>, i: int) -> Seq<F> {
    powers(F::from_int(i), evals.len()).push(evals[i])
}

pub open spec fn vandermonde<F: Field>(evals: Seq<F>) -> Seq<Seq<F>> {
    Seq::new(evals.len(), |i: int| vandermonde_row(evals, i))
}

/// A polynomial that vanishes at as many integers from zero on as it has coefficients is zero.
proof fn lemma_vanishing<F: Field>(c: Seq<F>)
    requires
        field::all_valid(c),
        c.len() <= F::characteristic(),
        forall|i: int|
            0 <= i < c.len() ==> poly_eval(c, #[trigger] F::from_int(i)) == F::zero_elem(),
    ensures
        gauss::all_zero(c),
    decreases c.len(),
{
    broadcast use algebra::group_valid;

    if c.len() > 0 {
        let k = (c.len() - 1) as nat;
        let l = c.last();
        let q = falling::<F>(k);
        lemma_falling::<F>(k);
        assert(c[k as int].valid());
        // Without the multiple of the falling product that takes its highest coefficient.
        let d = gauss::row_minus(c, l, q);
        algebra::lemma_products(l, l, l);
        algebra::lemma_opposites(l, l);
        assert(d[k as int] == F::zero_elem());
        let low = d.drop_last();
        assert forall|i: int| 0 <= i < k implies poly_eval(low, #[trigger] F::from_int(i))
            == F::zero_elem() by {
            let x = F::from_int(i);
            F::law_from_int(i, 0);
            lemma_eval_minus(c, l, q, x);
            lemma_falling_roots::<F>(k, i as nat);
            algebra::lemma_products(l, l, l);
            algebra::lemma_opposites(F::zero_elem(), l);
            lemma_poly_eval_push(low, F::zero_elem(), x);
            assert(low.push(F::zero_elem()) =~= d);
            lemma_poly_eval_valid(low, x);
            algebra::lemma_power_valid(x, k);
            algebra::lemma_products(field::power(x, k), l, l);
            F::law_plus(poly_eval(low, x), F::zero_elem(), F::zero_elem());
        }
        lemma_vanishing(low);
        assert(gauss::all_zero(d)) by {
            assert forall|i: int| 0 <= i < d.len() implies #[trigger] d[i] == F::zero_elem() by {
                if i < k {
                    assert(low[i] == F::zero_elem());
                }
            }
        }
        let x = F::from_int(k as int);
        F::law_from_int(k as int, 0);
        lemma_eval_minus(c, l, q, x);
        lemma_powers_valid(x, k + 1);
        lemma_dot_commutes(powers(x, k + 1), d);
        gauss::lemma_dot_zero(d, powers(x, k + 1));
        lemma_falling_unit::<F>(k, k);
        let e = poly_eval(q, x);
        lemma_poly_eval_valid(q, x);
        algebra::lemma_unit(e);
        // 0 - l e = 0 gives l = 0.
        assert(F::zero_elem().minus(l.times(e)) == F::zero_elem());
        algebra::lemma_opposites(l.times(e), l);
        algebra::lemma_opposites(F::zero_elem(), l);
        assert(l.times(e) == F::zero_elem());
        let y = field::inverse(e);
        algebra::lemma_products(l, e, y);
        algebra::lemma_products(y, y, y);
        assert(l == F::zero_elem());
        assert forall|i: int| 0 <= i < c.len() implies #[trigger] c[i] == F::zero_elem() by {
            assert(d[i] == F::zero_elem());
            assert(c[i].valid() && q[i].valid());
            algebra::lemma_products(q[i], q[i], q[i]);
            algebra::lemma_opposites(c[i], c[i]);
        }
    }
}

/// The value of a polynomial minus a multiple of another.
pub proof fn lemma_eval_minus<F: Field>(a: Seq<F>, f: F, b: Seq<F>, x: F)
    requires
        a.len() == b.len(),
        field::all_valid(a),
        field::all_valid(b),
        f.valid(),
        x.valid(),
    ensures
        field::all_valid(gauss::row_minus(a, f, b)),
        poly_eval(gauss::row_minus(a, f, b), x) == poly_eval(a, x).minus(
            f.times(poly_eval(b, x)),
        ),
{
    broadcast use algebra::group_valid;

    let p = powers(x, a.len());
    lemma_powers_valid(x, a.len());
    lemma_dot_commutes(p, gauss::row_minus(a, f, b));
    lemma_dot_commutes(p, a);
    lemma_dot_commutes(p, b);
    gauss::lemma_dot_row_minus(a, f, b, p);
}

/// Law: no two polynomials with as many coefficients as values take the same values at the integers
/// from zero on.
pub proof fn law_interpolation_unique<F: Field>(c: Seq<F>, d: Seq<F>, evals: Seq<F>)
    requires
        c.len() == d.len() == evals.len() <= F::characteristic(),
        field::all_valid(c),
        field::all_valid(d),
        interpolates(c, evals),
        interpolates(d, evals),
    ensures
        c == d,
{
    broadcast use algebra::group_valid;

    let one = F::one_elem();
    let r = gauss::row_minus(c, one, d);
    assert forall|i: int| 0 <= i < r.len() implies poly_eval(r, #[trigger] F::from_int(i))
        == F::zero_elem() by {
        F::law_from_int(i, 0);
        lemma_eval_minus(c, one, d, F::from_int(i));
        assert(poly_eval(c, F::from_int(i)) == evals[i]);
        assert(poly_eval(d, F::from_int(i)) == evals[i]);
        lemma_poly_eval_valid(c, F::from_int(i));
        algebra::lemma_products(evals[i], evals[i], evals[i]);
        algebra::lemma_opposites(evals[i], evals[i]);
    }
    lemma_vanishing(r);
    assert forall|i: int| 0 <= i < c.len() implies c[i] == d[i] by {
        assert(r[i] == F::zero_elem());
        assert(c[i].valid() && d[i].valid());
        algebra::lemma_products(d[i], d[i], d[i]);
        algebra::lemma_opposites(c[i], d[i]);
        algebra::lemma_opposites(d[i], c[i]);
    }
    assert(c =~= d);
}

/// A Vandermonde system over distinct points is invertible.
proof fn lemma_vandermonde_nonsingular<F: Field>(evals: Seq<F>)
    requires
        field::all_valid(evals),
        evals.len() <= F::characteristic(),
    ensures
        gauss::nonsingular(vandermonde(evals)),
        gauss::augmented(vandermonde(evals), evals.len()),
{
    let m = vandermonde(evals);
    let n = evals.len();
    assert forall|i: int| 0 <= i < n implies (#[trigger] m[i]).len() == n + 1 && field::all_valid(
        m[i],
    ) by {
        lemma_powers_valid(F::from_int(i), n);
        assert(evals[i].valid());
    }
    assert forall|x: Seq<F>|
        x.len() == m.len() && field::all_valid(x) && #[trigger] gauss::annihilated(
            m,
            x,
        ) implies gauss::all_zero(x) by {
        assert forall|i: int| 0 <= i < x.len() implies poly_eval(x, #[trigger] F::from_int(i))
            == F::zero_elem() by {
            assert(m[i].drop_last() =~= powers(F::from_int(i), n));
            assert(math::dot(m[i].drop_last(), x) == F::zero_elem());
        }
        lemma_vanishing(x);
    }
}

impl<F: Field> UniPoly<F> {
    /// The polynomial with the given coefficients.
    pub fn from_coeff(coeffs: Vec<F>) -> (r: Self)
        ensures
            r.coeffs@ == coeffs@,
    {
        UniPoly { coeffs }
    }

    /// The polynomial of degree below `evals.len()` that takes the given values at the integers
    /// from zero on.
    pub fn from_evals(evals: &[F]) -> (r: Self)
        requires
            1 <= evals@.len() <= F::characteristic(),
            field::all_valid(evals@),
        ensures
            r.coeffs@.len() == evals@.len(),
            field::all_valid(r.coeffs@),
            interpolates(r.coeffs@, evals@),
    {
        UniPoly { coeffs: Self::vandermonde_interpolation(evals) }
    }

    /// The coefficients of the polynomial through the given values, by Gaussian elimination of the
    /// Vandermonde system.
    pub fn vandermonde_interpolation(evals: &[F]) -> (coeffs: Vec<F>)
        requires
            1 <= evals@.len() <= F::characteristic(),
            field::all_valid(evals@),
        ensures
            coeffs@.len() == evals@.len(),
            field::all_valid(coeffs@),
            interpolates(coeffs@, evals@),
    {
        let n: usize = evals.len();
        let mut matrix: Vec<Vec<F>> = Vec::new();
        let mut i: usize = 0;
        while i < n
            invariant
                i <= n == evals@.len(),
                n >= 1,
                matrix@.len() == i,
                forall|r: int|
                    0 <= r < i ==> (#[trigger] matrix@[r])@ == vandermonde_row(evals@, r),
            decreases n - i,
        {
            let mut row: Vec<F> = Vec::new();
            let x = F::from_u64(i as u64);
            row.push(F::one());
            assert(row@ =~= powers(x, 1));
            let mut j: usize = 1;
            while j < n
                invariant
                    1 <= j <= n,
                    row@ == powers(x, j as nat),
                decreases n - j,
            {
                let next = row[j - 1].mul(x);
                row.push(next);
                j = j + 1;
                assert(row@ =~= powers(x, j as nat));
            }
            row.push(evals[i]);
            assert(row@ =~= vandermonde_row(evals@, i as int));
            matrix.push(row);
            i = i + 1;
        }
        proof {
            assert(gauss::rows(matrix@) =~= vandermonde(evals@));
            lemma_vandermonde_nonsingular(evals@);
        }
        let ghost m = vandermonde(evals@);
        let coeffs = gauss::gaussian_elimination(&mut matrix);
        proof {
            assert forall|r: int| 0 <= r < evals@.len() implies poly_eval(coeffs@, F::from_int(r))
                == #[trigger] evals@[r] by {
                assert(gauss::row_holds(m[r], coeffs@));
                assert(m[r].drop_last() =~= powers(F::from_int(r), n as nat));
            }
        }
        coeffs
    }

    /// One less than the number of coefficients.
    pub fn degree(&self) -> (r: usize)
        requires
            self.coeffs@.len() > 0,
        ensures
            r == self.coeffs@.len() - 1,
    {
        self.coeffs.len() - 1
    }

    /// The coefficients.
    pub fn as_vec(&self) -> (r: Vec<F>)
        ensures
            r@ == self.coeffs@,
    {
        let mut out: Vec<F> = Vec::new();
        let mut i: usize = 0;
        while i < self.coeffs.len()
            invariant
                i <= self.coeffs@.len(),
                out@ == self.coeffs@.subrange(0, i as int),
            decreases self.coeffs@.len() - i,
        {
            out.push(self.coeffs[i]);
            i = i + 1;
            assert(out@ =~= self.coeffs@.subrange(0, i as int));
        }
        assert(out@ =~= self.coeffs@);
        out
    }

    /// The value at zero.
    pub fn eval_at_zero(&self) -> (r: F)
        requires
            self.coeffs@.len() > 0,
            field::all_valid(self.coeffs@),
        ensures
            r == self.coeffs@[0],
            r == poly_eval(self.coeffs@, F::zero_elem()),
    {
        proof {
            lemma_eval_at_zero(self.coeffs@);
        }
        self.coeffs[0]
    }

    /// The value at one.
    pub fn eval_at_one(&self) -> (r: F)
        requires
            field::all_valid(self.coeffs@),
        ensures
            r == poly_eval(self.coeffs@, F::one_elem()),
    {
        let mut acc = F::zero();
        let mut i: usize = 0;
        proof {
            assert(self.coeffs@.subrange(0, 0) =~= Seq::<F>::empty());
        }
        while i < self.coeffs.len()
            invariant
                i <= self.coeffs@.len(),
                field::all_valid(self.coeffs@),
                acc == poly_eval(self.coeffs@.subrange(0, i as int), F::one_elem()),
            decreases self.coeffs@.len() - i,
        {
            broadcast use algebra::group_valid;

            let c = self.coeffs[i];
            proof {
                assert(self.coeffs@.subrange(0, i as int).push(c) =~= self.coeffs@.subrange(
                    0,
                    i + 1,
                ));
                lemma_poly_eval_push(self.coeffs@.subrange(0, i as int), c, F::one_elem());
                lemma_power_of_one::<F>(i as nat);
                assert(c.valid());
                algebra::lemma_products(c, c, c);
            }
            acc = acc.add(c);
            i = i + 1;
        }
        assert(self.coeffs@.subrange(0, i as int) =~= self.coeffs@);
        acc
    }

    /// The value at `r`.
    pub fn evaluate(&self, r: &F) -> (v: F)
        requires
            self.coeffs@.len() > 0,
            field::all_valid(self.coeffs@),
            r.valid(),
        ensures
            v == poly_eval(self.coeffs@, *r),
            v.valid(),
    {
        broadcast use algebra::group_valid;

        let mut eval = self.coeffs[0];
        let mut power = *r;
        let mut i: usize = 1;
        proof {
            let c0 = self.coeffs@[0];
            assert(c0.valid());
            lemma_poly_eval_push(Seq::<F>::empty(), c0, *r);
            assert(Seq::<F>::empty().push(c0) =~= self.coeffs@.subrange(0, 1));
            algebra::lemma_products(c0, c0, c0);
            algebra::lemma_opposites(c0, c0);
            algebra::lemma_products(*r, *r, *r);
            assert(field::power(*r, 1) == field::power(*r, 0).times(*r));
        }
        while i < self.coeffs.len()
            invariant
                1 <= i <= self.coeffs@.len(),
                eval == poly_eval(self.coeffs@.subrange(0, i as int), *r),
                power == field::power(*r, i as nat),
            decreases self.coeffs@.len() - i,
        {
            let c = self.coeffs[i];
            proof {
                assert(self.coeffs@.subrange(0, i as int).push(c) =~= self.coeffs@.subrange(
                    0,
                    i + 1,
                ));
                lemma_poly_eval_push(self.coeffs@.subrange(0, i as int), c, *r);
            }
            eval = eval.add(power.mul(c));
            power = power.mul(*r);
            i = i + 1;
        }
        proof {
            assert(self.coeffs@.subrange(0, i as int) =~= self.coeffs@);
            lemma_poly_eval_valid(self.coeffs@, *r);
        }
        eval
    }
}

pub proof fn lemma_power_of_one<F: Field>(n: nat)
    ensures
        field::power(F::one_elem(), n) == F::one_elem(),
    decreases n,
{
    if n > 0 {
        lemma_power_of_one::<F>((n - 1) as nat);
        F::law_constants();
        F::law_times(F::one_elem(), F::one_elem(), F::one_elem());
    }
}

pub proof fn lemma_eval_at_zero<F: Field>(c: Seq<F>)
    requires
        c.len() > 0,
        field::all_valid(c),
    ensures
        poly_eval(c, F::zero_elem()) == c[0],
    decreases c.len(),
{
    broadcast use algebra::group_valid;

    let z = F::zero_elem();
    let front = c.drop_last();
    let last = c.last();
    assert(front.push(last) =~= c);
    lemma_poly_eval_push(front, last, z);
    assert(c[c.len() - 1].valid());
    if front.len() == 0 {
        algebra::lemma_products(last, last, last);
        algebra::lemma_opposites(last, last);
    } else {
        lemma_eval_at_zero(front);
        let p = field::power(z, (front.len() - 1) as nat);
        algebra::lemma_power_valid(z, (front.len() - 1) as nat);
        algebra::lemma_products(p, p, p);
        algebra::lemma_products(last, last, last);
        F::law_plus(c[0], z, z);
    }
}

/// Law: an interpolating polynomial takes the first two values at zero and one.
pub proof fn law_interpolation_at_zero_and_one<F: Field>(c: Seq<F>, evals: Seq<F>)
    requires
        evals.len() >= 2,
        interpolates(c, evals),
    ensures
        poly_eval(c, F::zero_elem()) == evals[0],
        poly_eval(c, F::one_elem()) == evals[1],
{
    F::law_constants();
    assert(poly_eval(c, F::from_int(0)) == evals[0]);
    assert(poly_eval(c, F::from_int(1)) == evals[1]);
}

} // verus!
