//! The prover's side of the sumcheck for products of two multilinear polynomials.
use vstd::prelude::*;
use vstd::arithmetic::power2::*;
use crate::basefold::challenger::{DuplexChallenger, SpongeField, Transcript};
use crate::basefold::encode;
use crate::basefold::eqpoly;
use crate::basefold::linear;
use crate::basefold::math;
use crate::basefold::mlpoly;
use crate::basefold::mlpoly::MultilinearPolynomial;
use crate::basefold::openings::SumcheckInstanceProof;
use crate::basefold::poseidon::PermutationField;
use crate::basefold::unipoly;
use crate::basefold::unipoly::UniPoly;
use crate::bits;
use crate::field;
use crate::field::algebra;
use crate::field::{ExtensionField, Field};

verus! {

/// Why a sumcheck is refused.
#[derive(Debug, Clone, Copy, PartialEq, Eq, Structural)]
pub enum SumcheckError {
    InvalidProofInput,
    SumcheckRoundInconsistency,
    InconsistencyWithClaimedSum,
    InconsistencyWithEval,
}

impl SumcheckError {
    /// What the error says.
    pub open spec fn text(self) -> Seq<char> {
        match self {
            SumcheckError::InvalidProofInput => "invalid proof input"@,
            SumcheckError::SumcheckRoundInconsistency => "sumcheck round inconsistency"@,
            SumcheckError::InconsistencyWithClaimedSum =>
                "inconsistency of prover message with claimed sum"@,
            SumcheckError::InconsistencyWithEval =>
                "inconsistency of proof with evaluation claim"@,
        }
    }

    /// What the error says.
    pub fn message(&self) -> (r: String)
        ensures
            r@ == self.text(),
    {
        match self {
            SumcheckError::InvalidProofInput => "invalid proof input".to_string(),
            SumcheckError::SumcheckRoundInconsistency => "sumcheck round inconsistency".to_string(),
            SumcheckError::InconsistencyWithClaimedSum => {
                "inconsistency of prover message with claimed sum".to_string()
            },
            SumcheckError::InconsistencyWithEval => {
                "inconsistency of proof with evaluation claim".to_string()
            },
        }
    }
}

/// The sum of the products of the two tables with the last variable bound to `x`.
pub open spec fn bound_dot<F: Field>(f: Seq<F>, e: Seq<F>, x: F) -> F {
    math::dot(mlpoly::bound_bottom(f, x), mlpoly::bound_bottom(e, x))
}

/// The quadratic polynomial of a round: its values at zero and two are the sums with the last
/// variable bound to zero and two, and its values at zero and one add up to the claim.
pub open spec fn is_round_poly<F: Field>(c: Seq<F>, f: Seq<F>, e: Seq<F>, claim: F) -> bool {
    let at_zero = bound_dot(f, e, F::from_int(0));
    &&& c.len() == 3
    &&& field::all_valid(c)
    &&& unipoly::interpolates(
        c,
        seq![at_zero, claim.minus(at_zero), bound_dot(f, e, F::from_int(2))],
    )
}

spec fn first_terms<F: Field>(f: Seq<F>, e: Seq<F>, n: nat) -> F
    decreases n,
{
    if n == 0 {
        F::zero_elem()
    } else {
        first_terms(f, e, (n - 1) as nat).plus(f[2 * n - 2].times(e[2 * n - 2]))
    }
}

spec fn middle_terms<F: Field>(f: Seq<F>, e: Seq<F>, n: nat) -> F
    decreases n,
{
    if n == 0 {
        F::zero_elem()
    } else {
        middle_terms(f, e, (n - 1) as nat).plus(
            f[2 * n - 2].times(e[2 * n - 1].minus(e[2 * n - 2])).plus(
                f[2 * n - 1].minus(f[2 * n - 2]).times(e[2 * n - 2]),
            ),
        )
    }
}

spec fn last_terms<F: Field>(f: Seq<F>, e: Seq<F>, n: nat) -> F
    decreases n,
{
    if n == 0 {
        F::zero_elem()
    } else {
        last_terms(f, e, (n - 1) as nat).plus(
            f[2 * n - 1].minus(f[2 * n - 2]).times(e[2 * n - 1].minus(e[2 * n - 2])),
        )
    }
}

/// `a + r b + r^2 c`.
spec fn quadratic<F: Field>(a: F, b: F, c: F, r: F) -> F {
    a.plus(r.times(b)).plus(r.times(r).times(c))
}

/// `(a + r d) (b + r g)` as a quadratic in `r`.
proof fn lemma_product_quadratic<F: Field>(a: F, d: F, b: F, g: F, r: F)
    requires
        a.valid(),
        d.valid(),
        b.valid(),
        g.valid(),
        r.valid(),
    ensures
        a.plus(r.times(d)).times(b.plus(r.times(g))) == quadratic(
            a.times(b),
            a.times(g).plus(d.times(b)),
            d.times(g),
            r,
        ),
{
    broadcast use algebra::group_valid;

    let rd = r.times(d);
    let rg = r.times(g);
    // (a + rd)(b + rg) == (a b + rd b) + (a rg + rd rg)
    algebra::lemma_products(a.plus(rd), b, rg);
    algebra::lemma_products(b, a, rd);
    algebra::lemma_products(rg, a, rd);
    let ab = a.times(b);
    let rdb = rd.times(b);
    let arg = a.times(rg);
    let rdrg = rd.times(rg);
    // rd b == r (d b), a rg == r (a g), rd rg == (r r)(d g)
    F::law_times(r, d, b);
    F::law_times(a, r, g);
    F::law_times(r, a, g);
    algebra::lemma_products(a, r, g);
    F::law_times(r, d, rg);
    F::law_times(d, r, g);
    F::law_times(r, d, g);
    algebra::lemma_products(d, r, g);
    F::law_times(r, r, d.times(g));
    assert(arg == r.times(a.times(g)));
    assert(rdrg == r.times(r).times(d.times(g))) by {
        assert(rdrg == r.times(d.times(rg)));
        assert(d.times(rg) == r.times(d.times(g)));
    }
    // (ab + rdb) + (arg + rdrg) == (ab + (arg + rdb)) + rdrg
    F::law_plus(ab, rdb, arg.plus(rdrg));
    F::law_plus(rdb, arg, rdrg);
    F::law_plus(arg, rdb, rdrg);
    F::law_plus(ab, arg.plus(rdb), rdrg);
    F::law_times(r, a.times(g), d.times(b));
}

/// Quadratics add up coefficient by coefficient.
proof fn lemma_quadratic_sum<F: Field>(a: F, b: F, c: F, x: F, y: F, z: F, r: F)
    requires
        a.valid(),
        b.valid(),
        c.valid(),
        x.valid(),
        y.valid(),
        z.valid(),
        r.valid(),
    ensures
        quadratic(a, b, c, r).plus(quadratic(x, y, z, r)) == quadratic(
            a.plus(x),
            b.plus(y),
            c.plus(z),
            r,
        ),
{
    broadcast use algebra::group_valid;

    let s = r.times(r);
    let rb = r.times(b);
    let sc = s.times(c);
    let ry = r.times(y);
    let sz = s.times(z);
    F::law_times(r, b, y);
    F::law_times(s, c, z);
    // ((a + rb) + sc) + ((x + ry) + sz)
    let p = a.plus(rb);
    let q = x.plus(ry);
    lemma_four(p, sc, q, sz);
    lemma_four(a, rb, x, ry);
}

/// `(a + b) + (c + d) == (a + c) + (b + d)`.
proof fn lemma_four<F: Field>(a: F, b: F, c: F, d: F)
    requires
        a.valid(),
        b.valid(),
        c.valid(),
        d.valid(),
    ensures
        a.plus(b).plus(c.plus(d)) == a.plus(c).plus(b.plus(d)),
{
    broadcast use algebra::group_valid;

    F::law_plus(a, b, c.plus(d));
    F::law_plus(b, c, d);
    F::law_plus(c, b, d);
    F::law_plus(a, c, b.plus(d));
}

/// The sum with the last variable bound is a quadratic in what it is bound to.
proof fn lemma_bound_quadratic<F: Field>(f: Seq<F>, e: Seq<F>, r: F, n: nat)
    requires
        f.len() == e.len(),
        2 * n <= f.len(),
        field::all_valid(f),
        field::all_valid(e),
        r.valid(),
    ensures
        first_terms(f, e, n).valid(),
        middle_terms(f, e, n).valid(),
        last_terms(f, e, n).valid(),
        math::dot(
            mlpoly::bound_bottom(f, r).take(n as int),
            mlpoly::bound_bottom(e, r).take(n as int),
        ) == quadratic(first_terms(f, e, n), middle_terms(f, e, n), last_terms(f, e, n), r),
    decreases n,
{
    broadcast use algebra::group_valid;

    F::law_constants();
    let zero = F::zero_elem();
    if n == 0 {
        algebra::lemma_products(r, r, r);
        algebra::lemma_products(r.times(r), r, r);
        F::law_plus(zero, zero, zero);
    } else {
        let m = (n - 1) as nat;
        lemma_bound_quadratic(f, e, r, m);
        let bf = mlpoly::bound_bottom(f, r);
        let be = mlpoly::bound_bottom(e, r);
        assert(bf.take(n as int).drop_last() =~= bf.take(m as int));
        assert(be.take(n as int).drop_last() =~= be.take(m as int));
        let a = f[2 * n - 2];
        let d = f[2 * n - 1].minus(a);
        let b = e[2 * n - 2];
        let g = e[2 * n - 1].minus(b);
        assert(a.valid() && b.valid() && f[2 * n - 1].valid() && e[2 * n - 1].valid());
        assert(bf[n - 1] == a.plus(r.times(d)));
        assert(be[n - 1] == b.plus(r.times(g)));
        lemma_product_quadratic(a, d, b, g, r);
        lemma_quadratic_sum(
            first_terms(f, e, m),
            middle_terms(f, e, m),
            last_terms(f, e, m),
            a.times(b),
            a.times(g).plus(d.times(b)),
            d.times(g),
            r,
        );
    }
}

/// A quadratic by its coefficients.
proof fn lemma_poly_quadratic<F: Field>(c: Seq<F>, r: F)
    requires
        c.len() == 3,
        field::all_valid(c),
        r.valid(),
    ensures
        unipoly::poly_eval(c, r) == quadratic(c[0], c[1], c[2], r),
{
    broadcast use algebra::group_valid;

    F::law_constants();
    let zero = F::zero_elem();
    assert(c[0].valid() && c[1].valid() && c[2].valid());
    let empty = Seq::<F>::empty();
    unipoly::lemma_poly_eval_push(empty, c[0], r);
    unipoly::lemma_poly_eval_push(empty.push(c[0]), c[1], r);
    unipoly::lemma_poly_eval_push(empty.push(c[0]).push(c[1]), c[2], r);
    assert(empty.push(c[0]).push(c[1]).push(c[2]) =~= c);
    reveal_with_fuel(field::power, 3);
    algebra::lemma_products(c[0], c[0], c[0]);
    algebra::lemma_products(r, r, r);
    algebra::lemma_opposites(c[0], c[0]);
    assert(unipoly::poly_eval(empty, r) == zero);
}

/// Quadratics that agree at zero, one and two have the same coefficients.
proof fn lemma_quadratics_agree<F: Field>(a: F, b: F, c: F, x: F, y: F, z: F)
    requires
        a.valid(),
        b.valid(),
        c.valid(),
        x.valid(),
        y.valid(),
        z.valid(),
        quadratic(a, b, c, F::from_int(0)) == quadratic(x, y, z, F::from_int(0)),
        quadratic(a, b, c, F::from_int(1)) == quadratic(x, y, z, F::from_int(1)),
        quadratic(a, b, c, F::from_int(2)) == quadratic(x, y, z, F::from_int(2)),
    ensures
        a == x,
        b == y,
        c == z,
{
    broadcast use algebra::group_valid;

    F::law_constants();
    let zero = F::zero_elem();
    let one = F::one_elem();
    let two = F::from_int(2);
    algebra::lemma_two_unit::<F>();
    // At zero.
    lemma_at_zero(a, b, c);
    lemma_at_zero(x, y, z);
    // At one: a + (b + c).
    lemma_at_one(a, b, c);
    lemma_at_one(x, y, z);
    algebra::lemma_plus_cancel(a, b.plus(c), y.plus(z));
    // At two: a + two (b + (c + c)).
    lemma_at_two(a, b, c);
    lemma_at_two(x, y, z);
    let u = b.plus(c.plus(c));
    let v = y.plus(z.plus(z));
    algebra::lemma_plus_cancel(a, two.times(u), two.times(v));
    algebra::lemma_unit(two);
    let h = field::inverse(two);
    F::law_times(h, two, u);
    F::law_times(h, two, v);
    algebra::lemma_products(u, u, u);
    algebra::lemma_products(v, v, v);
    assert(u == v);
    F::law_plus(b, c, c);
    F::law_plus(y, z, z);
    algebra::lemma_plus_cancel(b.plus(c), c, z);
    F::law_plus(b, c, c);
    F::law_plus(c, b, b);
    F::law_plus(z, y, y);
    F::law_plus(y, z, z);
    algebra::lemma_plus_cancel(c, b, y);
}

proof fn lemma_at_zero<F: Field>(a: F, b: F, c: F)
    requires
        a.valid(),
        b.valid(),
        c.valid(),
    ensures
        quadratic(a, b, c, F::from_int(0)) == a,
{
    broadcast use algebra::group_valid;

    F::law_constants();
    let zero = F::zero_elem();
    algebra::lemma_products(b, b, b);
    algebra::lemma_products(c, c, c);
    algebra::lemma_products(zero, zero, zero);
    F::law_plus(a, zero, zero);
}

proof fn lemma_at_one<F: Field>(a: F, b: F, c: F)
    requires
        a.valid(),
        b.valid(),
        c.valid(),
    ensures
        quadratic(a, b, c, F::from_int(1)) == a.plus(b.plus(c)),
{
    broadcast use algebra::group_valid;

    F::law_constants();
    algebra::lemma_products(b, b, b);
    algebra::lemma_products(c, c, c);
    algebra::lemma_products(F::one_elem(), F::one_elem(), F::one_elem());
    F::law_plus(a, b, c);
}

proof fn lemma_at_two<F: Field>(a: F, b: F, c: F)
    requires
        a.valid(),
        b.valid(),
        c.valid(),
    ensures
        quadratic(a, b, c, F::from_int(2)) == a.plus(
            F::from_int(2).times(b.plus(c.plus(c))),
        ),
{
    broadcast use algebra::group_valid;

    let two = F::from_int(2);
    algebra::lemma_two_unit::<F>();
    F::law_times(two, two, c);
    algebra::lemma_double(c);
    F::law_times(two, b, c.plus(c));
    F::law_plus(a, two.times(b), two.times(c.plus(c)));
}

/// The two tables split into the parts where the last variable is zero and one.
pub(crate) proof fn lemma_split_dot<F: Field>(f: Seq<F>, e: Seq<F>, n: nat)
    requires
        f.len() == e.len(),
        2 * n <= f.len(),
        field::all_valid(f),
        field::all_valid(e),
    ensures
        math::dot(f.take(2 * n as int), e.take(2 * n as int)) == math::dot(
            mlpoly::bound_bottom(f, F::from_int(0)).take(n as int),
            mlpoly::bound_bottom(e, F::from_int(0)).take(n as int),
        ).plus(
            math::dot(
                mlpoly::bound_bottom(f, F::from_int(1)).take(n as int),
                mlpoly::bound_bottom(e, F::from_int(1)).take(n as int),
            ),
        ),
    decreases n,
{
    broadcast use algebra::group_valid;

    F::law_constants();
    let zero = F::zero_elem();
    if n == 0 {
        F::law_plus(zero, zero, zero);
    } else {
        let m = (n - 1) as nat;
        lemma_split_dot(f, e, m);
        let f0 = mlpoly::bound_bottom(f, F::from_int(0));
        let e0 = mlpoly::bound_bottom(e, F::from_int(0));
        let f1 = mlpoly::bound_bottom(f, F::from_int(1));
        let e1 = mlpoly::bound_bottom(e, F::from_int(1));
        assert(f0.take(n as int).drop_last() =~= f0.take(m as int));
        assert(e0.take(n as int).drop_last() =~= e0.take(m as int));
        assert(f1.take(n as int).drop_last() =~= f1.take(m as int));
        assert(e1.take(n as int).drop_last() =~= e1.take(m as int));
        let tf = f.take(2 * n as int);
        let te = e.take(2 * n as int);
        assert(tf.drop_last().drop_last() =~= f.take(2 * m as int));
        assert(te.drop_last().drop_last() =~= e.take(2 * m as int));
        lemma_lerp_ends(f[2 * n - 2], f[2 * n - 1]);
        lemma_lerp_ends(e[2 * n - 2], e[2 * n - 1]);
        let s0 = math::dot(f0.take(m as int), e0.take(m as int));
        let s1 = math::dot(f1.take(m as int), e1.take(m as int));
        linear::lemma_dot_valid(f0.take(m as int), e0.take(m as int));
        linear::lemma_dot_valid(f1.take(m as int), e1.take(m as int));
        let p = f[2 * n - 2].times(e[2 * n - 2]);
        let q = f[2 * n - 1].times(e[2 * n - 1]);
        assert(f0[n - 1] == f[2 * n - 2] && e0[n - 1] == e[2 * n - 2]);
        assert(f1[n - 1] == f[2 * n - 1] && e1[n - 1] == e[2 * n - 1]);
        assert(tf.last() == f[2 * n - 1] && te.last() == e[2 * n - 1]);
        assert(tf.drop_last().last() == f[2 * n - 2] && te.drop_last().last() == e[2 * n - 2]);
        reveal_with_fuel(math::dot, 3);
        // ((s0 + s1) + p) + q == (s0 + p) + (s1 + q)
        F::law_plus(s0.plus(s1), p, q);
        lemma_four(s0, s1, p, q);
    }
}

/// The ends of a line.
pub(crate) proof fn lemma_lerp_ends<F: Field>(a: F, b: F)
    requires
        a.valid(),
        b.valid(),
    ensures
        mlpoly::lerp(a, b, F::from_int(0)) == a,
        mlpoly::lerp(a, b, F::from_int(1)) == b,
        mlpoly::lerp(a, b, F::from_int(2)) == b.plus(b).minus(a),
{
    broadcast use algebra::group_valid;

    F::law_constants();
    let d = b.minus(a);
    algebra::lemma_products(d, d, d);
    F::law_plus(a, F::zero_elem(), a);
    algebra::lemma_opposites(b, a);
    F::law_plus(a, d, a);
    F::law_plus(d, a, a);
    // a + 2 d == (a + d) + d == b + (b - a) == (b + b) - a
    algebra::lemma_double(d);
    F::law_plus(a, d, d);
    algebra::lemma_regroup(b, b, a);
}

/// The polynomial of a round whose claim is the sum of the products takes, everywhere, the sum with
/// the last variable bound.
pub proof fn law_round_poly<F: Field>(c: Seq<F>, f: Seq<F>, e: Seq<F>, claim: F, r: F)
    requires
        f.len() == e.len(),
        f.len() % 2 == 0,
        f.len() > 0,
        field::all_valid(f),
        field::all_valid(e),
        is_round_poly(c, f, e, claim),
        claim == math::dot(f, e),
        r.valid(),
    ensures
        unipoly::poly_eval(c, r) == bound_dot(f, e, r),
{
    broadcast use algebra::group_valid;

    let n = f.len() / 2;
    F::law_constants();
    F::law_from_int(0, 0);
    F::law_from_int(1, 0);
    F::law_from_int(2, 0);
    let i0 = F::from_int(0);
    let i1 = F::from_int(1);
    let i2 = F::from_int(2);
    lemma_bound_quadratic(f, e, i0, n);
    lemma_bound_quadratic(f, e, i1, n);
    lemma_bound_quadratic(f, e, i2, n);
    lemma_bound_quadratic(f, e, r, n);
    assert forall|x: F, g: Seq<F>|
        g.len() == f.len() implies #[trigger] mlpoly::bound_bottom(g, x).take(n as int)
        == mlpoly::bound_bottom(g, x) by {
        assert(mlpoly::bound_bottom(g, x).take(n as int) =~= mlpoly::bound_bottom(g, x));
    }
    lemma_split_dot(f, e, n);
    assert(f.take(2 * n as int) =~= f);
    assert(e.take(2 * n as int) =~= e);
    let d0 = bound_dot(f, e, i0);
    let d1 = bound_dot(f, e, i1);
    let d2 = bound_dot(f, e, i2);
    linear::lemma_dot_valid(mlpoly::bound_bottom(f, i0), mlpoly::bound_bottom(e, i0));
    linear::lemma_dot_valid(mlpoly::bound_bottom(f, i1), mlpoly::bound_bottom(e, i1));
    assert(claim == d0.plus(d1));
    // claim - d0 == d1
    F::law_plus(d0, d1, d1);
    algebra::lemma_opposites(d1, d0);
    let evals = seq![d0, claim.minus(d0), d2];
    assert(unipoly::poly_eval(c, F::from_int(0)) == evals[0]);
    assert(unipoly::poly_eval(c, F::from_int(1)) == evals[1]);
    assert(unipoly::poly_eval(c, F::from_int(2)) == evals[2]);
    lemma_poly_quadratic(c, i0);
    lemma_poly_quadratic(c, i1);
    lemma_poly_quadratic(c, i2);
    lemma_poly_quadratic(c, r);
    lemma_quadratics_agree(
        c[0],
        c[1],
        c[2],
        first_terms(f, e, n),
        middle_terms(f, e, n),
        last_terms(f, e, n),
    );
}

/// A table times a number.
pub open spec fn scaled<F: Field>(x: F, a: Seq<F>) -> Seq<F> {
    Seq::new(a.len(), |i: int| x.times(a[i]))
}

/// Binding the last variable of the equality polynomial takes off its factor.
pub proof fn law_eq_table_bound<F: Field>(point: Seq<F>, x: F, r: F)
    requires
        point.len() > 0,
        field::all_valid(point),
        x.valid(),
        r.valid(),
    ensures
        mlpoly::bound_bottom(scaled(x, eqpoly::eq_table(point)), r) == scaled(
            x.times(eqpoly::eq_factor(point.last(), r)),
            eqpoly::eq_table(point.drop_last()),
        ),
{
    broadcast use algebra::group_valid;

    let n = point.len();
    lemma_pow2_unfold(n);
    let table = scaled(x, eqpoly::eq_table(point));
    let left = mlpoly::bound_bottom(table, r);
    let p = point.last();
    let right = scaled(
        x.times(eqpoly::eq_factor(p, r)),
        eqpoly::eq_table(point.drop_last()),
    );
    assert(left.len() == right.len());
    F::law_constants();
    assert forall|i: int| 0 <= i < left.len() implies left[i] == right[i] by {
        let rest = point.drop_last();
        let v = eqpoly::eq_at(rest, i as nat);
        eqpoly::lemma_eq_at_valid(rest, i as nat);
        assert((2 * i) as nat / 2 == i as nat && (2 * i) as nat % 2 == 0);
        assert((2 * i + 1) as nat / 2 == i as nat && (2 * i + 1) as nat % 2 == 1);
        let one = F::one_elem();
        let np = one.minus(p);
        let a = x.times(v.times(np));
        let b = x.times(v.times(p));
        assert(table[2 * i] == a && table[2 * i + 1] == b);
        // a + r (b - a) == (x v) (np + r (p - np))
        let xv = x.times(v);
        F::law_times(x, v, np);
        F::law_times(x, v, p);
        algebra::lemma_products(xv, p, np);
        F::law_times(r, xv, p.minus(np));
        F::law_times(xv, r, p.minus(np));
        algebra::lemma_products(r, xv, xv);
        F::law_times(xv, np, r.times(p.minus(np)));
        lemma_factor_line(p, r);
        let g = eqpoly::eq_factor(p, r);
        // (x v) g == (x g) v
        algebra::lemma_products(x, v, g);
    }
    assert(left =~= right);
}

/// `(1 - p) + r (p - (1 - p))` is the factor of the equality polynomial.
proof fn lemma_factor_line<F: Field>(p: F, r: F)
    requires
        p.valid(),
        r.valid(),
    ensures
        F::one_elem().minus(p).plus(r.times(p.minus(F::one_elem().minus(p)))) == eqpoly::eq_factor(
            p,
            r,
        ),
{
    broadcast use algebra::group_valid;

    F::law_constants();
    let one = F::one_elem();
    let np = one.minus(p);
    // r (p - np) == r p - r np
    algebra::lemma_products(r, p, np);
    algebra::lemma_products(p, r, r);
    algebra::lemma_products(np, one, r);
    let rp = r.times(p);
    let rn = r.times(np);
    // p r + np (1 - r) == p r + (np - np r)
    algebra::lemma_products(np, r, r);
    algebra::lemma_regroup(np, rp, rn);
    algebra::lemma_regroup(rp, np, rn);
    F::law_plus(np, rp.minus(rn), np);
    algebra::lemma_regroup(np, rp, rn);
}

/// What a sumcheck leaves after the rounds of the given polynomials.
#[verifier::ext_equal]
pub struct SumState<F, EF> {
    pub transcript: Transcript<F>,
    pub f: Seq<EF>,
    pub e: Seq<EF>,
    pub claim: EF,
    pub challenges: Seq<EF>,
}

/// The state after the polynomial of a round was observed and the last variable bound to the
/// challenge.
pub open spec fn sum_step<F: PermutationField, EF: ExtensionField<F>>(
    s: SumState<F, EF>,
    poly: Seq<EF>,
) -> SumState<F, EF> {
    let t = s.transcript.observed_exts(poly);
    let r = t.next_ext::<EF>();
    SumState {
        transcript: t.sampled_ext::<EF>(),
        f: mlpoly::bound_bottom(s.f, r),
        e: mlpoly::bound_bottom(s.e, r),
        claim: unipoly::poly_eval(poly, r),
        challenges: s.challenges.push(r),
    }
}

/// The state after the rounds of the first `n` polynomials.
pub open spec fn sum_after<F: PermutationField, EF: ExtensionField<F>>(
    s: SumState<F, EF>,
    polys: Seq<Seq<EF>>,
    n: nat,
) -> SumState<F, EF>
    decreases n,
{
    if n == 0 {
        s
    } else {
        sum_step(sum_after(s, polys, (n - 1) as nat), polys[n - 1])
    }
}

/// Each polynomial is that of its round.
pub open spec fn rounds_proved<F: PermutationField, EF: ExtensionField<F>>(
    s: SumState<F, EF>,
    polys: Seq<Seq<EF>>,
) -> bool {
    forall|i: int|
        0 <= i < polys.len() ==> {
            let before = sum_after(s, polys, i as nat);
            is_round_poly(#[trigger] polys[i], before.f, before.e, before.claim)
        }
}

/// The coefficients of the polynomials.
pub open spec fn coefficients<EF>(polys: Seq<UniPoly<EF>>) -> Seq<Seq<EF>> {
    Seq::new(polys.len(), |i: int| polys[i].coeffs@)
}

proof fn lemma_sum_after_prefix<F: PermutationField, EF: ExtensionField<F>>(
    s: SumState<F, EF>,
    a: Seq<Seq<EF>>,
    b: Seq<Seq<EF>>,
    n: nat,
)
    requires
        n <= a.len(),
        n <= b.len(),
        forall|i: int| 0 <= i < n ==> a[i] == b[i],
    ensures
        sum_after(s, a, n) == sum_after(s, b, n),
    decreases n,
{
    if n > 0 {
        lemma_sum_after_prefix(s, a, b, (n - 1) as nat);
    }
}

fn even_sums<EF: Field>(f: &Vec<EF>, e: &Vec<EF>) -> (r: (EF, EF))
    requires
        f@.len() == e@.len(),
        field::all_valid(f@),
        field::all_valid(e@),
    ensures
        r.0 == bound_dot(f@, e@, EF::from_int(0)),
        r.1 == bound_dot(f@, e@, EF::from_int(2)),
        r.0.valid(),
        r.1.valid(),
{
    let n: usize = f.len() / 2;
    let ghost f0 = mlpoly::bound_bottom(f@, EF::from_int(0));
    let ghost e0 = mlpoly::bound_bottom(e@, EF::from_int(0));
    let ghost f2 = mlpoly::bound_bottom(f@, EF::from_int(2));
    let ghost e2 = mlpoly::bound_bottom(e@, EF::from_int(2));
    let mut a = EF::zero();
    let mut b = EF::zero();
    let mut i: usize = 0;
    while i < n
        invariant
            i <= n,
            n == f@.len() / 2,
            f@.len() == e@.len(),
            f@.len() <= usize::MAX,
            field::all_valid(f@),
            field::all_valid(e@),
            f0 == mlpoly::bound_bottom(f@, EF::from_int(0)),
            e0 == mlpoly::bound_bottom(e@, EF::from_int(0)),
            f2 == mlpoly::bound_bottom(f@, EF::from_int(2)),
            e2 == mlpoly::bound_bottom(e@, EF::from_int(2)),
            a == math::dot(f0.take(i as int), e0.take(i as int)),
            b == math::dot(f2.take(i as int), e2.take(i as int)),
        decreases n - i,
    {
        let fe = f[2 * i];
        let fo = f[2 * i + 1];
        let ee = e[2 * i];
        let eo = e[2 * i + 1];
        proof {
            lemma_lerp_ends(fe, fo);
            lemma_lerp_ends(ee, eo);
            assert(f0.take(i + 1).drop_last() =~= f0.take(i as int));
            assert(e0.take(i + 1).drop_last() =~= e0.take(i as int));
            assert(f2.take(i + 1).drop_last() =~= f2.take(i as int));
            assert(e2.take(i + 1).drop_last() =~= e2.take(i as int));
        }
        a = a.add(fe.mul(ee));
        b = b.add(fo.add(fo).sub(fe).mul(eo.add(eo).sub(ee)));
        i += 1;
    }
    proof {
        assert(f0.take(n as int) =~= f0);
        assert(e0.take(n as int) =~= e0);
        assert(f2.take(n as int) =~= f2);
        assert(e2.take(n as int) =~= e2);
        linear::lemma_dot_valid(f0, e0);
        linear::lemma_dot_valid(f2, e2);
    }
    (a, b)
}

/// One round: the polynomial of the round is observed, and the last variable bound to the
/// challenge.
pub fn prove_round<F: SpongeField, EF: ExtensionField<F>>(
    claim: &EF,
    f: &mut MultilinearPolynomial<EF>,
    e: &mut MultilinearPolynomial<EF>,
    transcript: &mut DuplexChallenger<F>,
) -> (r: (UniPoly<EF>, EF))
    requires
        old(transcript)@.wf(),
        old(f).wf(),
        old(e).wf(),
        old(f).evals@.len() == old(e).evals@.len(),
        old(f).evals@.len() >= 2,
        field::all_valid(old(f).evals@),
        field::all_valid(old(e).evals@),
        claim.valid(),
    ensures
        is_round_poly(r.0.coeffs@, old(f).evals@, old(e).evals@, *claim),
        r.1 == old(transcript)@.observed_exts(r.0.coeffs@).next_ext::<EF>(),
        r.1.valid(),
        final(transcript)@ == old(transcript)@.observed_exts(r.0.coeffs@).sampled_ext::<EF>(),
        final(transcript)@.wf(),
        final(f).evals@ == mlpoly::bound_bottom(old(f).evals@, r.1),
        final(e).evals@ == mlpoly::bound_bottom(old(e).evals@, r.1),
        final(f).wf(),
        final(e).wf(),
        field::all_valid(final(f).evals@),
        field::all_valid(final(e).evals@),
{
    broadcast use algebra::group_valid;

    let (eval_0, eval_2) = even_sums(&f.evals, &e.evals);
    let eval_1 = claim.sub(eval_0);
    let evals = vec![eval_0, eval_1, eval_2];
    proof {
        EF::law_constants();
        assert(evals@ =~= seq![eval_0, eval_1, eval_2]);
    }
    let poly = UniPoly::from_evals(evals.as_slice());
    transcript.observe_ext_elements(&poly.coeffs);
    let r: EF = transcript.sample_ext_element();
    proof {
        encode::lemma_bound_bottom_valid(f.evals@, r);
        encode::lemma_bound_bottom_valid(e.evals@, r);
    }
    f.bound_poly_var_bottom(&r);
    e.bound_poly_var_bottom(&r);
    (poly, r)
}

impl<EF> SumcheckInstanceProof<EF> {
    /// Runs rounds of the sumcheck for the sum of the products of two multilinear polynomials. In
    /// each round the values at zero and two are computed and the value at one follows from the
    /// claim. Returns the polynomials, the challenges and the first values of what remains.
    pub fn sumcheck_prove_normal_round<F: SpongeField>(
        claim: &EF,
        num_rounds: usize,
        f: &mut MultilinearPolynomial<EF>,
        e: &mut MultilinearPolynomial<EF>,
        transcript: &mut DuplexChallenger<F>,
    ) -> (r: (SumcheckInstanceProof<EF>, Vec<EF>, (EF, EF))) where EF: ExtensionField<F>
        requires
            old(transcript)@.wf(),
            old(f).wf(),
            old(e).wf(),
            old(f).evals@.len() == old(e).evals@.len(),
            bits::log2(old(f).evals@.len()) >= num_rounds,
            field::all_valid(old(f).evals@),
            field::all_valid(old(e).evals@),
            claim.valid(),
        ensures
            r.0.uni_polys@.len() == num_rounds,
            ({
                let start = SumState {
                    transcript: old(transcript)@,
                    f: old(f).evals@,
                    e: old(e).evals@,
                    claim: *claim,
                    challenges: Seq::empty(),
                };
                let polys = coefficients(r.0.uni_polys@);
                let end = sum_after(start, polys, num_rounds as nat);
                &&& rounds_proved(start, polys)
                &&& final(transcript)@ == end.transcript
                &&& final(f).evals@ == end.f
                &&& final(e).evals@ == end.e
                &&& r.1@ == end.challenges
                &&& r.2.0 == end.f[0]
                &&& r.2.1 == end.e[0]
            }),
            final(transcript)@.wf(),
    {
        broadcast use algebra::group_valid;

        let ghost start = SumState {
            transcript: transcript@,
            f: f.evals@,
            e: e.evals@,
            claim: *claim,
            challenges: Seq::empty(),
        };
        let ghost vars = bits::log2(f.evals@.len());
        let mut polys: Vec<UniPoly<EF>> = Vec::new();
        let mut challenges: Vec<EF> = Vec::new();
        let mut running = *claim;
        let mut i: usize = 0;
        assert(challenges@ =~= Seq::empty());
        proof {
            bits::lemma_log2_pow2(vars);
        }
        while i < num_rounds
            invariant
                i <= num_rounds <= vars,
                polys@.len() == i,
                transcript@.wf(),
                f.wf(),
                e.wf(),
                f.evals@.len() == e.evals@.len() == pow2((vars - i) as nat),
                field::all_valid(f.evals@),
                field::all_valid(e.evals@),
                running.valid(),
                rounds_proved(start, coefficients(polys@)),
                sum_after(start, coefficients(polys@), i as nat) == (SumState {
                    transcript: transcript@,
                    f: f.evals@,
                    e: e.evals@,
                    claim: running,
                    challenges: challenges@,
                }),
            decreases num_rounds - i,
        {
            let ghost before = coefficients(polys@);
            proof {
                lemma_pow2_unfold((vars - i) as nat);
                lemma_pow2_pos((vars - i - 1) as nat);
            }
            let (poly, r) = prove_round(&running, f, e, transcript);
            running = poly.evaluate(&r);
            let ghost added = poly.coeffs@;
            polys.push(poly);
            challenges.push(r);
            i += 1;
            proof {
                let after = coefficients(polys@);
                assert forall|j: int| 0 <= j < before.len() implies after[j] == before[j] by {}
                assert(after[i - 1] == added);
                lemma_sum_after_prefix(start, before, after, (i - 1) as nat);
                assert forall|j: int| 0 <= j < after.len() implies ({
                    let s = sum_after(start, after, j as nat);
                    is_round_poly(#[trigger] after[j], s.f, s.e, s.claim)
                }) by {
                    lemma_sum_after_prefix(start, before, after, j as nat);
                    if j < i - 1 {
                        assert(before[j] == after[j]);
                    }
                }
            }
        }
        proof {
            lemma_pow2_pos((vars - num_rounds) as nat);
        }
        let last_f = f.evals[0];
        let last_e = e.evals[0];
        (SumcheckInstanceProof::new(polys), challenges, (last_f, last_e))
    }
}

} // verus!
