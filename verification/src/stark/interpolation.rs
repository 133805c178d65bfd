//! Interpolation at given nodes.
use vstd::prelude::*;
use crate::basefold::linear;
use crate::basefold::math;
use crate::basefold::unipoly;
use crate::field;
use crate::field::algebra;
use crate::field::Field;
use crate::stark::lagrange;

verus! {

/// A polynomial by its coefficients, from the lowest.
#[derive(Debug, Clone)]
pub struct UnivariatePolynomial<F> {
    pub coefficients: Vec<F>,
}

/// The nodes are canonical and distinct.
pub open spec fn are_nodes<F: Field>(xs: Seq<F>) -> bool {
    &&& field::all_valid(xs)
    &&& forall|i: int, j: int|
        0 <= i < j < xs.len() ==> #[trigger] xs[i] != #[trigger] xs[j]
}

/// The product of the differences of `x` to the first `k` nodes without the node `i`.
pub open spec fn node_product<F: Field>(xs: Seq<F>, i: int, k: nat, x: F) -> F
    decreases k,
{
    if k == 0 {
        F::one_elem()
    } else {
        let before = node_product(xs, i, (k - 1) as nat, x);
        if k - 1 == i {
            before
        } else {
            before.times(x.minus(xs[k - 1]))
        }
    }
}

pub proof fn lemma_node_product_valid<F: Field>(xs: Seq<F>, i: int, k: nat, x: F)
    ensures
        node_product(xs, i, k, x).valid(),
    decreases k,
{
    broadcast use algebra::group_valid;

    F::law_constants();
    if k > 0 {
        lemma_node_product_valid(xs, i, (k - 1) as nat, x);
    }
}

/// The product vanishes at the other nodes.
pub proof fn lemma_node_product_zero<F: Field>(xs: Seq<F>, i: int, k: nat, p: int)
    requires
        field::all_valid(xs),
        0 <= p < k <= xs.len(),
        p != i,
    ensures
        node_product(xs, i, k, xs[p]) == F::zero_elem(),
    decreases k,
{
    broadcast use algebra::group_valid;

    let before = node_product(xs, i, (k - 1) as nat, xs[p]);
    lemma_node_product_valid(xs, i, (k - 1) as nat, xs[p]);
    assert(xs[p].valid());
    algebra::lemma_opposites(xs[p], xs[p]);
    algebra::lemma_products(before, before, before);
    if p == k - 1 {
        assert(xs[p].minus(xs[p]) == F::zero_elem());
    } else {
        lemma_node_product_zero(xs, i, (k - 1) as nat, p);
        if k - 1 != i {
            assert(xs[k - 1].valid());
            F::law_constants();
            algebra::lemma_products(xs[p].minus(xs[k - 1]), before, before);
        }
    }
}

/// The coefficients multiplied by `x - a`.
pub open spec fn times_root<F: Field>(c: Seq<F>, a: F) -> Seq<F> {
    Seq::new(
        c.len() + 1,
        |i: int|
            {
                let up = if i == 0 {
                    F::zero_elem()
                } else {
                    c[i - 1]
                };
                let here = if i == c.len() {
                    F::zero_elem()
                } else {
                    c[i]
                };
                F::one_elem().times(up).plus(a.opposite().times(here))
            },
    )
}

pub proof fn lemma_times_root<F: Field>(c: Seq<F>, a: F, x: F)
    requires
        field::all_valid(c),
        a.valid(),
        x.valid(),
    ensures
        unipoly::poly_eval(times_root(c, a), x) == unipoly::poly_eval(c, x).times(x.minus(a)),
        field::all_valid(times_root(c, a)),
{
    broadcast use algebra::group_valid;

    F::law_constants();
    let zero = F::zero_elem();
    let one = F::one_elem();
    let up = seq![zero] + c;
    let here = c.push(zero);
    let all = times_root(c, a);
    assert(all =~= linear::combined(one, up, a.opposite(), here));
    linear::lemma_combined_valid(one, up, a.opposite(), here);
    assert forall|i: int| 0 <= i < up.len() implies (#[trigger] up[i]).valid() by {
        if i > 0 {
            assert(up[i] == c[i - 1]);
        }
    }
    assert forall|i: int| 0 <= i < here.len() implies (#[trigger] here[i]).valid() by {
        if i < c.len() {
            assert(here[i] == c[i]);
        }
    }
    lemma_eval_combined(one, up, a.opposite(), here, x);
    unipoly::lemma_poly_eval_shift(c, x);
    unipoly::lemma_poly_eval_push(c, zero, x);
    let v = unipoly::poly_eval(c, x);
    unipoly::lemma_poly_eval_valid(c, x);
    algebra::lemma_power_valid(x, c.len());
    algebra::lemma_products(field::power(x, c.len()), zero, zero);
    algebra::lemma_opposites(v, v);
    algebra::lemma_products(x.times(v), v, v);
    // x v + (-a) v = v (x - a).
    F::law_plus(x, a, a);
    F::law_plus(v, v, v);
    algebra::lemma_products(x, v, v);
    algebra::lemma_products(a.opposite(), v, v);
    assert(unipoly::poly_eval(here, x) == v);
    assert(unipoly::poly_eval(up, x) == x.times(v));
    algebra::lemma_products(v, x, a.opposite());
}

/// The value of a combination of polynomials.
pub proof fn lemma_eval_combined<F: Field>(p: F, a: Seq<F>, q: F, b: Seq<F>, x: F)
    requires
        a.len() == b.len(),
        field::all_valid(a),
        field::all_valid(b),
        p.valid(),
        q.valid(),
        x.valid(),
    ensures
        unipoly::poly_eval(linear::combined(p, a, q, b), x) == p.times(
            unipoly::poly_eval(a, x),
        ).plus(q.times(unipoly::poly_eval(b, x))),
{
    let w = unipoly::powers(x, a.len());
    unipoly::lemma_powers_valid(x, a.len());
    linear::lemma_combined_valid(p, a, q, b);
    unipoly::lemma_dot_commutes(w, linear::combined(p, a, q, b));
    unipoly::lemma_dot_commutes(w, a);
    unipoly::lemma_dot_commutes(w, b);
    linear::lemma_dot_combined(p, a, q, b, w);
}

fn multiply_root<F: Field>(c: &Vec<F>, a: F) -> (r: Vec<F>)
    requires
        c@.len() < usize::MAX,
    ensures
        r@ == times_root(c@, a),
{
    let n: usize = c.len();
    let mut r: Vec<F> = Vec::new();
    let mut i: usize = 0;
    while i < n + 1
        invariant
            i <= n + 1,
            n == c@.len(),
            n < usize::MAX,
            r@.len() == i,
            forall|j: int| 0 <= j < i ==> #[trigger] r@[j] == times_root(c@, a)[j],
        decreases n + 1 - i,
    {
        let up: F = if i == 0 {
            F::zero()
        } else {
            c[i - 1]
        };
        let here: F = if i == n {
            F::zero()
        } else {
            c[i]
        };
        r.push(F::one().mul(up).add(a.neg().mul(here)));
        i += 1;
    }
    assert(r@ =~= times_root(c@, a));
    r
}

fn add_scaled<F: Field>(a: &Vec<F>, s: F, b: &Vec<F>) -> (r: Vec<F>)
    requires
        a@.len() == b@.len(),
    ensures
        r@ == linear::combined(F::one_elem(), a@, s, b@),
{
    let n: usize = a.len();
    let mut r: Vec<F> = Vec::new();
    let mut i: usize = 0;
    while i < n
        invariant
            i <= n,
            n == a@.len(),
            a@.len() == b@.len(),
            r@.len() == i,
            forall|j: int|
                0 <= j < i ==> #[trigger] r@[j] == linear::combined(F::one_elem(), a@, s, b@)[j],
        decreases n - i,
    {
        r.push(F::one().mul(a[i]).add(s.mul(b[i])));
        i += 1;
    }
    assert(r@ =~= linear::combined(F::one_elem(), a@, s, b@));
    r
}

/// The polynomial with the root at every node but one, and the inverse of its value there.
fn basis<F: Field>(xs: &[F], y: F, i: usize) -> (r: (Vec<F>, F))
    requires
        are_nodes(xs@),
        y.valid(),
        i < xs@.len(),
    ensures
        r.0@.len() == xs@.len(),
        field::all_valid(r.0@),
        r.1.valid(),
        forall|x: F|
            x.valid() ==> #[trigger] unipoly::poly_eval(r.0@, x) == y.times(
                node_product(xs@, i as int, xs@.len(), x),
            ),
        node_product(xs@, i as int, xs@.len(), xs@[i as int]).times(r.1) == F::one_elem(),
{
    broadcast use algebra::group_valid;

    let n: usize = xs.len();
    let mut numerator: Vec<F> = vec![y];
    let mut inverse = F::one();
    proof {
        F::law_constants();
        assert(xs@[i as int].valid());
        algebra::lemma_products(F::one_elem(), F::one_elem(), F::one_elem());
        assert forall|x: F| x.valid() implies #[trigger] unipoly::poly_eval(numerator@, x)
            == y.times(node_product(xs@, i as int, 0, x)) by {
            assert(numerator@ =~= Seq::empty().push(y));
            unipoly::lemma_poly_eval_push(Seq::empty(), y, x);
            algebra::lemma_products(y, y, y);
            algebra::lemma_opposites(y, y);
        }
    }
    let mut k: usize = 0;
    while k < n
        invariant
            k <= n,
            n == xs@.len(),
            are_nodes(xs@),
            y.valid(),
            i < n,
            numerator@.len() == (if k <= i {
                k + 1
            } else {
                k as int
            }),
            field::all_valid(numerator@),
            inverse.valid(),
            forall|x: F|
                x.valid() ==> #[trigger] unipoly::poly_eval(numerator@, x) == y.times(
                    node_product(xs@, i as int, k as nat, x),
                ),
            node_product(xs@, i as int, k as nat, xs@[i as int]).times(inverse) == F::one_elem(),
        decreases n - k,
    {
        broadcast use algebra::group_valid;

        if k != i {
            let ghost before = numerator@;
            let ghost old_inverse = inverse;
            proof {
                assert(xs@[k as int].valid() && xs@[i as int].valid());
                lemma_difference(xs@, i as int, k as int);
            }
            let difference = xs[i].sub(xs[k]);
            inverse = inverse.mul(field::divide(F::one(), difference));
            numerator = multiply_root(&numerator, xs[k]);
            proof {
                F::law_constants();
                assert forall|x: F| x.valid() implies #[trigger] unipoly::poly_eval(numerator@, x)
                    == y.times(node_product(xs@, i as int, (k + 1) as nat, x)) by {
                    lemma_times_root(before, xs@[k as int], x);
                    let p = node_product(xs@, i as int, k as nat, x);
                    lemma_node_product_valid(xs@, i as int, k as nat, x);
                    assert(unipoly::poly_eval(before, x) == y.times(p));
                    algebra::lemma_products(y, p, x.minus(xs@[k as int]));
                }
                lemma_times_root(before, xs@[k as int], F::one_elem());
                // (p d) (v / d) = p v.
                let p = node_product(xs@, i as int, k as nat, xs@[i as int]);
                lemma_node_product_valid(xs@, i as int, k as nat, xs@[i as int]);
                algebra::lemma_unit(difference);
                let u = field::inverse(difference);
                lemma_cancel(p, difference, old_inverse, u);
            }
        }
        k += 1;
    }
    (numerator, inverse)
}

/// Nodes that differ have a difference.
proof fn lemma_difference<F: Field>(xs: Seq<F>, i: int, k: int)
    requires
        are_nodes(xs),
        0 <= i < xs.len(),
        0 <= k < xs.len(),
        i != k,
    ensures
        xs[i].minus(xs[k]) != F::zero_elem(),
        xs[i].minus(xs[k]).valid(),
{
    broadcast use algebra::group_valid;

    let a = xs[i];
    let b = xs[k];
    assert(a.valid() && b.valid());
    assert(a != b) by {
        if i < k {
            assert(xs[i] != xs[k]);
        } else {
            assert(xs[k] != xs[i]);
        }
    }
    algebra::lemma_opposites(a, b);
    F::law_plus(a, b.opposite(), b);
    F::law_plus(b, b, b);
    F::law_constants();
    F::law_plus(F::zero_elem(), b, b);
    algebra::lemma_opposites(b, b);
    F::law_plus(b.opposite(), b, b);
}

proof fn lemma_cancel<F: Field>(p: F, d: F, v: F, u: F)
    requires
        p.valid(),
        d.valid(),
        v.valid(),
        u.valid(),
        d.times(u) == F::one_elem(),
        p.times(v) == F::one_elem(),
    ensures
        p.times(d).times(v.times(F::one_elem().times(u))) == F::one_elem(),
{
    broadcast use algebra::group_valid;

    F::law_constants();
    algebra::lemma_products(u, u, u);
    algebra::lemma_products(p, d, v.times(u));
    algebra::lemma_products(d, v, u);
    algebra::lemma_products(v, d, u);
    algebra::lemma_products(v, v, v);
    // d (v u) = v (d u) = v.
    assert(d.times(v.times(u)) == v);
}

/// The polynomial through the given points.
pub fn interpolate_univariate_polynomial<F: Field>(xs: &[F], ys: &[F]) -> (r: UnivariatePolynomial<
    F,
>)
    requires
        are_nodes(xs@),
        xs@.len() == ys@.len(),
        field::all_valid(ys@),
    ensures
        r.coefficients@.len() == (if xs@.len() == 0 {
            1
        } else {
            xs@.len()
        }),
        field::all_valid(r.coefficients@),
        forall|i: int|
            0 <= i < xs@.len() ==> unipoly::poly_eval(r.coefficients@, #[trigger] xs@[i]) == ys@[i],
{
    broadcast use algebra::group_valid;

    let n: usize = xs.len();
    if n == 0 {
        proof {
            F::law_constants();
        }
        return UnivariatePolynomial { coefficients: vec![F::zero()] };
    }
    let mut sum: Vec<F> = Vec::new();
    let mut i: usize = 0;
    while i < n
        invariant
            i <= n,
            sum@ == linear::constant(F::zero_elem(), i as nat),
        decreases n - i,
    {
        sum.push(F::zero());
        i += 1;
        assert(sum@ =~= linear::constant(F::zero_elem(), i as nat));
    }
    proof {
        F::law_constants();
        assert forall|p: int| 0 <= p < n implies unipoly::poly_eval(sum@, #[trigger] xs@[p])
            == F::zero_elem() by {
            let w = unipoly::powers(xs@[p], n as nat);
            unipoly::lemma_powers_valid(xs@[p], n as nat);
            unipoly::lemma_dot_commutes(w, sum@);
            crate::basefold::completeness::lemma_zero_dot(w, n as nat);
        }
    }
    let mut i: usize = 0;
    while i < n
        invariant
            i <= n,
            n == xs@.len(),
            n == ys@.len(),
            are_nodes(xs@),
            field::all_valid(ys@),
            sum@.len() == n,
            field::all_valid(sum@),
            forall|p: int|
                0 <= p < n ==> unipoly::poly_eval(sum@, #[trigger] xs@[p]) == (if p < i {
                    ys@[p]
                } else {
                    F::zero_elem()
                }),
        decreases n - i,
    {
        broadcast use algebra::group_valid;

        assert(ys@[i as int].valid());
        let (numerator, inverse) = basis(xs, ys[i], i);
        let ghost before = sum@;
        sum = add_scaled(&sum, inverse, &numerator);
        proof {
            F::law_constants();
            let one = F::one_elem();
            let y = ys@[i as int];
            linear::lemma_combined_valid(one, before, inverse, numerator@);
            assert forall|p: int| 0 <= p < n implies unipoly::poly_eval(sum@, #[trigger] xs@[p])
                == (if p < i + 1 {
                ys@[p]
            } else {
                F::zero_elem()
            }) by {
                let x = xs@[p];
                assert(x.valid() && ys@[p].valid());
                lemma_eval_combined(one, before, inverse, numerator@, x);
                let v = node_product(xs@, i as int, n as nat, x);
                lemma_node_product_valid(xs@, i as int, n as nat, x);
                let old_value = unipoly::poly_eval(before, x);
                unipoly::lemma_poly_eval_valid(before, x);
                algebra::lemma_products(old_value, old_value, old_value);
                assert(unipoly::poly_eval(numerator@, x) == y.times(v));
                if p == i {
                    algebra::lemma_products(inverse, y, v);
                    algebra::lemma_products(y, v, inverse);
                    algebra::lemma_products(y, y, y);
                    algebra::lemma_opposites(y, y);
                    F::law_plus(F::zero_elem(), y, y);
                } else {
                    lemma_node_product_zero(xs@, i as int, n as nat, p);
                    algebra::lemma_products(y, y, y);
                    algebra::lemma_products(inverse, y, y);
                    F::law_plus(old_value, old_value, old_value);
                }
            }
        }
        i += 1;
    }
    UnivariatePolynomial { coefficients: sum }
}

/// The barycentric term of a node: the inverse of the product of its differences to the other
/// nodes, divided by the difference of the target to it.
pub open spec fn barycentric_term<F: Field>(xs: Seq<F>, r: F, i: int) -> F {
    field::inverse(node_product(xs, i, xs.len(), xs[i])).times(field::inverse(r.minus(xs[i])))
}

/// The sum of the first `n` terms.
pub open spec fn barycentric_sum<F: Field>(xs: Seq<F>, r: F, n: nat) -> F
    decreases n,
{
    if n == 0 {
        F::zero_elem()
    } else {
        barycentric_sum(xs, r, (n - 1) as nat).plus(barycentric_term(xs, r, n - 1))
    }
}

/// The product of the differences of a node to the others has an inverse.
fn invert_product<F: Field>(xs: &[F], i: usize) -> (r: F)
    requires
        are_nodes(xs@),
        i < xs@.len(),
    ensures
        r == field::inverse(node_product(xs@, i as int, xs@.len(), xs@[i as int])),
        r.valid(),
        field::is_unit(node_product(xs@, i as int, xs@.len(), xs@[i as int])),
{
    proof {
        F::law_constants();
    }
    let (_, inverse) = basis(xs, F::one(), i);
    proof {
        let p = node_product(xs@, i as int, xs@.len(), xs@[i as int]);
        lemma_node_product_valid(xs@, i as int, xs@.len(), xs@[i as int]);
        algebra::lemma_inverse_unique(p, inverse);
    }
    inverse
}

/// The coefficients with which the values at the nodes combine to the value at the target: those of
/// a node where the target is one, and the normalised barycentric terms elsewhere. There always are
/// such coefficients, since the sum of the terms vanishes for no distinct nodes.
pub fn barycentric_weights<F: Field>(xs: &[F], r: &F) -> (weights: Vec<F>)
    requires
        xs@.len() > 0,
        are_nodes(xs@),
        r.valid(),
    ensures
        forall|c: Seq<F>|
            field::all_valid(c) && c.len() <= xs@.len() ==> math::dot(
                weights@,
                #[trigger] lagrange::values(c, xs@),
            ) == unipoly::poly_eval(c, *r),
        xs@.contains(*r) ==> weights@ == Seq::new(
            xs@.len(),
            |i: int|
                if xs@[i] == *r {
                    F::one_elem()
                } else {
                    F::zero_elem()
                },
        ),
        !xs@.contains(*r) ==> {
            let sum = barycentric_sum(xs@, *r, xs@.len());
            weights@ == Seq::new(
                xs@.len(),
                |i: int| field::quotient(barycentric_term(xs@, *r, i), sum),
            )
        },
{
    broadcast use algebra::group_valid;

    let n: usize = xs.len();
    let mut found: bool = false;
    let mut unit: Vec<F> = Vec::new();
    let mut i: usize = 0;
    while i < n
        invariant
            i <= n,
            n == xs@.len(),
            found == exists|j: int| 0 <= j < i && #[trigger] xs@[j] == *r,
            unit@.len() == i,
            forall|j: int|
                0 <= j < i ==> #[trigger] unit@[j] == (if xs@[j] == *r {
                    F::one_elem()
                } else {
                    F::zero_elem()
                }),
        decreases n - i,
    {
        if xs[i].is_equal(r) {
            found = true;
            assert(xs@[i as int] == *r);
            unit.push(F::one());
        } else {
            unit.push(F::zero());
        }
        i += 1;
    }
    if found {
        let ghost j = choose|j: int| 0 <= j < n && #[trigger] xs@[j] == *r;
        assert(xs@.contains(*r)) by {
            assert(xs@[j] == *r);
        }
        assert(unit@ =~= Seq::new(
            xs@.len(),
            |i: int|
                if xs@[i] == *r {
                    F::one_elem()
                } else {
                    F::zero_elem()
                },
        ));
        proof {
            assert forall|c: Seq<F>|
                field::all_valid(c) && c.len() <= xs@.len() implies math::dot(
                unit@,
                #[trigger] lagrange::values(c, xs@),
            ) == unipoly::poly_eval(c, *r) by {
                lagrange::lemma_picks(xs@, *r, j, unit@, c);
            }
        }
        return unit;
    }
    assert(!xs@.contains(*r));
    let mut terms: Vec<F> = Vec::new();
    let mut sum = F::zero();
    let mut i: usize = 0;
    while i < n
        invariant
            i <= n,
            n == xs@.len(),
            are_nodes(xs@),
            r.valid(),
            !xs@.contains(*r),
            sum == barycentric_sum(xs@, *r, i as nat),
            terms@.len() == i,
            forall|j: int| 0 <= j < i ==> #[trigger] terms@[j] == barycentric_term(xs@, *r, j),
            forall|j: int|
                0 <= j < i ==> field::is_unit(#[trigger] node_product(xs@, j, n as nat, xs@[j])),
            forall|j: int| 0 <= j < i ==> field::is_unit(r.minus(#[trigger] xs@[j])),
        decreases n - i,
    {
        broadcast use algebra::group_valid;

        let w = invert_product(xs, i);
        let difference = r.sub(xs[i]);
        proof {
            assert(xs@[i as int] != *r);
            assert(xs@[i as int].valid());
            lemma_difference(seq![*r, xs@[i as int]], 0, 1);
        }
        let inverse = field::divide(F::one(), difference);
        proof {
            F::law_constants();
            algebra::lemma_unit(difference);
            algebra::lemma_products(
                field::inverse(difference),
                F::one_elem(),
                F::one_elem(),
            );
        }
        let term = w.mul(inverse);
        sum = sum.add(term);
        terms.push(term);
        i += 1;
    }
    proof {
        lemma_sum_valid(xs@, *r, n as nat);
        lagrange::law_barycentric_sum(xs@, *r);
        algebra::lemma_unit(sum);
    }
    let mut weights: Vec<F> = Vec::new();
    let mut i: usize = 0;
    while i < n
        invariant
            i <= n,
            n == terms@.len(),
            n == xs@.len(),
            sum == barycentric_sum(xs@, *r, n as nat),
            sum.valid(),
            sum != F::zero_elem(),
            forall|j: int| 0 <= j < n ==> #[trigger] terms@[j] == barycentric_term(xs@, *r, j),
            weights@.len() == i,
            forall|j: int|
                0 <= j < i ==> #[trigger] weights@[j] == field::quotient(
                    barycentric_term(xs@, *r, j),
                    sum,
                ),
        decreases n - i,
    {
        weights.push(field::divide(terms[i], sum));
        i += 1;
    }
    assert(weights@ =~= Seq::new(
        xs@.len(),
        |i: int| field::quotient(barycentric_term(xs@, *r, i), sum),
    ));
    proof {
        assert forall|c: Seq<F>|
            field::all_valid(c) && c.len() <= xs@.len() implies math::dot(
            weights@,
            #[trigger] lagrange::values(c, xs@),
        ) == unipoly::poly_eval(c, *r) by {
            lagrange::lemma_combines(xs@, *r, weights@, c);
        }
    }
    weights
}

pub proof fn lemma_sum_valid<F: Field>(xs: Seq<F>, r: F, n: nat)
    ensures
        barycentric_sum(xs, r, n).valid(),
{
    broadcast use algebra::group_valid;

    F::law_constants();
}

} // verus!
