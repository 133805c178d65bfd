//! The value of a polynomial as a combination of its values at distinct nodes.
use vstd::prelude::*;
use crate::basefold::gauss;
use crate::basefold::linear;
use crate::basefold::math;
use crate::basefold::unipoly;
use crate::field;
use crate::field::algebra;
use crate::field::Field;
use crate::stark::interpolation;
use crate::stark::interpolation::node_product;

verus! {

/// The nodes are canonical, and the product of the differences of each to the others has an
/// inverse.
pub open spec fn apart<F: Field>(xs: Seq<F>) -> bool {
    &&& field::all_valid(xs)
    &&& forall|i: int|
        0 <= i < xs.len() ==> field::is_unit(#[trigger] node_product(xs, i, xs.len(), xs[i]))
}

/// The coefficients of the product of `X - x` over the first `k` nodes `x` without the node `i`.
pub open spec fn node_coeffs<F: Field>(xs: Seq<F>, i: int, k: nat) -> Seq<F>
    decreases k,
{
    if k == 0 {
        seq![F::one_elem()]
    } else {
        let before = node_coeffs(xs, i, (k - 1) as nat);
        if k - 1 == i {
            before
        } else {
            interpolation::times_root(before, xs[k - 1])
        }
    }
}

proof fn lemma_node_coeffs<F: Field>(xs: Seq<F>, i: int, k: nat)
    requires
        field::all_valid(xs),
        k <= xs.len(),
    ensures
        node_coeffs(xs, i, k).len() == (if 0 <= i < k {
            k
        } else {
            k + 1
        }),
        field::all_valid(node_coeffs(xs, i, k)),
        node_coeffs(xs, i, k).last() == F::one_elem(),
    decreases k,
{
    broadcast use algebra::group_valid;

    F::law_constants();
    if k > 0 {
        lemma_node_coeffs(xs, i, (k - 1) as nat);
        if k - 1 != i {
            let before = node_coeffs(xs, i, (k - 1) as nat);
            let a = xs[k - 1];
            assert(a.valid());
            interpolation::lemma_times_root(before, a, a);
            algebra::lemma_products(F::one_elem(), F::one_elem(), F::one_elem());
            algebra::lemma_products(a.opposite(), a, a);
            F::law_plus(F::one_elem(), a, a);
        }
    }
}

proof fn lemma_node_coeffs_eval<F: Field>(xs: Seq<F>, i: int, k: nat, x: F)
    requires
        field::all_valid(xs),
        k <= xs.len(),
        x.valid(),
    ensures
        unipoly::poly_eval(node_coeffs(xs, i, k), x) == node_product(xs, i, k, x),
    decreases k,
{
    broadcast use algebra::group_valid;

    F::law_constants();
    if k == 0 {
        let one = F::one_elem();
        unipoly::lemma_poly_eval_push(Seq::<F>::empty(), one, x);
        assert(Seq::<F>::empty().push(one) =~= node_coeffs(xs, i, 0));
        algebra::lemma_products(one, one, one);
        algebra::lemma_opposites(one, one);
    } else {
        lemma_node_coeffs_eval(xs, i, (k - 1) as nat, x);
        if k - 1 != i {
            assert(xs[k - 1].valid());
            lemma_node_coeffs(xs, i, (k - 1) as nat);
            interpolation::lemma_times_root(node_coeffs(xs, i, (k - 1) as nat), xs[k - 1], x);
        }
    }
}

/// A factor of a unit is a unit.
proof fn lemma_unit_factor<F: Field>(a: F, b: F)
    requires
        a.valid(),
        b.valid(),
        field::is_unit(a.times(b)),
    ensures
        field::is_unit(a),
        field::is_unit(b),
{
    broadcast use algebra::group_valid;

    algebra::lemma_unit(a.times(b));
    let y = field::inverse(a.times(b));
    algebra::lemma_products(a, b, y);
    algebra::lemma_products(b, a, y);
    assert(field::is_inverse(a, b.times(y)));
    assert(field::is_inverse(b, a.times(y)));
}

/// The product of the differences of node `i` to the nodes before it has an inverse.
proof fn lemma_before_unit<F: Field>(xs: Seq<F>, i: int, k: nat)
    requires
        field::all_valid(xs),
        0 <= i <= k <= xs.len(),
        i < xs.len(),
        field::is_unit(node_product(xs, i, k, xs[i])),
    ensures
        field::is_unit(node_product(xs, -1, i as nat, xs[i])),
    decreases k,
{
    broadcast use algebra::group_valid;

    if k == i {
        lemma_same_product(xs, i, k, xs[i]);
    } else {
        if k - 1 != i {
            interpolation::lemma_node_product_valid(xs, i, (k - 1) as nat, xs[i]);
            lemma_unit_factor(
                node_product(xs, i, (k - 1) as nat, xs[i]),
                xs[i].minus(xs[k - 1]),
            );
        }
        lemma_before_unit(xs, i, (k - 1) as nat);
    }
}

/// Leaving out a node that does not stand among the first changes nothing.
proof fn lemma_same_product<F: Field>(xs: Seq<F>, i: int, k: nat, x: F)
    requires
        k <= i,
    ensures
        node_product(xs, i, k, x) == node_product(xs, -1, k, x),
    decreases k,
{
    if k > 0 {
        lemma_same_product(xs, i, (k - 1) as nat, x);
    }
}

/// The product of all differences is the one without node `i` times the difference to it.
proof fn lemma_whole_product<F: Field>(xs: Seq<F>, i: int, k: nat, x: F)
    requires
        field::all_valid(xs),
        0 <= i < k <= xs.len(),
        x.valid(),
    ensures
        node_product(xs, -1, k, x) == node_product(xs, i, k, x).times(x.minus(xs[i])),
    decreases k,
{
    broadcast use algebra::group_valid;

    let front = (k - 1) as nat;
    if k - 1 == i {
        lemma_same_product(xs, i, front, x);
    } else {
        lemma_whole_product(xs, i, front, x);
        interpolation::lemma_node_product_valid(xs, i, front, x);
        algebra::lemma_products(
            node_product(xs, i, front, x),
            x.minus(xs[i]),
            x.minus(xs[k - 1]),
        );
    }
}

/// A polynomial that vanishes at as many nodes as it has coefficients is zero.
proof fn lemma_vanishing<F: Field>(xs: Seq<F>, c: Seq<F>)
    requires
        apart(xs),
        field::all_valid(c),
        c.len() <= xs.len(),
        forall|i: int|
            0 <= i < c.len() ==> unipoly::poly_eval(c, #[trigger] xs[i]) == F::zero_elem(),
    ensures
        gauss::all_zero(c),
    decreases c.len(),
{
    broadcast use algebra::group_valid;

    if c.len() > 0 {
        let k = (c.len() - 1) as nat;
        let l = c.last();
        let q = node_coeffs(xs, -1, k);
        lemma_node_coeffs(xs, -1, k);
        assert(c[k as int].valid());
        let d = gauss::row_minus(c, l, q);
        algebra::lemma_products(l, l, l);
        algebra::lemma_opposites(l, l);
        assert(d[k as int] == F::zero_elem());
        let low = d.drop_last();
        assert forall|i: int| 0 <= i < k implies unipoly::poly_eval(low, #[trigger] xs[i])
            == F::zero_elem() by {
            let x = xs[i];
            assert(x.valid());
            unipoly::lemma_eval_minus(c, l, q, x);
            lemma_node_coeffs_eval(xs, -1, k, x);
            interpolation::lemma_node_product_zero(xs, -1, k, i);
            algebra::lemma_products(l, l, l);
            algebra::lemma_opposites(F::zero_elem(), l);
            unipoly::lemma_poly_eval_push(low, F::zero_elem(), x);
            assert(low.push(F::zero_elem()) =~= d);
            unipoly::lemma_poly_eval_valid(low, x);
            algebra::lemma_power_valid(x, k);
            algebra::lemma_products(field::power(x, k), l, l);
            F::law_plus(unipoly::poly_eval(low, x), F::zero_elem(), F::zero_elem());
        }
        assert(field::all_valid(low));
        lemma_vanishing(xs, low);
        assert forall|i: int| 0 <= i < d.len() implies #[trigger] d[i] == F::zero_elem() by {
            if i < k {
                assert(low[i] == F::zero_elem());
            }
        }
        let x = xs[k as int];
        assert(x.valid());
        unipoly::lemma_eval_minus(c, l, q, x);
        unipoly::lemma_powers_valid(x, k + 1);
        unipoly::lemma_dot_commutes(unipoly::powers(x, k + 1), d);
        gauss::lemma_dot_zero(d, unipoly::powers(x, k + 1));
        lemma_before_unit(xs, k as int, xs.len());
        lemma_node_coeffs_eval(xs, -1, k, x);
        let e = unipoly::poly_eval(q, x);
        unipoly::lemma_poly_eval_valid(q, x);
        algebra::lemma_unit(e);
        // 0 - l e = 0 gives l = 0.
        assert(F::zero_elem().minus(l.times(e)) == F::zero_elem());
        algebra::lemma_opposites(l.times(e), l);
        algebra::lemma_opposites(F::zero_elem(), l);
        assert(l.times(e) == F::zero_elem());
        let y = field::inverse(e);
        algebra::lemma_products(l, e, y);
        algebra::lemma_products(y, y, y);
        assert(l == F::zero_elem());
        assert forall|i: int| 0 <= i < c.len() implies #[trigger] c[i] == F::zero_elem() by {
            assert(d[i] == F::zero_elem());
            assert(c[i].valid() && q[i].valid());
            algebra::lemma_products(q[i], q[i], q[i]);
            algebra::lemma_opposites(c[i], c[i]);
        }
    }
}

/// Law: no two polynomials with as many coefficients, and no more than there are nodes, take the same
/// values at the nodes.
pub proof fn law_interpolation_at_nodes_unique<F: Field>(xs: Seq<F>, c: Seq<F>, d: Seq<F>)
    requires
        apart(xs),
        field::all_valid(c),
        field::all_valid(d),
        c.len() == d.len() <= xs.len(),
        values(c, xs) == values(d, xs),
    ensures
        c == d,
{
    broadcast use algebra::group_valid;

    let one = F::one_elem();
    let r = gauss::row_minus(c, one, d);
    assert forall|i: int| 0 <= i < r.len() implies unipoly::poly_eval(r, #[trigger] xs[i])
        == F::zero_elem() by {
        let x = xs[i];
        assert(x.valid());
        assert(values(c, xs)[i] == unipoly::poly_eval(c, x));
        assert(values(d, xs)[i] == unipoly::poly_eval(d, x));
        unipoly::lemma_eval_minus(c, one, d, x);
        unipoly::lemma_poly_eval_valid(c, x);
        let v = unipoly::poly_eval(c, x);
        algebra::lemma_products(v, v, v);
        algebra::lemma_opposites(v, v);
    }
    lemma_vanishing(xs, r);
    assert forall|i: int| 0 <= i < c.len() implies c[i] == d[i] by {
        assert(r[i] == F::zero_elem());
        assert(c[i].valid() && d[i].valid());
        algebra::lemma_products(d[i], d[i], d[i]);
        algebra::lemma_opposites(c[i], d[i]);
        algebra::lemma_opposites(d[i], c[i]);
    }
    assert(c =~= d);
}

/// The inverse of the product of the differences of node `i` to the others.
pub open spec fn node_weight<F: Field>(xs: Seq<F>, i: int) -> F {
    field::inverse(node_product(xs, i, xs.len(), xs[i]))
}

/// The sum over the first `m` nodes of the values times the polynomials that are one at a node and
/// zero at the others.
pub open spec fn lagrange<F: Field>(xs: Seq<F>, ys: Seq<F>, m: nat) -> Seq<F>
    decreases m,
{
    if m == 0 {
        Seq::new(xs.len(), |i: int| F::zero_elem())
    } else {
        linear::combined(
            F::one_elem(),
            lagrange(xs, ys, (m - 1) as nat),
            ys[m - 1].times(node_weight(xs, m - 1)),
            node_coeffs(xs, m - 1, xs.len()),
        )
    }
}

/// The value of that sum at `x`.
pub open spec fn lagrange_value<F: Field>(xs: Seq<F>, ys: Seq<F>, x: F, m: nat) -> F
    decreases m,
{
    if m == 0 {
        F::zero_elem()
    } else {
        lagrange_value(xs, ys, x, (m - 1) as nat).plus(
            ys[m - 1].times(node_weight(xs, m - 1)).times(
                node_product(xs, m - 1, xs.len(), x),
            ),
        )
    }
}

proof fn lemma_lagrange_valid<F: Field>(xs: Seq<F>, ys: Seq<F>, m: nat)
    requires
        apart(xs),
        m <= xs.len(),
    ensures
        lagrange(xs, ys, m).len() == xs.len(),
        field::all_valid(lagrange(xs, ys, m)),
    decreases m,
{
    broadcast use algebra::group_valid;

    F::law_constants();
    if m > 0 {
        lemma_lagrange_valid(xs, ys, (m - 1) as nat);
        lemma_node_coeffs(xs, m - 1, xs.len());
        linear::lemma_combined_valid(
            F::one_elem(),
            lagrange(xs, ys, (m - 1) as nat),
            ys[m - 1].times(node_weight(xs, m - 1)),
            node_coeffs(xs, m - 1, xs.len()),
        );
    }
}

proof fn lemma_lagrange_eval<F: Field>(xs: Seq<F>, ys: Seq<F>, x: F, m: nat)
    requires
        apart(xs),
        m <= xs.len(),
        x.valid(),
    ensures
        unipoly::poly_eval(lagrange(xs, ys, m), x) == lagrange_value(xs, ys, x, m),
    decreases m,
{
    broadcast use algebra::group_valid;

    F::law_constants();
    if m == 0 {
        let zeros = lagrange(xs, ys, 0);
        let w = unipoly::powers(x, xs.len());
        unipoly::lemma_powers_valid(x, xs.len());
        unipoly::lemma_dot_commutes(w, zeros);
        gauss::lemma_dot_zero(zeros, w);
    } else {
        let before = lagrange(xs, ys, (m - 1) as nat);
        let s = ys[m - 1].times(node_weight(xs, m - 1));
        let b = node_coeffs(xs, m - 1, xs.len());
        lemma_lagrange_valid(xs, ys, (m - 1) as nat);
        lemma_node_coeffs(xs, m - 1, xs.len());
        lemma_lagrange_eval(xs, ys, x, (m - 1) as nat);
        lemma_node_coeffs_eval(xs, m - 1, xs.len(), x);
        interpolation::lemma_eval_combined(F::one_elem(), before, s, b, x);
        unipoly::lemma_poly_eval_valid(before, x);
        let v = unipoly::poly_eval(before, x);
        algebra::lemma_products(v, v, v);
    }
}

proof fn lemma_lagrange_at_node<F: Field>(xs: Seq<F>, ys: Seq<F>, p: int, m: nat)
    requires
        apart(xs),
        ys.len() == xs.len(),
        field::all_valid(ys),
        0 <= p < xs.len(),
        m <= xs.len(),
    ensures
        lagrange_value(xs, ys, xs[p], m) == (if p < m {
            ys[p]
        } else {
            F::zero_elem()
        }),
    decreases m,
{
    broadcast use algebra::group_valid;

    F::law_constants();
    if m > 0 {
        let i = m - 1;
        lemma_lagrange_at_node(xs, ys, p, i as nat);
        let y = ys[i];
        assert(y.valid() && ys[p].valid());
        let e = node_product(xs, i, xs.len(), xs[p]);
        interpolation::lemma_node_product_valid(xs, i, xs.len(), xs[p]);
        if p == i {
            assert(field::is_unit(node_product(xs, i, xs.len(), xs[i])));
            algebra::lemma_unit(e);
            let w = node_weight(xs, i);
            algebra::lemma_products(y, w, e);
            algebra::lemma_products(y, y, y);
            algebra::lemma_opposites(y, y);
        } else {
            interpolation::lemma_node_product_zero(xs, i, xs.len(), p);
            let s = y.times(node_weight(xs, i));
            algebra::lemma_products(s, s, s);
            F::law_plus(lagrange_value(xs, ys, xs[p], i as nat), F::zero_elem(), F::zero_elem());
        }
    }
}

/// The coefficients followed by zeros up to `n` in all.
pub open spec fn padded<F: Field>(c: Seq<F>, n: nat) -> Seq<F> {
    Seq::new(
        n,
        |i: int|
            if i < c.len() {
                c[i]
            } else {
                F::zero_elem()
            },
    )
}

proof fn lemma_padded<F: Field>(c: Seq<F>, n: nat, x: F)
    requires
        field::all_valid(c),
        c.len() <= n,
        x.valid(),
    ensures
        field::all_valid(padded(c, n)),
        unipoly::poly_eval(padded(c, n), x) == unipoly::poly_eval(c, x),
    decreases n,
{
    broadcast use algebra::group_valid;

    F::law_constants();
    if n == c.len() {
        assert(padded(c, n) =~= c);
    } else {
        let k = (n - 1) as nat;
        lemma_padded(c, k, x);
        assert(padded(c, n) =~= padded(c, k).push(F::zero_elem()));
        unipoly::lemma_poly_eval_push(padded(c, k), F::zero_elem(), x);
        algebra::lemma_power_valid(x, k);
        algebra::lemma_products(field::power(x, k), x, x);
        unipoly::lemma_poly_eval_valid(c, x);
        F::law_plus(unipoly::poly_eval(c, x), x, x);
    }
}

/// The values of a polynomial at the nodes.
pub open spec fn values<F: Field>(c: Seq<F>, xs: Seq<F>) -> Seq<F> {
    Seq::new(xs.len(), |i: int| unipoly::poly_eval(c, xs[i]))
}

/// A polynomial with no more coefficients than there are nodes is the one through its values.
proof fn lemma_through_values<F: Field>(xs: Seq<F>, c: Seq<F>, r: F)
    requires
        apart(xs),
        field::all_valid(c),
        c.len() <= xs.len(),
        r.valid(),
    ensures
        unipoly::poly_eval(c, r) == lagrange_value(xs, values(c, xs), r, xs.len()),
{
    broadcast use algebra::group_valid;

    F::law_constants();
    let n = xs.len();
    let ys = values(c, xs);
    assert forall|i: int| 0 <= i < n implies (#[trigger] ys[i]).valid() by {
        unipoly::lemma_poly_eval_valid(c, xs[i]);
    }
    let full = padded(c, n);
    let all = lagrange(xs, ys, n);
    lemma_padded(c, n, r);
    lemma_lagrange_valid(xs, ys, n);
    let one = F::one_elem();
    let d = gauss::row_minus(full, one, all);
    assert forall|i: int| 0 <= i < n implies unipoly::poly_eval(d, #[trigger] xs[i])
        == F::zero_elem() by {
        let x = xs[i];
        assert(x.valid());
        lemma_padded(c, n, x);
        unipoly::lemma_eval_minus(full, one, all, x);
        lemma_lagrange_eval(xs, ys, x, n);
        lemma_lagrange_at_node(xs, ys, i, n);
        assert(ys[i].valid());
        algebra::lemma_products(ys[i], ys[i], ys[i]);
        algebra::lemma_opposites(ys[i], ys[i]);
    }
    unipoly::lemma_eval_minus(full, one, all, r);
    lemma_vanishing(xs, d);
    assert forall|i: int| 0 <= i < n implies full[i] == all[i] by {
        assert(d[i] == F::zero_elem());
        assert(full[i].valid() && all[i].valid());
        algebra::lemma_products(all[i], all[i], all[i]);
        algebra::lemma_opposites(full[i], all[i]);
        algebra::lemma_opposites(all[i], full[i]);
    }
    assert(full =~= all);
    lemma_lagrange_eval(xs, ys, r, n);
}

/// A Lagrange term is the product of all differences times the barycentric term.
proof fn lemma_term<F: Field>(xs: Seq<F>, r: F, i: int)
    requires
        apart(xs),
        r.valid(),
        0 <= i < xs.len(),
        field::is_unit(r.minus(xs[i])),
    ensures
        node_weight(xs, i).times(node_product(xs, i, xs.len(), r)) == node_product(
            xs,
            -1,
            xs.len(),
            r,
        ).times(interpolation::barycentric_term(xs, r, i)),
        node_weight(xs, i).valid(),
        interpolation::barycentric_term(xs, r, i).valid(),
{
    broadcast use algebra::group_valid;

    let n = xs.len();
    let d = r.minus(xs[i]);
    let u = field::inverse(d);
    let w = node_weight(xs, i);
    let p = node_product(xs, i, n, r);
    assert(xs[i].valid());
    assert(field::is_unit(node_product(xs, i, n, xs[i])));
    interpolation::lemma_node_product_valid(xs, i, n, xs[i]);
    interpolation::lemma_node_product_valid(xs, i, n, r);
    algebra::lemma_unit(d);
    algebra::lemma_unit(node_product(xs, i, n, xs[i]));
    lemma_whole_product(xs, i, n, r);
    // (p d) (w u) = w p (d u).
    algebra::lemma_products(p, d, w.times(u));
    algebra::lemma_products(d, w, u);
    algebra::lemma_products(w, d, u);
    algebra::lemma_products(w, p, p);
    algebra::lemma_products(p, w, w);
}

/// Law: for distinct nodes and a target that is none of them the sum of the barycentric terms has an
/// inverse, the product of the differences of the target to the nodes.
pub proof fn law_barycentric_sum<F: Field>(xs: Seq<F>, r: F)
    requires
        xs.len() > 0,
        apart(xs),
        r.valid(),
        forall|i: int| 0 <= i < xs.len() ==> field::is_unit(r.minus(#[trigger] xs[i])),
    ensures
        field::is_unit(interpolation::barycentric_sum(xs, r, xs.len())),
        field::inverse(interpolation::barycentric_sum(xs, r, xs.len())) == node_product(
            xs,
            -1,
            xs.len(),
            r,
        ),
{
    broadcast use algebra::group_valid;

    F::law_constants();
    let one = F::one_elem();
    let n = xs.len();
    let c = seq![one];
    lemma_through_values(xs, c, r);
    assert forall|x: F| #[trigger] unipoly::poly_eval(c, x) == one by {
        unipoly::lemma_poly_eval_push(Seq::<F>::empty(), one, x);
        assert(Seq::<F>::empty().push(one) =~= c);
        algebra::lemma_products(one, one, one);
        algebra::lemma_opposites(one, one);
    }
    lemma_ones(xs, values(c, xs), r, n);
    let sum = interpolation::barycentric_sum(xs, r, n);
    let all = node_product(xs, -1, n, r);
    interpolation::lemma_node_product_valid(xs, -1, n, r);
    interpolation::lemma_sum_valid(xs, r, n);
    algebra::lemma_products(sum, all, all);
    assert(field::is_inverse(sum, all));
    algebra::lemma_inverse_unique(sum, all);
}

proof fn lemma_ones<F: Field>(xs: Seq<F>, ys: Seq<F>, r: F, m: nat)
    requires
        apart(xs),
        r.valid(),
        forall|i: int| 0 <= i < xs.len() ==> field::is_unit(r.minus(#[trigger] xs[i])),
        forall|i: int| 0 <= i < xs.len() ==> #[trigger] ys[i] == F::one_elem(),
        m <= xs.len(),
    ensures
        lagrange_value(xs, ys, r, m) == node_product(xs, -1, xs.len(), r).times(
            interpolation::barycentric_sum(xs, r, m),
        ),
    decreases m,
{
    broadcast use algebra::group_valid;

    F::law_constants();
    let all = node_product(xs, -1, xs.len(), r);
    interpolation::lemma_node_product_valid(xs, -1, xs.len(), r);
    if m == 0 {
        algebra::lemma_products(all, all, all);
    } else {
        let i = m - 1;
        lemma_ones(xs, ys, r, i as nat);
        assert(field::is_unit(r.minus(xs[i])));
        lemma_term(xs, r, i);
        assert(ys[i] == F::one_elem());
        let w = node_weight(xs, i);
        algebra::lemma_products(w, w, w);
        let sum = interpolation::barycentric_sum(xs, r, i as nat);
        interpolation::lemma_sum_valid(xs, r, i as nat);
        algebra::lemma_products(all, sum, interpolation::barycentric_term(xs, r, i));
    }
}

/// The normalised barycentric terms combine the values at the nodes to the value at the target.
pub proof fn lemma_combines<F: Field>(xs: Seq<F>, r: F, weights: Seq<F>, c: Seq<F>)
    requires
        xs.len() > 0,
        apart(xs),
        r.valid(),
        forall|i: int| 0 <= i < xs.len() ==> field::is_unit(r.minus(#[trigger] xs[i])),
        weights == Seq::new(
            xs.len(),
            |i: int|
                field::quotient(
                    interpolation::barycentric_term(xs, r, i),
                    interpolation::barycentric_sum(xs, r, xs.len()),
                ),
        ),
        field::all_valid(c),
        c.len() <= xs.len(),
    ensures
        math::dot(weights, values(c, xs)) == unipoly::poly_eval(c, r),
{
    let n = xs.len();
    let ys = values(c, xs);
    law_barycentric_sum(xs, r);
    lemma_through_values(xs, c, r);
    assert forall|i: int| 0 <= i < n implies (#[trigger] ys[i]).valid() by {
        unipoly::lemma_poly_eval_valid(c, xs[i]);
    }
    lemma_combines_first(xs, r, weights, ys, n);
    assert(weights.subrange(0, n as int) =~= weights);
    assert(ys.subrange(0, n as int) =~= ys);
}

proof fn lemma_combines_first<F: Field>(
    xs: Seq<F>,
    r: F,
    weights: Seq<F>,
    ys: Seq<F>,
    m: nat,
)
    requires
        apart(xs),
        r.valid(),
        forall|i: int| 0 <= i < xs.len() ==> field::is_unit(r.minus(#[trigger] xs[i])),
        weights.len() == xs.len(),
        ys.len() == xs.len(),
        field::all_valid(ys),
        forall|i: int|
            0 <= i < xs.len() ==> #[trigger] weights[i] == interpolation::barycentric_term(
                xs,
                r,
                i,
            ).times(node_product(xs, -1, xs.len(), r)),
        m <= xs.len(),
    ensures
        math::dot(weights.subrange(0, m as int), ys.subrange(0, m as int)) == lagrange_value(
            xs,
            ys,
            r,
            m,
        ),
    decreases m,
{
    broadcast use algebra::group_valid;

    if m > 0 {
        let i = m - 1;
        lemma_combines_first(xs, r, weights, ys, i as nat);
        assert(weights.subrange(0, m as int).drop_last() =~= weights.subrange(0, i));
        assert(ys.subrange(0, m as int).drop_last() =~= ys.subrange(0, i));
        assert(field::is_unit(r.minus(xs[i])));
        lemma_term(xs, r, i);
        let all = node_product(xs, -1, xs.len(), r);
        interpolation::lemma_node_product_valid(xs, -1, xs.len(), r);
        let t = interpolation::barycentric_term(xs, r, i);
        let p = node_product(xs, i, xs.len(), r);
        interpolation::lemma_node_product_valid(xs, i, xs.len(), r);
        let w = node_weight(xs, i);
        let y = ys[i];
        assert(y.valid());
        assert(weights[i] == t.times(all));
        // (t a) y = y (w p).
        algebra::lemma_products(t, all, y);
        algebra::lemma_products(t.times(all), y, y);
        algebra::lemma_products(y, w, p);
    }
}

/// The coefficients that pick out a node give the value there.
pub proof fn lemma_picks<F: Field>(xs: Seq<F>, r: F, p: int, weights: Seq<F>, c: Seq<F>)
    requires
        field::all_valid(xs),
        forall|i: int, j: int| 0 <= i < j < xs.len() ==> #[trigger] xs[i] != #[trigger] xs[j],
        0 <= p < xs.len(),
        xs[p] == r,
        weights == Seq::new(
            xs.len(),
            |i: int|
                if xs[i] == r {
                    F::one_elem()
                } else {
                    F::zero_elem()
                },
        ),
        field::all_valid(c),
    ensures
        math::dot(weights, values(c, xs)) == unipoly::poly_eval(c, r),
{
    broadcast use algebra::group_valid;

    F::law_constants();
    let ys = values(c, xs);
    assert forall|i: int| 0 <= i < xs.len() implies (#[trigger] ys[i]).valid() by {
        unipoly::lemma_poly_eval_valid(c, xs[i]);
    }
    assert forall|i: int| 0 <= i < weights.len() && i != p implies #[trigger] weights[i]
        == F::zero_elem() by {
        if i < p {
            assert(xs[i] != xs[p]);
        } else {
            assert(xs[p] != xs[i]);
        }
    }
    gauss::lemma_dot_single(weights, ys, p);
    assert(ys[p].valid());
    algebra::lemma_products(ys[p], ys[p], ys[p]);
}

} // verus!
