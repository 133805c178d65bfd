//! What the operations on bits, tables and polynomials have to do with each other.
use vstd::prelude::*;
use vstd::arithmetic::div_mod::*;
use vstd::arithmetic::mul::*;
use vstd::arithmetic::power2::*;
use crate::basefold::eqpoly;
use crate::basefold::linear;
use crate::basefold::math;
use crate::basefold::mlpoly;
use crate::basefold::unipoly;
use crate::basefold::whir_rounds;
use crate::bits;
use crate::field;
use crate::field::algebra;
use crate::field::Field;

verus! {

/// Law: the logarithm is the place of the highest bit, and the next power of two is the least one that
/// is not below.
pub proof fn law_powers_around(n: nat, k: nat)
    ensures
        n > 0 ==> (k <= bits::log2(n) <==> pow2(k) <= n),
        bits::pow2_above(n) <= pow2(k) <==> n <= pow2(k),
        exists|j: nat| bits::pow2_above(n) == #[trigger] pow2(j),
{
    bits::lemma_pow2_above(n);
    let above = bits::pow2_above(n);
    assert(above == pow2(bits::log2(above)));
    if n > 0 {
        let l = bits::log2(n);
        bits::lemma_log2_large(n);
        if k < l {
            lemma_pow2_strictly_increases(k, l);
        } else if k > l {
            lemma_pow2_unfold(l + 1);
            if k > l + 1 {
                lemma_pow2_strictly_increases(l + 1, k);
            }
        }
    }
}

/// Law: reversing the bits puts the bit at place `n - 1 - i` to place `i`, and leaves no other bits.
pub proof fn law_reversed_bits(x: nat, n: nat, i: nat)
    requires
        i < n,
    ensures
        bits::reversed(x, n) < pow2(n),
        (bits::reversed(x, n) / pow2(i)) % 2 == (x / pow2((n - 1 - i) as nat)) % 2,
    decreases n,
{
    bits::lemma_reversed_bound(x, n);
    let m = (n - 1) as nat;
    let b = x % 2;
    let q = bits::reversed(x / 2, m);
    let p = pow2(m);
    bits::lemma_reversed_bound(x / 2, m);
    lemma_pow2_pos(m);
    lemma_pow2_pos(i);
    if i == m {
        lemma_fundamental_div_mod_converse((b * p + q) as int, p as int, b as int, q as int);
        lemma2_to64();
        assert(x / pow2(0) == x);
    } else {
        law_reversed_bits(x / 2, m, i);
        let g = pow2((m - i) as nat);
        let h = pow2((m - i - 1) as nat);
        lemma_pow2_adds(i, (m - i) as nat);
        lemma_pow2_unfold((m - i) as nat);
        lemma_pow2_pos((m - i - 1) as nat);
        let d = pow2(i);
        assert(b * p + q == d * (b * g) + q) by (nonlinear_arith)
            requires
                p == d * g,
        ;
        lemma_div_multiples_vanish_fancy_sum(q, d, b * g);
        assert(b * g == 2 * (b * h)) by (nonlinear_arith)
            requires
                g == 2 * h,
        ;
        assert((2 * (b * h) + q / d) % 2 == (q / d) % 2) by {
            lemma_mod_multiples_vanish((b * h) as int, (q / d) as int, 2);
        }
        lemma_div_denominator(x as int, 2, h as int);
        assert((x / 2) / h == x / g);
    }
}

proof fn lemma_div_multiples_vanish_fancy_sum(q: nat, d: nat, k: nat)
    requires
        d > 0,
    ensures
        (d * k + q) / d == k + q / d,
{
    lemma_div_multiples_vanish_fancy(k as int, 0, d as int);
    lemma_hoist_over_denominator(q as int, k as int, d);
    lemma_mul_is_commutative(k as int, d as int);
}

/// Law: the dot product of two pairs is the sum of the dot products, and that of two single entries is
/// their product.
pub proof fn law_dot<F: Field>(a: Seq<F>, b: Seq<F>, c: Seq<F>, d: Seq<F>, x: F, y: F)
    requires
        a.len() == b.len(),
        c.len() == d.len(),
        field::all_valid(a),
        field::all_valid(b),
        field::all_valid(c),
        field::all_valid(d),
        x.valid(),
        y.valid(),
    ensures
        math::dot(a + c, b + d) == math::dot(a, b).plus(math::dot(c, d)),
        math::dot(seq![x], seq![y]) == x.times(y),
    decreases c.len(),
{
    broadcast use algebra::group_valid;

    reveal_with_fuel(math::dot, 2);
    assert(seq![x].drop_last().len() == 0);
    algebra::lemma_opposites(x.times(y), x);
    linear::lemma_dot_valid(a, b);
    let s = math::dot(a, b);
    if c.len() == 0 {
        assert(a + c =~= a);
        assert(b + d =~= b);
        F::law_plus(s, s, s);
    } else {
        assert((a + c).drop_last() =~= a + c.drop_last());
        assert((b + d).drop_last() =~= b + d.drop_last());
        assert((a + c).last() == c.last() && (b + d).last() == d.last());
        assert(c[c.len() - 1].valid() && d[d.len() - 1].valid());
        law_dot(a, b, c.drop_last(), d.drop_last(), x, y);
        linear::lemma_dot_valid(c.drop_last(), d.drop_last());
        F::law_plus(s, math::dot(c.drop_last(), d.drop_last()), c.last().times(d.last()));
    }
}

/// Law: a polynomial in two parts takes the value of the lower part plus the power of the point at
/// which the upper part begins times the value of that part; and a constant is its own value.
pub proof fn law_poly_eval<F: Field>(c: Seq<F>, d: Seq<F>, a: F, x: F)
    requires
        field::all_valid(c),
        field::all_valid(d),
        a.valid(),
        x.valid(),
    ensures
        unipoly::poly_eval(c + d, x) == unipoly::poly_eval(c, x).plus(
            field::power(x, c.len()).times(unipoly::poly_eval(d, x)),
        ),
        unipoly::poly_eval(seq![a], x) == a,
    decreases d.len(),
{
    broadcast use algebra::group_valid;

    let p = field::power(x, c.len());
    algebra::lemma_power_valid(x, c.len());
    unipoly::lemma_poly_eval_valid(c, x);
    unipoly::lemma_poly_eval_push(Seq::<F>::empty(), a, x);
    assert(Seq::<F>::empty().push(a) =~= seq![a]);
    assert(unipoly::poly_eval(Seq::<F>::empty(), x) == F::zero_elem());
    algebra::lemma_opposites(a, a);
    algebra::lemma_products(a, a, a);
    assert(field::power(x, 0) == F::one_elem());
    let v = unipoly::poly_eval(c, x);
    if d.len() == 0 {
        assert(c + d =~= c);
        assert(unipoly::poly_eval(d, x) == F::zero_elem());
        algebra::lemma_products(p, p, p);
        F::law_plus(v, v, v);
    } else {
        let e = d.drop_last();
        let l = d.last();
        assert(d[d.len() - 1].valid());
        law_poly_eval(c, e, a, x);
        assert(c + d =~= (c + e).push(l));
        assert(d =~= e.push(l));
        unipoly::lemma_poly_eval_push(c + e, l, x);
        unipoly::lemma_poly_eval_push(e, l, x);
        unipoly::lemma_poly_eval_valid(e, x);
        algebra::lemma_power_sum(x, c.len(), e.len());
        let q = field::power(x, e.len());
        algebra::lemma_power_valid(x, e.len());
        let w = unipoly::poly_eval(e, x);
        algebra::lemma_products(p, q, l);
        algebra::lemma_products(p, w, q.times(l));
        F::law_plus(v, p.times(w), p.times(q.times(l)));
    }
}

/// Law: powers of one element multiply by the sum of the exponents, and the first power is the element.
pub proof fn law_power<F: Field>(x: F, m: nat, n: nat)
    requires
        x.valid(),
    ensures
        field::power(x, m + n) == field::power(x, m).times(field::power(x, n)),
        field::power(x, 1) == x,
{
    algebra::lemma_power_sum(x, m, n);
    algebra::lemma_power_small(x);
}

/// Law: the table of a vertex holds a one at that vertex and zeros elsewhere.
pub proof fn law_table_of_vertex<F: Field>(n: nat, i: nat, j: nat)
    requires
        i < pow2(n),
        j < pow2(n),
    ensures
        eqpoly::eq_at(eqpoly::vertex::<F>(n, i), j) == if i == j {
            F::one_elem()
        } else {
            F::zero_elem()
        },
    decreases n,
{
    broadcast use algebra::group_valid;

    let one = F::one_elem();
    let zero = F::zero_elem();
    F::law_constants();
    let v = eqpoly::vertex::<F>(n, i);
    if n == 0 {
        lemma2_to64();
        assert(v.len() == 0);
    } else {
        lemma_pow2_unfold(n);
        let m = (n - 1) as nat;
        law_table_of_vertex::<F>(m, i / 2, j / 2);
        let u = eqpoly::vertex::<F>(m, i / 2);
        assert(v.drop_last() =~= u);
        algebra::lemma_products(one, one, one);
        algebra::lemma_products(zero, zero, zero);
        algebra::lemma_opposites(one, one);
    }
}

/// Law: the polynomial that is one exactly where two points of the cube are the same does not tell its
/// arguments apart, and is affine in each coordinate.
pub proof fn law_equality_factor<F: Field>(a: F, b: F)
    requires
        a.valid(),
        b.valid(),
    ensures
        eqpoly::eq_factor(a, b) == eqpoly::eq_factor(b, a),
        eqpoly::eq_factor(F::one_elem(), b) == b,
        eqpoly::eq_factor(F::zero_elem(), b) == F::one_elem().minus(b),
{
    broadcast use algebra::group_valid;

    let one = F::one_elem();
    algebra::lemma_products(a, b, b);
    algebra::lemma_products(one.minus(a), one.minus(b), b);
    algebra::lemma_opposites(one, one);
    algebra::lemma_products(b, b, b);
    algebra::lemma_products(one.minus(b), b, b);
    F::law_plus(b, b, b);
    algebra::lemma_opposites(one.minus(b), b);
}

/// Law: binding the lowest variable weighs the even entries with `1 - r` and the odd ones with `r`.
pub proof fn law_bound<F: Field>(evals: Seq<F>, r: F, i: int)
    requires
        field::all_valid(evals),
        r.valid(),
        0 <= i < evals.len() / 2,
    ensures
        mlpoly::bound_bottom(evals, r).len() == evals.len() / 2,
        mlpoly::bound_bottom(evals, r)[i] == F::one_elem().minus(r).times(evals[2 * i]).plus(
            r.times(evals[2 * i + 1]),
        ),
{
    broadcast use algebra::group_valid;

    let a = evals[2 * i];
    let b = evals[2 * i + 1];
    let one = F::one_elem();
    algebra::lemma_products(r, b, a);
    algebra::lemma_products(a, one, r);
    algebra::lemma_products(a, a, a);
    let ra = r.times(a);
    let rb = r.times(b);
    assert(mlpoly::bound_bottom(evals, r)[i] == a.plus(rb.minus(ra)));
    assert(one.minus(r).times(a) == a.minus(ra));
    F::law_plus(rb, ra, ra);
    F::law_plus(a, ra, ra);
    F::law_plus(a, rb, ra.opposite());
    F::law_plus(a, ra.opposite(), rb);
    F::law_plus(rb, ra.opposite(), rb);
}

/// Law: the successive squares of an element are its powers with the powers of two for exponents.
pub proof fn law_squares<F: Field>(a: F, n: nat, i: nat)
    requires
        a.valid(),
        i < n,
    ensures
        whir_rounds::squares(a, n).len() == n,
        whir_rounds::squares(a, n)[i as int] == field::power(a, pow2(i)),
    decreases n,
{
    lemma2_to64();
    if n == 1 {
        algebra::lemma_power_small(a);
    } else {
        let m = (n - 1) as nat;
        law_squares(
            a,
            m,
            if i < m {
                i
            } else {
                (m - 1) as nat
            },
        );
        if i == m {
            lemma_pow2_unfold(m);
            let h = pow2((m - 1) as nat);
            algebra::lemma_power_sum(a, h, h);
        }
    }
}

} // verus!
