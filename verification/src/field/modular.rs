//! Arithmetic of the integers modulo a number below `2^31`.
use vstd::prelude::*;
use vstd::arithmetic::div_mod::*;
use vstd::arithmetic::mul::*;

verus! {

/// Reduction may be postponed to the end of a sum, difference or product.
pub proof fn lemma_mod_ops(a: int, b: int, p: int)
    requires
        p > 0,
    ensures
        ((a % p) + (b % p)) % p == (a + b) % p,
        ((a % p) - (b % p)) % p == (a - b) % p,
        ((a % p) * (b % p)) % p == (a * b) % p,
        ((a % p) + b) % p == (a + b) % p,
        (a + (b % p)) % p == (a + b) % p,
        (a - (b % p)) % p == (a - b) % p,
        ((a % p) - b) % p == (a - b) % p,
        ((a % p) * b) % p == (a * b) % p,
        (a * (b % p)) % p == (a * b) % p,
        0 <= a % p < p,
{
    lemma_add_mod_noop(a, b, p);
    lemma_sub_mod_noop(a, b, p);
    lemma_mul_mod_noop(a, b, p);
    lemma_mul_mod_noop_left(a, b, p);
    lemma_mul_mod_noop_right(a, b, p);
    lemma_add_mod_noop_right(a, b, p);
    lemma_add_mod_noop_right(b, a, p);
    lemma_sub_mod_noop_right(a, b, p);
    lemma_mod_bound(a, p);
    lemma_sub_mod_noop(a % p, b, p);
    lemma_mod_twice(a, p);
}

/// Four coefficients of a polynomial of degree below four, from the lowest.
pub struct Quartic {
    pub c0: int,
    pub c1: int,
    pub c2: int,
    pub c3: int,
}

/// The product of two polynomials modulo `X^4 - w`.
pub open spec fn quartic_product(a: Quartic, b: Quartic, w: int) -> Quartic {
    Quartic {
        c0: a.c0 * b.c0 + w * (a.c1 * b.c3 + a.c2 * b.c2 + a.c3 * b.c1),
        c1: a.c0 * b.c1 + a.c1 * b.c0 + w * (a.c2 * b.c3 + a.c3 * b.c2),
        c2: a.c0 * b.c2 + a.c1 * b.c1 + a.c2 * b.c0 + w * (a.c3 * b.c3),
        c3: a.c0 * b.c3 + a.c1 * b.c2 + a.c2 * b.c1 + a.c3 * b.c0,
    }
}

/// Each coefficient modulo `p`.
pub open spec fn quartic_mod(a: Quartic, p: int) -> Quartic {
    Quartic { c0: a.c0 % p, c1: a.c1 % p, c2: a.c2 % p, c3: a.c3 % p }
}

/// The polynomial one.
pub open spec fn quartic_one() -> Quartic {
    Quartic { c0: 1, c1: 0, c2: 0, c3: 0 }
}

pub proof fn lemma_quartic_commutative(a: Quartic, b: Quartic, w: int)
    ensures
        quartic_product(a, b, w) == quartic_product(b, a, w),
{
    lemma_commute_row(a.c0, b);
    lemma_commute_row(a.c1, b);
    lemma_commute_row(a.c2, b);
    lemma_commute_row(a.c3, b);
    assert(a.c1 * b.c3 + a.c2 * b.c2 + a.c3 * b.c1 == b.c1 * a.c3 + b.c2 * a.c2 + b.c3 * a.c1);
    assert(a.c2 * b.c3 + a.c3 * b.c2 == b.c2 * a.c3 + b.c3 * a.c2);
}

proof fn lemma_commute_row(x: int, b: Quartic)
    ensures
        x * b.c0 == b.c0 * x,
        x * b.c1 == b.c1 * x,
        x * b.c2 == b.c2 * x,
        x * b.c3 == b.c3 * x,
{
    lemma_mul_is_commutative(x, b.c0);
    lemma_mul_is_commutative(x, b.c1);
    lemma_mul_is_commutative(x, b.c2);
    lemma_mul_is_commutative(x, b.c3);
}

pub proof fn lemma_quartic_one(a: Quartic, w: int)
    ensures
        quartic_product(a, quartic_one(), w) == a,
{
    assert(w * (a.c1 * 0 + a.c2 * 0 + a.c3 * 0) == 0) by (nonlinear_arith);
    assert(w * (a.c2 * 0 + a.c3 * 0) == 0) by (nonlinear_arith);
    assert(w * (a.c3 * 0) == 0) by (nonlinear_arith);
}

pub proof fn lemma_quartic_constants(m: int, n: int, w: int)
    ensures
        quartic_product(
            (Quartic { c0: m, c1: 0, c2: 0, c3: 0 }),
            (Quartic { c0: n, c1: 0, c2: 0, c3: 0 }),
            w,
        ) == (Quartic { c0: m * n, c1: 0, c2: 0, c3: 0 }),
{
    assert(w * (0int * 0int + 0int * 0int + 0int * 0int) == 0) by (nonlinear_arith);
    assert(w * (0int * 0int + 0int * 0int) == 0) by (nonlinear_arith);
    assert(w * (0int * 0int) == 0) by (nonlinear_arith);
    assert(0 * n == 0);
    assert(m * 0 == 0);
}

/// The product with a constant.
pub proof fn lemma_quartic_scalar(s: int, a: Quartic, w: int)
    ensures
        quartic_product((Quartic { c0: s, c1: 0, c2: 0, c3: 0 }), a, w) == quartic_scale(s, a),
{
    assert(w * (0 * a.c3 + 0 * a.c2 + 0 * a.c1) == 0) by (nonlinear_arith);
    assert(w * (0 * a.c3 + 0 * a.c2) == 0) by (nonlinear_arith);
    assert(w * (0 * a.c3) == 0) by (nonlinear_arith);
}

/// The sum of two polynomials.
pub open spec fn quartic_sum(a: Quartic, b: Quartic) -> Quartic {
    Quartic { c0: a.c0 + b.c0, c1: a.c1 + b.c1, c2: a.c2 + b.c2, c3: a.c3 + b.c3 }
}

/// A polynomial with each coefficient multiplied by `s`.
pub open spec fn quartic_scale(s: int, a: Quartic) -> Quartic {
    Quartic { c0: s * a.c0, c1: s * a.c1, c2: s * a.c2, c3: s * a.c3 }
}

/// A polynomial multiplied by `X`, modulo `X^4 - w`.
pub open spec fn quartic_shift(a: Quartic, w: int) -> Quartic {
    Quartic { c0: w * a.c3, c1: a.c0, c2: a.c1, c3: a.c2 }
}

proof fn lemma_quartic_sum(a: Quartic, b: Quartic, c: Quartic, w: int)
    ensures
        quartic_product(a, quartic_sum(b, c), w) == quartic_sum(
            quartic_product(a, b, w),
            quartic_product(a, c, w),
        ),
{
    lemma_distribute_row(a.c0, b, c);
    lemma_distribute_row(a.c1, b, c);
    lemma_distribute_row(a.c2, b, c);
    lemma_distribute_row(a.c3, b, c);
    lemma_mul_is_distributive_add(
        w,
        a.c1 * b.c3 + a.c2 * b.c2 + a.c3 * b.c1,
        a.c1 * c.c3 + a.c2 * c.c2 + a.c3 * c.c1,
    );
    lemma_mul_is_distributive_add(w, a.c2 * b.c3 + a.c3 * b.c2, a.c2 * c.c3 + a.c3 * c.c2);
    lemma_mul_is_distributive_add(w, a.c3 * b.c3, a.c3 * c.c3);
}

proof fn lemma_distribute_row(x: int, b: Quartic, c: Quartic)
    ensures
        x * (b.c0 + c.c0) == x * b.c0 + x * c.c0,
        x * (b.c1 + c.c1) == x * b.c1 + x * c.c1,
        x * (b.c2 + c.c2) == x * b.c2 + x * c.c2,
        x * (b.c3 + c.c3) == x * b.c3 + x * c.c3,
{
    lemma_mul_is_distributive_add(x, b.c0, c.c0);
    lemma_mul_is_distributive_add(x, b.c1, c.c1);
    lemma_mul_is_distributive_add(x, b.c2, c.c2);
    lemma_mul_is_distributive_add(x, b.c3, c.c3);
}

proof fn lemma_swap_factors(x: int, s: int, y: int)
    ensures
        x * (s * y) == s * (x * y),
{
    lemma_mul_is_associative(x, s, y);
    lemma_mul_is_commutative(x, s);
    lemma_mul_is_associative(s, x, y);
}

proof fn lemma_scale_row(x: int, s: int, b: Quartic)
    ensures
        x * (s * b.c0) == s * (x * b.c0),
        x * (s * b.c1) == s * (x * b.c1),
        x * (s * b.c2) == s * (x * b.c2),
        x * (s * b.c3) == s * (x * b.c3),
{
    lemma_swap_factors(x, s, b.c0);
    lemma_swap_factors(x, s, b.c1);
    lemma_swap_factors(x, s, b.c2);
    lemma_swap_factors(x, s, b.c3);
}

proof fn lemma_distribute3(x: int, a: int, b: int, c: int)
    ensures
        x * (a + b + c) == x * a + x * b + x * c,
{
    lemma_mul_is_distributive_add(x, a + b, c);
    lemma_mul_is_distributive_add(x, a, b);
}

proof fn lemma_distribute4(x: int, a: int, b: int, c: int, d: int)
    ensures
        x * (a + b + c + d) == x * a + x * b + x * c + x * d,
{
    lemma_distribute3(x, a, b, c);
    lemma_mul_is_distributive_add(x, a + b + c, d);
}

proof fn lemma_quartic_scale(a: Quartic, s: int, b: Quartic, w: int)
    ensures
        quartic_product(a, quartic_scale(s, b), w) == quartic_scale(s, quartic_product(a, b, w)),
{
    lemma_scale_row(a.c0, s, b);
    lemma_scale_row(a.c1, s, b);
    lemma_scale_row(a.c2, s, b);
    lemma_scale_row(a.c3, s, b);
    let t0 = a.c1 * b.c3 + a.c2 * b.c2 + a.c3 * b.c1;
    let t1 = a.c2 * b.c3 + a.c3 * b.c2;
    let t2 = a.c3 * b.c3;
    lemma_distribute3(s, a.c1 * b.c3, a.c2 * b.c2, a.c3 * b.c1);
    lemma_mul_is_distributive_add(s, a.c2 * b.c3, a.c3 * b.c2);
    lemma_swap_factors(w, s, t0);
    lemma_swap_factors(w, s, t1);
    lemma_swap_factors(w, s, t2);
    lemma_mul_is_distributive_add(s, a.c0 * b.c0, w * t0);
    lemma_distribute3(s, a.c0 * b.c1, a.c1 * b.c0, w * t1);
    lemma_distribute4(s, a.c0 * b.c2, a.c1 * b.c1, a.c2 * b.c0, w * t2);
    lemma_distribute4(s, a.c0 * b.c3, a.c1 * b.c2, a.c2 * b.c1, a.c3 * b.c0);
}

proof fn lemma_quartic_shift(a: Quartic, b: Quartic, w: int)
    ensures
        quartic_product(a, quartic_shift(b, w), w) == quartic_shift(quartic_product(a, b, w), w),
{
    lemma_swap_factors(a.c0, w, b.c3);
    lemma_swap_factors(a.c1, w, b.c3);
    lemma_swap_factors(a.c2, w, b.c3);
    lemma_swap_factors(a.c3, w, b.c3);
    lemma_distribute4(w, a.c0 * b.c3, a.c1 * b.c2, a.c2 * b.c1, a.c3 * b.c0);
    lemma_distribute3(w, a.c1 * b.c2, a.c2 * b.c1, a.c3 * b.c0);
    lemma_distribute3(w, a.c1 * b.c3, a.c2 * b.c2, a.c3 * b.c1);
    lemma_mul_is_distributive_add(w, a.c2 * b.c2, a.c3 * b.c1);
    lemma_mul_is_distributive_add(w, a.c2 * b.c3, a.c3 * b.c2);
}

/// A product as a combination of shifts of its first factor.
proof fn lemma_quartic_horner(a: Quartic, b: Quartic, w: int)
    ensures
        ({
            let x1 = quartic_shift(a, w);
            let x2 = quartic_shift(x1, w);
            let x3 = quartic_shift(x2, w);
            quartic_product(a, b, w) == quartic_sum(
                quartic_sum(quartic_scale(b.c0, a), quartic_scale(b.c1, x1)),
                quartic_sum(quartic_scale(b.c2, x2), quartic_scale(b.c3, x3)),
            )
        }),
{
    lemma_commute_row(a.c0, b);
    lemma_commute_row(a.c1, b);
    lemma_commute_row(a.c2, b);
    lemma_commute_row(a.c3, b);
    lemma_swap_factors(b.c1, w, a.c3);
    lemma_swap_factors(b.c2, w, a.c3);
    lemma_swap_factors(b.c2, w, a.c2);
    lemma_swap_factors(b.c3, w, a.c3);
    lemma_swap_factors(b.c3, w, a.c2);
    lemma_swap_factors(b.c3, w, a.c1);
    lemma_distribute3(w, a.c1 * b.c3, a.c2 * b.c2, a.c3 * b.c1);
    lemma_mul_is_distributive_add(w, a.c2 * b.c3, a.c3 * b.c2);
}

proof fn lemma_quartic_associative_exact(a: Quartic, b: Quartic, c: Quartic, w: int)
    ensures
        quartic_product(quartic_product(a, b, w), c, w) == quartic_product(
            a,
            quartic_product(b, c, w),
            w,
        ),
{
    let ab = quartic_product(a, b, w);
    let x1 = quartic_shift(b, w);
    let x2 = quartic_shift(x1, w);
    let x3 = quartic_shift(x2, w);
    lemma_quartic_horner(ab, c, w);
    lemma_quartic_horner(b, c, w);
    lemma_quartic_shift(a, b, w);
    lemma_quartic_shift(a, x1, w);
    lemma_quartic_shift(a, x2, w);
    lemma_quartic_sum(
        a,
        quartic_sum(quartic_scale(c.c0, b), quartic_scale(c.c1, x1)),
        quartic_sum(quartic_scale(c.c2, x2), quartic_scale(c.c3, x3)),
        w,
    );
    lemma_quartic_sum(a, quartic_scale(c.c0, b), quartic_scale(c.c1, x1), w);
    lemma_quartic_sum(a, quartic_scale(c.c2, x2), quartic_scale(c.c3, x3), w);
    lemma_quartic_scale(a, c.c0, b, w);
    lemma_quartic_scale(a, c.c1, x1, w);
    lemma_quartic_scale(a, c.c2, x2, w);
    lemma_quartic_scale(a, c.c3, x3, w);
}

/// The coefficients of one factor may be reduced first.
pub proof fn lemma_quartic_reduce(a: Quartic, b: Quartic, w: int, p: int)
    requires
        p > 0,
    ensures
        quartic_mod(quartic_product(quartic_mod(a, p), b, w), p) == quartic_mod(
            quartic_product(a, b, w),
            p,
        ),
        quartic_mod(quartic_product(b, quartic_mod(a, p), w), p) == quartic_mod(
            quartic_product(b, a, w),
            p,
        ),
{
    let m = quartic_mod(a, p);
    lemma_fundamental_div_mod(a.c0, p);
    lemma_fundamental_div_mod(a.c1, p);
    lemma_fundamental_div_mod(a.c2, p);
    lemma_fundamental_div_mod(a.c3, p);
    let q = Quartic { c0: a.c0 / p, c1: a.c1 / p, c2: a.c2 / p, c3: a.c3 / p };
    assert(a == quartic_sum(quartic_scale(p, q), m));
    let k = quartic_product(b, q, w);
    let red = quartic_product(b, m, w);
    lemma_quartic_sum(b, quartic_scale(p, q), m, w);
    lemma_quartic_scale(b, p, q, w);
    lemma_mod_multiples_vanish(k.c0, red.c0, p);
    lemma_mod_multiples_vanish(k.c1, red.c1, p);
    lemma_mod_multiples_vanish(k.c2, red.c2, p);
    lemma_mod_multiples_vanish(k.c3, red.c3, p);
    lemma_quartic_commutative(m, b, w);
    lemma_quartic_commutative(a, b, w);
}

pub proof fn lemma_quartic_associative(a: Quartic, b: Quartic, c: Quartic, w: int, p: int)
    requires
        p > 0,
    ensures
        quartic_mod(quartic_product(quartic_mod(quartic_product(a, b, w), p), c, w), p)
            == quartic_mod(
            quartic_product(a, quartic_mod(quartic_product(b, c, w), p), w),
            p,
        ),
{
    lemma_quartic_reduce(quartic_product(a, b, w), c, w, p);
    lemma_quartic_reduce(quartic_product(b, c, w), a, w, p);
    lemma_quartic_associative_exact(a, b, c, w);
}

pub proof fn lemma_quartic_distributive(a: Quartic, b: Quartic, c: Quartic, w: int, p: int)
    requires
        p > 0,
    ensures
        quartic_mod(quartic_product(a, quartic_mod(quartic_sum(b, c), p), w), p) == quartic_mod(
            quartic_sum(
                quartic_mod(quartic_product(a, b, w), p),
                quartic_mod(quartic_product(a, c, w), p),
            ),
            p,
        ),
{
    let ab = quartic_product(a, b, w);
    let ac = quartic_product(a, c, w);
    lemma_quartic_reduce(quartic_sum(b, c), a, w, p);
    lemma_quartic_sum(a, b, c, w);
    lemma_mod_ops(ab.c0, ac.c0, p);
    lemma_mod_ops(ab.c1, ac.c1, p);
    lemma_mod_ops(ab.c2, ac.c2, p);
    lemma_mod_ops(ab.c3, ac.c3, p);
}

/// The greatest common divisor of `a` and `b` as an integer combination of them.
pub proof fn lemma_bezout(a: int, b: int) -> (r: (int, int, int))
    requires
        a >= 0,
        b > 0,
    ensures
        r.0 > 0,
        r.0 == r.1 * a + r.2 * b,
        a % r.0 == 0,
        b % r.0 == 0,
    decreases a,
{
    if a == 0 {
        assert(b % b == 0) by {
            lemma_mod_self_0(b);
        }
        assert(0int % b == 0) by {
            lemma_small_mod(0nat, b as nat);
        }
        (b, 0int, 1int)
    } else {
        lemma_fundamental_div_mod(b, a);
        lemma_mod_bound(b, a);
        let (g, x, y) = lemma_bezout(b % a, a);
        let q = b / a;
        assert(b == a * q + b % a);
        assert(x * (b % a) == x * b - x * (a * q)) by (nonlinear_arith)
            requires
                b % a == b - a * q,
        ;
        assert(x * (a * q) == (x * q) * a) by (nonlinear_arith);
        assert((y - x * q) * a == y * a - (x * q) * a) by (nonlinear_arith);
        assert(g == (y - x * q) * a + x * b);
        assert(b % g == 0) by {
            lemma_fundamental_div_mod(a, g);
            lemma_fundamental_div_mod(b % a, g);
            assert(a * q == g * ((a / g) * q)) by (nonlinear_arith)
                requires
                    a == g * (a / g),
            ;
            assert(b == g * ((a / g) * q + (b % a) / g)) by (nonlinear_arith)
                requires
                    b == a * q + b % a,
                    a * q == g * ((a / g) * q),
                    b % a == g * ((b % a) / g),
            ;
            lemma_mod_multiples_basic((a / g) * q + (b % a) / g, g);
            assert(g * ((a / g) * q + (b % a) / g) == ((a / g) * q + (b % a) / g) * g)
                by (nonlinear_arith);
        }
        (g, y - x * q, x)
    }
}

/// Modulo a number without divisors between one and itself, every nonzero residue has an inverse.
pub proof fn lemma_prime_inverse(n: int, p: int) -> (m: int)
    requires
        0 < n < p,
        forall|d: int, q: int| 1 < d < p && 1 < q < p ==> #[trigger] (d * q) != p,
    ensures
        0 <= m < p,
        (n * m) % p == 1,
{
    let (g, x, y) = lemma_bezout(n, p);
    lemma_fundamental_div_mod(n, g);
    lemma_fundamental_div_mod(p, g);
    let q = p / g;
    assert(p == g * q);
    assert(g <= n) by (nonlinear_arith)
        requires
            n == g * (n / g),
            n > 0,
            g > 0,
    ;
    assert(g == 1) by {
        if g > 1 {
            assert(1 < q < p) by (nonlinear_arith)
                requires
                    p == g * q,
                    1 < g < p,
            ;
            assert(g * q != p);
        }
    }
    let m = x % p;
    lemma_mod_bound(x, p);
    assert((n * m) % p == (n * x) % p) by {
        lemma_mul_mod_noop_right(n, x, p);
    }
    assert(n * x == 1 + p * (-y)) by (nonlinear_arith)
        requires
            1 == x * n + y * p,
    ;
    lemma_mod_multiples_vanish(-y, 1, p);
    lemma_small_mod(1nat, p as nat);
    m
}

} // verus!
