//! Consequences of the field laws.
use vstd::prelude::*;
use vstd::arithmetic::power2::*;
use crate::field;
use crate::field::{Field, TwoAdicField};

verus! {

pub broadcast proof fn lemma_plus_valid<F: Field>(a: F, b: F)
    ensures
        (#[trigger] a.plus(b)).valid(),
{
    F::law_closed(a, b);
}

pub broadcast proof fn lemma_minus_valid<F: Field>(a: F, b: F)
    ensures
        (#[trigger] a.minus(b)).valid(),
{
    F::law_closed(a, b);
}

pub broadcast proof fn lemma_times_valid<F: Field>(a: F, b: F)
    ensures
        (#[trigger] a.times(b)).valid(),
{
    F::law_closed(a, b);
}

pub broadcast proof fn lemma_opposite_valid<F: Field>(a: F)
    ensures
        (#[trigger] a.opposite()).valid(),
{
    F::law_closed(a, a);
}

pub broadcast proof fn lemma_zero_valid<F: Field>()
    ensures
        (#[trigger] F::zero_elem()).valid(),
{
    F::law_constants();
}

pub broadcast proof fn lemma_one_valid<F: Field>()
    ensures
        (#[trigger] F::one_elem()).valid(),
{
    F::law_constants();
}

/// The results of the operations are canonical.
pub broadcast group group_valid {
    lemma_plus_valid,
    lemma_minus_valid,
    lemma_times_valid,
    lemma_opposite_valid,
    lemma_zero_valid,
    lemma_one_valid,
}

pub proof fn lemma_opposite_unique<F: Field>(a: F, b: F)
    requires
        a.valid(),
        b.valid(),
        a.plus(b) == F::zero_elem(),
    ensures
        b == a.opposite(),
{
    broadcast use group_valid;

    let z = F::zero_elem();
    let na = a.opposite();
    F::law_plus(a, na, b);
    F::law_plus(na, a, b);
    F::law_plus(b, z, z);
    F::law_plus(z, b, b);
    F::law_plus(na, z, z);
}

pub proof fn lemma_plus_cancel<F: Field>(a: F, b: F, c: F)
    requires
        a.valid(),
        b.valid(),
        c.valid(),
        a.plus(b) == a.plus(c),
    ensures
        b == c,
{
    broadcast use group_valid;

    let z = F::zero_elem();
    let na = a.opposite();
    F::law_plus(a, na, b);
    F::law_plus(na, a, b);
    F::law_plus(na, a, c);
    F::law_plus(z, b, b);
    F::law_plus(b, z, z);
    F::law_plus(z, c, c);
    F::law_plus(c, z, z);
}

/// The opposite of an opposite and of a sum, and zero.
pub proof fn lemma_opposites<F: Field>(a: F, b: F)
    requires
        a.valid(),
        b.valid(),
    ensures
        a.opposite().opposite() == a,
        a.plus(b).opposite() == a.opposite().plus(b.opposite()),
        F::zero_elem().opposite() == F::zero_elem(),
        F::zero_elem().plus(a) == a,
        F::zero_elem().minus(a) == a.opposite(),
        a.minus(F::zero_elem()) == a,
        a.minus(a) == F::zero_elem(),
        a.minus(b).plus(b) == a,
        a.plus(b).minus(b) == a,
        a.minus(b).opposite() == b.minus(a),
{
    broadcast use group_valid;

    let z = F::zero_elem();
    let na = a.opposite();
    let nb = b.opposite();
    F::law_plus(a, a, a);
    F::law_plus(a, na, a);
    F::law_plus(na, a, a);
    lemma_opposite_unique(na, a);
    // (a + b) + (-a + -b) = (a + -a) + (b + -b) = 0.
    F::law_plus(a, b, na.plus(nb));
    F::law_plus(b, na, nb);
    F::law_plus(na, b, nb);
    F::law_plus(b, nb, b);
    F::law_plus(nb, b, b);
    F::law_plus(na, z, z);
    F::law_plus(z, z, z);
    lemma_opposite_unique(a.plus(b), na.plus(nb));
    lemma_opposite_unique(z, z);
    F::law_plus(a, z, z);
    F::law_plus(z, a, a);
    F::law_plus(z, na, na);
    F::law_plus(a, nb, b);
    F::law_plus(a, b, nb);
    F::law_plus(a.plus(b), b, b);
    F::law_plus(b, na, na);
    F::law_plus(b, a, a);
    // -(a - b) = -a + b = b - a.
    lemma_opposite_of_minus(a, b);
}

proof fn lemma_opposite_of_minus<F: Field>(a: F, b: F)
    requires
        a.valid(),
        b.valid(),
    ensures
        a.minus(b).opposite() == b.minus(a),
{
    broadcast use group_valid;

    let z = F::zero_elem();
    let na = a.opposite();
    let nb = b.opposite();
    F::law_plus(a, b, b);
    F::law_plus(b, a, a);
    F::law_plus(a, nb, b.plus(na));
    F::law_plus(nb, b, na);
    F::law_plus(b, nb, nb);
    F::law_plus(z, na, na);
    F::law_plus(na, z, z);
    F::law_plus(a, na, na);
    lemma_opposite_unique(a.minus(b), b.minus(a));
}

/// Regrouping of sums and differences of three elements.
pub proof fn lemma_regroup<F: Field>(a: F, b: F, c: F)
    requires
        a.valid(),
        b.valid(),
        c.valid(),
    ensures
        a.plus(b) == b.plus(a),
        a.plus(b).plus(c) == a.plus(b.plus(c)),
        a.plus(b).plus(c) == a.plus(c).plus(b),
        a.plus(b).minus(c) == a.plus(b.minus(c)),
        a.plus(b).minus(c) == a.minus(c).plus(b),
        a.minus(b).minus(c) == a.minus(b.plus(c)),
        a.minus(b).minus(c) == a.minus(c).minus(b),
        a.minus(b.minus(c)) == a.minus(b).plus(c),
        a.plus(b).minus(a.plus(c)) == b.minus(c),
        a.minus(b).plus(b.minus(c)) == a.minus(c),
{
    broadcast use group_valid;

    let nb = b.opposite();
    let nc = c.opposite();
    F::law_plus(a, b, c);
    F::law_plus(a, c, b);
    F::law_plus(b, c, a);
    F::law_plus(a, b, nc);
    F::law_plus(a, nc, b);
    F::law_plus(b, nc, a);
    F::law_plus(a.plus(b), c, c);
    F::law_plus(a, nb, nc);
    F::law_plus(a, nc, nb);
    F::law_plus(nb, nc, a);
    F::law_plus(a.minus(b), c, c);
    F::law_plus(a.minus(c), b, b);
    F::law_plus(a, b.plus(c), c);
    lemma_opposites(b, c);
    F::law_plus(a, b.minus(c), c);
    F::law_plus(a, nb, c);
    F::law_plus(c, nb, nb);
    F::law_plus(c, b, b);
    F::law_plus(b, c, c);
    // (a + b) - (a + c) = (b + a) - (a + c) = b + (a - (a + c)) = b - c.
    let na = a.opposite();
    lemma_opposites(a, c);
    F::law_plus(a.plus(b), a.plus(c), a);
    F::law_plus(b, a, na.plus(nc));
    F::law_plus(a, na, nc);
    F::law_plus(nc, F::zero_elem(), a);
    F::law_plus(F::zero_elem(), nc, a);
    // (a - b) + (b - c) = a + (-b + (b + -c)) = a - c.
    F::law_plus(a, nb, b.plus(nc));
    F::law_plus(nb, b, nc);
    F::law_plus(b, nb, nb);
}

/// `(a - b) + (c - d) = (a + c) - (b + d)`.
pub proof fn lemma_minus_plus<F: Field>(a: F, b: F, c: F, d: F)
    requires
        a.valid(),
        b.valid(),
        c.valid(),
        d.valid(),
    ensures
        a.minus(b).plus(c.minus(d)) == a.plus(c).minus(b.plus(d)),
{
    broadcast use group_valid;

    lemma_regroup(a.minus(b), c, d);
    lemma_regroup(a, c, b);
    lemma_regroup(a.plus(c), b, d);
}

/// `(a + b) - (c + d) = (a - c) + (b - d)`.
pub proof fn lemma_plus_minus_plus<F: Field>(a: F, b: F, c: F, d: F)
    requires
        a.valid(),
        b.valid(),
        c.valid(),
        d.valid(),
    ensures
        a.plus(b).minus(c.plus(d)) == a.minus(c).plus(b.minus(d)),
{
    lemma_minus_plus(a, c, b, d);
}

/// `(a - b) - (c - d) = (a - c) - (b - d)`.
pub proof fn lemma_minus_swap<F: Field>(a: F, b: F, c: F, d: F)
    requires
        a.valid(),
        b.valid(),
        c.valid(),
        d.valid(),
    ensures
        a.minus(b).minus(c.minus(d)) == a.minus(c).minus(b.minus(d)),
{
    broadcast use group_valid;

    lemma_regroup(a.minus(b), c, d);
    lemma_regroup(a.minus(c), b, d);
    lemma_regroup(a, b, c);
}

/// Products with zero, opposites, sums and differences.
pub proof fn lemma_products<F: Field>(a: F, b: F, c: F)
    requires
        a.valid(),
        b.valid(),
        c.valid(),
    ensures
        a.times(F::zero_elem()) == F::zero_elem(),
        F::zero_elem().times(a) == F::zero_elem(),
        F::one_elem().times(a) == a,
        a.times(F::one_elem()) == a,
        a.times(b) == b.times(a),
        a.times(b).times(c) == a.times(b.times(c)),
        a.times(b).times(c) == a.times(c).times(b),
        a.times(b.plus(c)) == a.times(b).plus(a.times(c)),
        b.plus(c).times(a) == b.times(a).plus(c.times(a)),
        a.times(b.minus(c)) == a.times(b).minus(a.times(c)),
        b.minus(c).times(a) == b.times(a).minus(c.times(a)),
        a.times(b.opposite()) == a.times(b).opposite(),
        a.opposite().times(b) == a.times(b).opposite(),
{
    broadcast use group_valid;

    let z = F::zero_elem();
    F::law_times(a, z, z);
    F::law_times(z, a, a);
    F::law_plus(z, z, z);
    F::law_plus(a.times(z), z, z);
    lemma_plus_cancel(a.times(z), a.times(z), z);
    F::law_times(a, F::one_elem(), a);
    F::law_times(F::one_elem(), a, a);
    F::law_times(a, b, c);
    F::law_times(a, c, b);
    F::law_times(b, c, a);
    F::law_times(c, a, b);
    F::law_times(b, a, c);
    F::law_times(b.plus(c), a, a);
    let nb = b.opposite();
    let nc = c.opposite();
    F::law_times(a, b, nb);
    F::law_plus(b, nb, nb);
    lemma_opposite_unique(a.times(b), a.times(nb));
    F::law_times(a, c, nc);
    F::law_plus(c, nc, nc);
    lemma_opposite_unique(a.times(c), a.times(nc));
    F::law_times(a, b, nc);
    F::law_plus(b, c, c);
    F::law_plus(a.times(b), a.times(c), c);
    F::law_times(b.minus(c), a, a);
    let na = a.opposite();
    F::law_times(b, a, na);
    F::law_plus(a, na, na);
    F::law_times(b, na, na);
    F::law_times(na, b, b);
    F::law_times(b, z, z);
    F::law_times(z, b, b);
    F::law_plus(b.times(z), z, z);
    lemma_plus_cancel(b.times(z), b.times(z), z);
    F::law_times(b, z, z);
    lemma_opposite_unique(b.times(a), b.times(na));
}

/// A unit has one inverse.
pub proof fn lemma_inverse_unique<F: Field>(a: F, y: F)
    requires
        a.valid(),
        field::is_inverse(a, y),
    ensures
        field::is_unit(a),
        field::inverse(a) == y,
        field::inverse(a).valid(),
        a.times(field::inverse(a)) == F::one_elem(),
{
    let z = field::inverse(a);
    assert(field::is_inverse(a, z));
    F::law_constants();
    lemma_products(y, a, z);
    lemma_products(a, y, z);
    lemma_products(z, y, a);
}

/// The inverse of a unit is canonical and multiplies with it to one.
pub proof fn lemma_unit<F: Field>(a: F)
    requires
        a.valid(),
        field::is_unit(a),
    ensures
        field::inverse(a).valid(),
        a.times(field::inverse(a)) == F::one_elem(),
        field::inverse(a).times(a) == F::one_elem(),
        a != F::zero_elem(),
        field::is_unit(field::inverse(a)),
        field::inverse(field::inverse(a)) == a,
{
    let y = choose|y: F| field::is_inverse(a, y);
    lemma_inverse_unique(a, y);
    F::law_constants();
    F::law_times(a, y, y);
    F::law_times(y, a, a);
    lemma_products(y, a, a);
    assert(field::is_inverse(y, a));
    lemma_inverse_unique(y, a);
}

/// The product of units is a unit, and its inverse the product of the inverses.
pub proof fn lemma_unit_product<F: Field>(a: F, b: F)
    requires
        a.valid(),
        b.valid(),
        field::is_unit(a),
        field::is_unit(b),
    ensures
        field::is_unit(a.times(b)),
        field::inverse(a.times(b)) == field::inverse(a).times(field::inverse(b)),
{
    broadcast use group_valid;

    lemma_unit(a);
    lemma_unit(b);
    let x = field::inverse(a);
    let y = field::inverse(b);
    // (a b)(x y) = ((a b) x) y = ((a x) b) y = b y.
    lemma_products(a.times(b), x, y);
    lemma_products(a, b, x);
    lemma_products(b, x, y);
    assert(field::is_inverse(a.times(b), x.times(y)));
    lemma_inverse_unique(a.times(b), x.times(y));
}

/// The opposite of a unit is a unit.
pub proof fn lemma_unit_opposite<F: Field>(a: F)
    requires
        a.valid(),
        field::is_unit(a),
    ensures
        field::is_unit(a.opposite()),
        field::inverse(a.opposite()) == field::inverse(a).opposite(),
{
    broadcast use group_valid;

    lemma_unit(a);
    let x = field::inverse(a);
    lemma_products(a.opposite(), x, x);
    lemma_products(a, x, x);
    lemma_opposites(a.times(x), a);
    assert(field::is_inverse(a.opposite(), x.opposite()));
    lemma_inverse_unique(a.opposite(), x.opposite());
}

/// Two is a unit.
pub proof fn lemma_two_unit<F: Field>()
    ensures
        field::is_unit(F::from_int(2)),
        F::from_int(2).valid(),
        F::from_int(2) == F::one_elem().plus(F::one_elem()),
{
    F::law_constants();
    F::law_small_int_unit(2);
    F::law_from_int(1, 1);
    F::law_from_int(2, 0);
    let y = choose|y: F| #[trigger] y.valid() && F::from_int(2).times(y) == F::one_elem();
    assert(field::is_inverse(F::from_int(2), y));
}

/// `a + a` is twice `a`.
pub proof fn lemma_double<F: Field>(a: F)
    requires
        a.valid(),
    ensures
        a.plus(a) == F::from_int(2).times(a),
{
    broadcast use group_valid;

    lemma_two_unit::<F>();
    lemma_products(a, F::one_elem(), F::one_elem());
}

pub proof fn lemma_power_valid<F: Field>(a: F, n: nat)
    ensures
        field::power(a, n).valid(),
{
    broadcast use group_valid;

    if n > 0 {
        assert(field::power(a, n) == field::power(a, (n - 1) as nat).times(a));
    }
}

pub proof fn lemma_power_sum<F: Field>(a: F, m: nat, n: nat)
    requires
        a.valid(),
    ensures
        field::power(a, m + n) == field::power(a, m).times(field::power(a, n)),
    decreases n,
{
    broadcast use group_valid;

    lemma_power_valid(a, m);
    if n == 0 {
        lemma_products(field::power(a, m), a, a);
    } else {
        lemma_power_sum(a, m, (n - 1) as nat);
        lemma_power_valid(a, (n - 1) as nat);
        lemma_products(field::power(a, m), field::power(a, (n - 1) as nat), a);
        assert((m + n - 1) as nat == m + (n - 1) as nat);
    }
}

/// The powers of a unit are units, and their inverses the powers of its inverse.
pub proof fn lemma_unit_power<F: Field>(a: F, n: nat)
    requires
        a.valid(),
        field::is_unit(a),
    ensures
        field::is_unit(field::power(a, n)),
        field::inverse(field::power(a, n)) == field::power(field::inverse(a), n),
    decreases n,
{
    broadcast use group_valid;

    if n == 0 {
        lemma_products(F::one_elem(), F::one_elem(), F::one_elem());
        assert(field::is_inverse(F::one_elem(), F::one_elem()));
        lemma_inverse_unique(F::one_elem(), F::one_elem());
    } else {
        lemma_unit_power(a, (n - 1) as nat);
        lemma_power_valid(a, (n - 1) as nat);
        lemma_unit_product(field::power(a, (n - 1) as nat), a);
    }
}

/// An element of finite order is a unit.
pub proof fn lemma_order_unit<F: Field>(a: F, n: nat)
    requires
        a.valid(),
        n > 0,
        field::power(a, n) == F::one_elem(),
    ensures
        field::is_unit(a),
{
    lemma_power_valid(a, (n - 1) as nat);
    F::law_times(field::power(a, (n - 1) as nat), a, a);
    assert(field::is_inverse(a, field::power(a, (n - 1) as nat)));
}

/// The generator of order `2^bits` raised to the power `2^bits` is one, and to half of it the
/// opposite of one.
pub proof fn lemma_generator_order<F: TwoAdicField>(bits: nat)
    requires
        bits <= F::two_adicity(),
    ensures
        F::generator_elem(bits).valid(),
        field::power(F::generator_elem(bits), pow2(bits)) == F::one_elem(),
        field::is_unit(F::generator_elem(bits)),
        bits > 0 ==> field::power(F::generator_elem(bits), pow2((bits - 1) as nat))
            == F::one_elem().opposite(),
    decreases bits,
{
    broadcast use group_valid;

    F::law_generator(bits);
    let g = F::generator_elem(bits);
    lemma_pow2_pos(bits);
    if bits == 0 {
        lemma2_to64();
        lemma_power_small(g);
    } else {
        lemma_generator_order::<F>((bits - 1) as nat);
        lemma_pow2_unfold(bits);
        lemma_power_square(g, pow2((bits - 1) as nat));
        if bits == 1 {
            lemma2_to64();
            lemma_power_small(g);
        } else {
            lemma_pow2_unfold((bits - 1) as nat);
            lemma_power_square(g, pow2((bits - 2) as nat));
        }
    }
    lemma_order_unit(g, pow2(bits));
}

pub proof fn lemma_power_small<F: Field>(a: F)
    requires
        a.valid(),
    ensures
        field::power(a, 0) == F::one_elem(),
        field::power(a, 1) == a,
        field::power(a, 2) == a.times(a),
{
    broadcast use group_valid;

    lemma_products(a, a, a);
    assert(field::power(a, 1) == field::power(a, 0).times(a));
    assert(field::power(a, 2) == field::power(a, 1).times(a));
}

/// `base` raised to the power `n`, by repeated squaring.
pub fn exp_u64<F: Field>(base: F, n: u64) -> (r: F)
    requires
        base.valid(),
    ensures
        r == field::power(base, n as nat),
        r.valid(),
{
    broadcast use group_valid;

    let mut result = F::one();
    let mut square = base;
    let mut rest: u64 = n;
    proof {
        lemma_power_valid(base, n as nat);
        lemma_products(field::power(base, n as nat), base, base);
    }
    while rest > 0
        invariant
            result.valid(),
            square.valid(),
            field::power(base, n as nat) == result.times(field::power(square, rest as nat)),
        decreases rest,
    {
        let ghost half = (rest / 2) as nat;
        let ghost r0 = result;
        let ghost s0 = square;
        proof {
            F::law_closed(r0, s0);
            F::law_closed(s0, s0);
            lemma_power_square(s0, half);
            lemma_power_valid(s0.times(s0), half);
            if rest % 2 == 1 {
                assert(rest as nat == 2 * half + 1);
                // power(s, 2h + 1) = power(s, 2h) s.
                lemma_products(r0, field::power(s0.times(s0), half), s0);
                lemma_products(r0, s0, field::power(s0.times(s0), half));
            } else {
                assert(rest as nat == 2 * half);
            }
        }
        if rest % 2 == 1 {
            result = result.mul(square);
        }
        square = square.mul(square);
        rest = rest / 2;
    }
    proof {
        lemma_products(result, result, result);
        lemma_power_valid(base, n as nat);
    }
    result
}

/// The square of a power is the power of the square.
pub proof fn lemma_power_product<F: Field>(a: F, n: nat)
    requires
        a.valid(),
    ensures
        field::power(a, n).times(field::power(a, n)) == field::power(a.times(a), n),
{
    lemma_power_sum(a, n, n);
    lemma_power_square(a, n);
    assert(n + n == 2 * n);
}

pub proof fn lemma_power_square<F: Field>(a: F, n: nat)
    requires
        a.valid(),
    ensures
        field::power(a, 2 * n) == field::power(a.times(a), n),
    decreases n,
{
    broadcast use group_valid;

    if n > 0 {
        lemma_power_square(a, (n - 1) as nat);
        let m = (2 * n - 2) as nat;
        assert((2 * n - 1) as nat == m + 1);
        assert((2 * n) as nat == m + 2);
        assert(field::power(a, m + 2) == field::power(a, m + 1).times(a));
        assert(field::power(a, m + 1) == field::power(a, m).times(a));
        lemma_power_valid(a, m);
        lemma_products(field::power(a, m), a, a);
        assert(2 * ((n - 1) as nat) == m);
    }
}

} // verus!
