//! What the arithmetic of the curve has to satisfy.
use vstd::prelude::*;
use crate::field;
use crate::field::algebra;
use crate::field::{Field, PrimeField32};
use crate::stark::septic_curve;
use crate::stark::septic_curve::Point;

verus! {

/// The power `z^i` of the generator of the extension.
pub open spec fn monomial<F: Field>(i: int) -> Seq<F> {
    Seq::new(
        7,
        |k: int|
            if k == i {
                F::one_elem()
            } else {
                F::zero_elem()
            },
    )
}

/// The sum, coefficient by coefficient.
pub open spec fn sum<F: Field>(s: Seq<F>, t: Seq<F>) -> Seq<F> {
    Seq::new(7, |k: int| s[k].plus(t[k]))
}

/// The multiple, coefficient by coefficient.
pub open spec fn multiple<F: Field>(c: F, s: Seq<F>) -> Seq<F> {
    Seq::new(7, |k: int| c.times(s[k]))
}

proof fn lemma_convolution_valid<F: Field>(s: Seq<F>, t: Seq<F>, k: int, n: nat)
    requires
        n <= 7,
    ensures
        septic_curve::convolution(s, t, k, n).valid(),
    decreases n,
{
    broadcast use algebra::group_valid;

    if n > 0 {
        lemma_convolution_valid(s, t, k, (n - 1) as nat);
    }
}

proof fn lemma_convolution_monomials<F: Field>(i: int, j: int, k: int, n: nat)
    requires
        0 <= i < 7,
        0 <= j < 7,
        n <= 7,
    ensures
        septic_curve::convolution(monomial::<F>(i), monomial::<F>(j), k, n) == if i < n && k == i
            + j {
            F::one_elem()
        } else {
            F::zero_elem()
        },
    decreases n,
{
    broadcast use algebra::group_valid;

    let one = F::one_elem();
    let zero = F::zero_elem();
    if n > 0 {
        lemma_convolution_monomials::<F>(i, j, k, (n - 1) as nat);
        algebra::lemma_products(one, one, one);
        algebra::lemma_products(zero, zero, zero);
        algebra::lemma_opposites(one, one);
        algebra::lemma_opposites(zero, zero);
        F::law_plus(one, one, one);
    }
}

/// Law: the product of two powers of the generator is the power of the sum of the exponents, where
/// `z^7` is `5` plus the linear factor of the field times `z`.
pub proof fn law_monomials<F: Field>(i: int, j: int)
    requires
        0 <= i < 7,
        0 <= j < 7,
    ensures
        septic_curve::septic_product(monomial::<F>(i), monomial::<F>(j)) == if i + j < 7 {
            monomial::<F>(i + j)
        } else {
            sum(
                multiple(F::from_int(5), monomial::<F>(i + j - 7)),
                multiple(septic_curve::linear_factor::<F>(), monomial::<F>(i + j - 6)),
            )
        },
{
    broadcast use algebra::group_valid;

    let one = F::one_elem();
    let zero = F::zero_elem();
    let five = F::from_int(5);
    let l = septic_curve::linear_factor::<F>();
    F::law_constants();
    F::law_from_int(5, 5);
    F::law_from_int(2, 2);
    F::law_from_int(3, 3);
    let m = septic_curve::septic_product(monomial::<F>(i), monomial::<F>(j));
    let wanted = if i + j < 7 {
        monomial::<F>(i + j)
    } else {
        sum(multiple(five, monomial::<F>(i + j - 7)), multiple(l, monomial::<F>(i + j - 6)))
    };
    algebra::lemma_products(five, five, five);
    algebra::lemma_products(l, l, l);
    algebra::lemma_opposites(one, zero);
    algebra::lemma_opposites(five, l);
    algebra::lemma_opposites(l, l);
    algebra::lemma_opposites(zero, zero);
    F::law_plus(one, zero, zero);
    F::law_plus(five, zero, zero);
    F::law_plus(l, zero, zero);
    F::law_plus(zero, zero, zero);
    assert forall|k: int| 0 <= k < 7 implies #[trigger] m[k] == wanted[k] by {
        lemma_convolution_monomials::<F>(i, j, k, 7);
        lemma_convolution_monomials::<F>(i, j, k + 7, 7);
        lemma_convolution_monomials::<F>(i, j, k + 6, 7);
    }
    assert(m =~= wanted);
}

proof fn lemma_convolution_linear<F: Field>(s: Seq<F>, u: Seq<F>, t: Seq<F>, c: F, k: int, n: nat)
    requires
        s.len() == 7,
        u.len() == 7,
        t.len() == 7,
        field::all_valid(s),
        field::all_valid(u),
        field::all_valid(t),
        c.valid(),
        n <= 7,
    ensures
        septic_curve::convolution(sum(s, multiple(c, u)), t, k, n) == septic_curve::convolution(
            s,
            t,
            k,
            n,
        ).plus(c.times(septic_curve::convolution(u, t, k, n))),
        septic_curve::convolution(t, sum(s, multiple(c, u)), k, n) == septic_curve::convolution(
            t,
            s,
            k,
            n,
        ).plus(c.times(septic_curve::convolution(t, u, k, n))),
    decreases n,
{
    broadcast use algebra::group_valid;

    if n == 0 {
        algebra::lemma_products(c, c, c);
        algebra::lemma_opposites(F::zero_elem(), c);
    } else {
        let i = n - 1;
        lemma_convolution_linear(s, u, t, c, k, i as nat);
        lemma_convolution_valid(s, t, k, i as nat);
        lemma_convolution_valid(u, t, k, i as nat);
        lemma_convolution_valid(t, s, k, i as nat);
        lemma_convolution_valid(t, u, k, i as nat);
        if 0 <= k - i < 7 {
            let j = k - i;
            lemma_term(
                septic_curve::convolution(s, t, k, i as nat),
                septic_curve::convolution(u, t, k, i as nat),
                s[i],
                u[i],
                t[j],
                c,
            );
            lemma_term(
                septic_curve::convolution(t, s, k, i as nat),
                septic_curve::convolution(t, u, k, i as nat),
                s[j],
                u[j],
                t[i],
                c,
            );
            algebra::lemma_products(t[i], s[j].plus(c.times(u[j])), c);
            algebra::lemma_products(t[i], s[j], c);
            algebra::lemma_products(t[i], u[j], c);
        }
    }
}

/// The step of a sum of products that is linear in one of the factors.
proof fn lemma_term<F: Field>(p: F, q: F, s: F, u: F, t: F, c: F)
    requires
        p.valid(),
        q.valid(),
        s.valid(),
        u.valid(),
        t.valid(),
        c.valid(),
    ensures
        p.plus(c.times(q)).plus(s.plus(c.times(u)).times(t)) == p.plus(s.times(t)).plus(
            c.times(q.plus(u.times(t))),
        ),
{
    broadcast use algebra::group_valid;

    algebra::lemma_products(t, s, c.times(u));
    algebra::lemma_products(c, u, t);
    algebra::lemma_products(c, q, u.times(t));
    let cq = c.times(q);
    let st = s.times(t);
    let cut = c.times(u.times(t));
    F::law_plus(p, cq, st.plus(cut));
    F::law_plus(cq, st, cut);
    F::law_plus(st, cq, cut);
    F::law_plus(p, st, cq.plus(cut));
    F::law_plus(cq, st, st);
}

/// Law: the product is linear in each of its factors.
pub proof fn law_product_is_linear<F: Field>(s: Seq<F>, u: Seq<F>, t: Seq<F>, c: F)
    requires
        s.len() == 7,
        u.len() == 7,
        t.len() == 7,
        field::all_valid(s),
        field::all_valid(u),
        field::all_valid(t),
        c.valid(),
    ensures
        septic_curve::septic_product(sum(s, multiple(c, u)), t) == sum(
            septic_curve::septic_product(s, t),
            multiple(c, septic_curve::septic_product(u, t)),
        ),
        septic_curve::septic_product(t, sum(s, multiple(c, u))) == sum(
            septic_curve::septic_product(t, s),
            multiple(c, septic_curve::septic_product(t, u)),
        ),
{
    broadcast use algebra::group_valid;

    let x = sum(s, multiple(c, u));
    let left = sum(
        septic_curve::septic_product(s, t),
        multiple(c, septic_curve::septic_product(u, t)),
    );
    let right = sum(
        septic_curve::septic_product(t, s),
        multiple(c, septic_curve::septic_product(t, u)),
    );
    assert forall|k: int| 0 <= k < 7 implies #[trigger] septic_curve::septic_product(x, t)[k]
        == left[k] by {
        lemma_convolution_linear(s, u, t, c, k, 7);
        lemma_convolution_linear(s, u, t, c, k + 7, 7);
        lemma_convolution_linear(s, u, t, c, k + 6, 7);
        lemma_coefficient(s, u, t, c, k);
    }
    assert forall|k: int| 0 <= k < 7 implies #[trigger] septic_curve::septic_product(t, x)[k]
        == right[k] by {
        lemma_convolution_linear(s, u, t, c, k, 7);
        lemma_convolution_linear(s, u, t, c, k + 7, 7);
        lemma_convolution_linear(s, u, t, c, k + 6, 7);
        lemma_coefficient_right(s, u, t, c, k);
    }
    assert(septic_curve::septic_product(x, t) =~= left);
    assert(septic_curve::septic_product(t, x) =~= right);
}

/// Three sums, each linear, weighed and added up.
proof fn lemma_weighed<F: Field>(a: F, a2: F, b: F, b2: F, d: F, d2: F, f: F, l: F, c: F)
    requires
        a.valid() && a2.valid() && b.valid() && b2.valid() && d.valid() && d2.valid(),
        f.valid() && l.valid() && c.valid(),
    ensures
        a.plus(c.times(a2)).plus(f.times(b.plus(c.times(b2)))) == a.plus(f.times(b)).plus(
            c.times(a2.plus(f.times(b2))),
        ),
        a.plus(c.times(a2)).plus(f.times(b.plus(c.times(b2)))).plus(
            l.times(d.plus(c.times(d2))),
        ) == a.plus(f.times(b)).plus(l.times(d)).plus(
            c.times(a2.plus(f.times(b2)).plus(l.times(d2))),
        ),
{
    broadcast use algebra::group_valid;

    lemma_term(a, a2, b, b2, f, c);
    algebra::lemma_products(f, b.plus(c.times(b2)), b);
    algebra::lemma_products(f, b, b);
    algebra::lemma_products(f, b2, b2);
    lemma_term(a.plus(f.times(b)), a2.plus(f.times(b2)), d, d2, l, c);
    algebra::lemma_products(l, d.plus(c.times(d2)), d);
    algebra::lemma_products(l, d, d);
    algebra::lemma_products(l, d2, d2);
}

proof fn lemma_coefficient<F: Field>(s: Seq<F>, u: Seq<F>, t: Seq<F>, c: F, k: int)
    requires
        c.valid(),
        0 <= k < 7,
    ensures
        ({
            let v = |x: Seq<F>, i: int| septic_curve::convolution(x, t, i, 7);
            let f = F::from_int(5);
            let l = septic_curve::linear_factor::<F>();
            &&& v(s, k).plus(c.times(v(u, k))).plus(
                f.times(v(s, k + 7).plus(c.times(v(u, k + 7)))),
            ) == v(s, k).plus(f.times(v(s, k + 7))).plus(
                c.times(v(u, k).plus(f.times(v(u, k + 7)))),
            )
            &&& v(s, k).plus(c.times(v(u, k))).plus(
                f.times(v(s, k + 7).plus(c.times(v(u, k + 7)))),
            ).plus(l.times(v(s, k + 6).plus(c.times(v(u, k + 6))))) == v(s, k).plus(
                f.times(v(s, k + 7)),
            ).plus(l.times(v(s, k + 6))).plus(
                c.times(
                    v(u, k).plus(f.times(v(u, k + 7))).plus(l.times(v(u, k + 6))),
                ),
            )
        }),
{
    F::law_from_int(5, 5);
    F::law_from_int(2, 2);
    F::law_from_int(3, 3);
    lemma_convolution_valid(s, t, k, 7);
    lemma_convolution_valid(s, t, k + 7, 7);
    lemma_convolution_valid(s, t, k + 6, 7);
    lemma_convolution_valid(u, t, k, 7);
    lemma_convolution_valid(u, t, k + 7, 7);
    lemma_convolution_valid(u, t, k + 6, 7);
    lemma_weighed(
        septic_curve::convolution(s, t, k, 7),
        septic_curve::convolution(u, t, k, 7),
        septic_curve::convolution(s, t, k + 7, 7),
        septic_curve::convolution(u, t, k + 7, 7),
        septic_curve::convolution(s, t, k + 6, 7),
        septic_curve::convolution(u, t, k + 6, 7),
        F::from_int(5),
        septic_curve::linear_factor::<F>(),
        c,
    );
}

proof fn lemma_coefficient_right<F: Field>(s: Seq<F>, u: Seq<F>, t: Seq<F>, c: F, k: int)
    requires
        c.valid(),
        0 <= k < 7,
    ensures
        ({
            let v = |x: Seq<F>, i: int| septic_curve::convolution(t, x, i, 7);
            let f = F::from_int(5);
            let l = septic_curve::linear_factor::<F>();
            &&& v(s, k).plus(c.times(v(u, k))).plus(
                f.times(v(s, k + 7).plus(c.times(v(u, k + 7)))),
            ) == v(s, k).plus(f.times(v(s, k + 7))).plus(
                c.times(v(u, k).plus(f.times(v(u, k + 7)))),
            )
            &&& v(s, k).plus(c.times(v(u, k))).plus(
                f.times(v(s, k + 7).plus(c.times(v(u, k + 7)))),
            ).plus(l.times(v(s, k + 6).plus(c.times(v(u, k + 6))))) == v(s, k).plus(
                f.times(v(s, k + 7)),
            ).plus(l.times(v(s, k + 6))).plus(
                c.times(
                    v(u, k).plus(f.times(v(u, k + 7))).plus(l.times(v(u, k + 6))),
                ),
            )
        }),
{
    F::law_from_int(5, 5);
    F::law_from_int(2, 2);
    F::law_from_int(3, 3);
    lemma_convolution_valid(t, s, k, 7);
    lemma_convolution_valid(t, s, k + 7, 7);
    lemma_convolution_valid(t, s, k + 6, 7);
    lemma_convolution_valid(t, u, k, 7);
    lemma_convolution_valid(t, u, k + 7, 7);
    lemma_convolution_valid(t, u, k + 6, 7);
    lemma_weighed(
        septic_curve::convolution(t, s, k, 7),
        septic_curve::convolution(t, u, k, 7),
        septic_curve::convolution(t, s, k + 7, 7),
        septic_curve::convolution(t, u, k + 7, 7),
        septic_curve::convolution(t, s, k + 6, 7),
        septic_curve::convolution(t, u, k + 6, 7),
        F::from_int(5),
        septic_curve::linear_factor::<F>(),
        c,
    );
}

/// The coefficients of both coordinates are canonical, seven of each.
pub open spec fn canonical<F: Field>(p: Point<F>) -> bool {
    &&& p.x.len() == 7 && field::all_valid(p.x)
    &&& p.y.len() == 7 && field::all_valid(p.y)
}

/// The slope is that of the chord through two points: the difference of the second coordinates times
/// what multiplies with the difference of the first ones to one.
pub open spec fn is_slope<F: Field>(m: Seq<F>, p: Point<F>, q: Point<F>) -> bool {
    exists|u: Seq<F>| #[trigger]
        septic_curve::septic_product(septic_curve::septic_difference(q.x, p.x), u)
            == septic_curve::septic_one::<F>() && m == septic_curve::septic_product(
            septic_curve::septic_difference(q.y, p.y),
            u,
        )
}

/// Law: the sum of two points lies, mirrored, on their chord: with the slope `m`, the three first
/// coordinates add up to `m^2`, and the second coordinate of the sum and that of the first point add
/// up to `m` times the way from the sum back to that point.
pub proof fn law_chord<F: PrimeField32>(p: Point<F>, q: Point<F>)
    requires
        canonical(p),
        canonical(q),
        septic_curve::chord_sum(p, q) is Some,
    ensures
        ({
            let r = septic_curve::chord_sum(p, q)->0;
            &&& r.x.len() == 7 && r.y.len() == 7
            &&& exists|m: Seq<F>| #[trigger]
                is_slope(m, p, q) && sum(sum(r.x, q.x), p.x) == septic_curve::septic_product(m, m)
                    && sum(r.y, p.y) == septic_curve::septic_product(
                    m,
                    septic_curve::septic_difference(p.x, r.x),
                )
        }),
{
    broadcast use algebra::group_valid;

    let dx = septic_curve::septic_difference(q.x, p.x);
    let u = septic_curve::septic_inverse(dx)->0;
    assert(septic_curve::septic_product(dx, u) == septic_curve::septic_one::<F>());
    let m = septic_curve::septic_product(septic_curve::septic_difference(q.y, p.y), u);
    assert(is_slope(m, p, q));
    let r = septic_curve::chord_sum(p, q)->0;
    let square = septic_curve::septic_product(m, m);
    let way = septic_curve::septic_product(m, septic_curve::septic_difference(p.x, r.x));
    lemma_product_valid(m, m);
    lemma_product_valid(m, septic_curve::septic_difference(p.x, r.x));
    assert forall|k: int| 0 <= k < 7 implies #[trigger] sum(sum(r.x, q.x), p.x)[k] == square[k]
        && sum(r.y, p.y)[k] == way[k] by {
        algebra::lemma_opposites(square[k].minus(p.x[k]), q.x[k]);
        algebra::lemma_opposites(square[k], p.x[k]);
        algebra::lemma_opposites(way[k], p.y[k]);
    }
    assert(sum(sum(r.x, q.x), p.x) =~= square);
    assert(sum(r.y, p.y) =~= way);
}

proof fn lemma_product_valid<F: Field>(s: Seq<F>, t: Seq<F>)
    ensures
        septic_curve::septic_product(s, t).len() == 7,
        field::all_valid(septic_curve::septic_product(s, t)),
{
    broadcast use algebra::group_valid;

    assert forall|k: int| 0 <= k < 7 implies #[trigger] septic_curve::septic_product(
        s,
        t,
    )[k].valid() by {
        lemma_convolution_valid(s, t, k, 7);
    }
}

proof fn lemma_convolution_zero<F: Field>(s: Seq<F>, t: Seq<F>, k: int, n: nat)
    requires
        n <= 7,
        t.len() == 7,
        field::all_valid(t),
        forall|i: int| 0 <= i < 7 ==> #[trigger] s[i] == F::zero_elem(),
    ensures
        septic_curve::convolution(s, t, k, n) == F::zero_elem(),
    decreases n,
{
    broadcast use algebra::group_valid;

    if n > 0 {
        let i = n - 1;
        lemma_convolution_zero(s, t, k, i as nat);
        if 0 <= k - i < 7 {
            algebra::lemma_products(t[k - i], t[k - i], t[k - i]);
            algebra::lemma_opposites(F::zero_elem(), F::zero_elem());
        }
    }
}

/// Law: two points with the same first coordinate have no chord, so neither has a point with its
/// mirror image.
pub proof fn law_no_chord<F: PrimeField32>(p: Point<F>, q: Point<F>)
    requires
        canonical(p),
        canonical(q),
        p.x == q.x,
    ensures
        septic_curve::chord_sum(p, q) is None,
        septic_curve::mirrored(p).x == p.x,
        sum(septic_curve::mirrored(p).y, p.y) == Seq::new(7, |k: int| F::zero_elem()),
{
    broadcast use algebra::group_valid;

    F::law_constants();
    let dx = septic_curve::septic_difference(q.x, p.x);
    let u = septic_curve::inverse_power(dx, 7);
    assert forall|i: int| 0 <= i < 7 implies #[trigger] dx[i] == F::zero_elem() by {
        algebra::lemma_opposites(p.x[i], p.x[i]);
    }
    lemma_inverse_power_valid(dx, 7);
    lemma_convolution_zero(dx, u, 0, 7);
    lemma_convolution_zero(dx, u, 7, 7);
    F::law_from_int(5, 5);
    algebra::lemma_products(F::from_int(5), F::zero_elem(), F::zero_elem());
    algebra::lemma_opposites(F::zero_elem(), F::zero_elem());
    assert(septic_curve::septic_product(dx, u)[0] == F::zero_elem());
    assert(septic_curve::septic_one::<F>()[0] == F::one_elem());
    assert forall|k: int| 0 <= k < 7 implies #[trigger] sum(septic_curve::mirrored(p).y, p.y)[k]
        == F::zero_elem() by {
        F::law_plus(p.y[k], p.y[k].opposite(), p.y[k]);
    }
    assert(sum(septic_curve::mirrored(p).y, p.y) =~= Seq::new(7, |k: int| F::zero_elem()));
}

proof fn lemma_inverse_power_valid<F: PrimeField32>(s: Seq<F>, digits: nat)
    ensures
        septic_curve::inverse_power(s, digits).len() == 7,
        field::all_valid(septic_curve::inverse_power(s, digits)),
{
    broadcast use algebra::group_valid;

    if digits > 0 {
        let digit = if digits == 7 {
            F::characteristic() - 2
        } else {
            F::characteristic() - 1
        };
        lemma_product_valid(
            septic_curve::septic_power(
                septic_curve::inverse_power(s, (digits - 1) as nat),
                F::characteristic() as nat,
            ),
            septic_curve::septic_power(s, digit as nat),
        );
    }
}

} // verus!
