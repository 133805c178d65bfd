//! Reed-Solomon encoding of multilinear polynomials.
use vstd::prelude::*;
use vstd::arithmetic::power2::*;
use crate::basefold::fold;
use crate::basefold::mlpoly;
use crate::bits;
use crate::field;
use crate::field::algebra;
use crate::field::koala_bear::KoalaBear;
use crate::field::{ExtensionField, Field, PrimeField32, TwoAdicExtension, TwoAdicField};
use p3_dft::dft_eval::EvalsDft;
use p3_field::AbstractField;
use p3_field::PrimeField32 as OuterPrimeField32;
use p3_koala_bear::KoalaBear as OuterKoalaBear;
use p3_matrix::dense::RowMajorMatrix;

verus! {

/// The value of the multilinear polynomial with the given table at the successive squares of
/// `alpha`, the last variable first.
pub open spec fn mle_at<F: Field>(evals: Seq<F>, alpha: F) -> F
    decreases evals.len(),
{
    if evals.len() <= 1 {
        evals[0]
    } else {
        mle_at(mlpoly::bound_bottom(evals, alpha), alpha.times(alpha))
    }
}

/// A field with the Fourier transform of multilinear polynomials given by their tables.
pub trait DftField: TwoAdicField {
    /// Row `j` of the result holds the value of each column's polynomial at the successive squares
    /// of the power `j` of the generator.
    fn dft_batch_by_evals(values: &Vec<Self>, width: usize) -> (r: Vec<Self>)
        requires
            width > 0,
            values@.len() % width as nat == 0,
            bits::power_of_two(values@.len() / width as nat),
            bits::log2(values@.len() / width as nat) <= Self::two_adicity(),
            field::all_valid(values@),
        ensures
            r@.len() == values@.len(),
            field::all_valid(r@),
            forall|j: int, c: int|
                0 <= j < values@.len() / width as nat && 0 <= c < width ==> #[trigger] r@[j * width
                    + c] == mle_at(
                    Seq::new(values@.len() / width as nat, |i: int| values@[i * width + c]),
                    field::power(
                        Self::generator_elem(bits::log2(values@.len() / width as nat)),
                        j as nat,
                    ),
                ),
    ;
}

/// The table of the polynomial in more variables that does not depend on the first ones.
pub open spec fn repeated<F>(evals: Seq<F>, log_blowup: nat) -> Seq<F> {
    Seq::new(evals.len() * pow2(log_blowup), |i: int| evals[i % evals.len() as int])
}

/// The codeword of a table: its polynomial at the successive squares of the roots of unity, in
/// bit-reversed order.
pub open spec fn encoded<F: TwoAdicField>(evals: Seq<F>, log_blowup: nat) -> Seq<F> {
    let n = bits::log2(evals.len()) + log_blowup;
    Seq::new(
        pow2(n),
        |i: int|
            mle_at(
                repeated(evals, log_blowup),
                field::power(F::generator_elem(n), bits::reversed(i as nat, n)),
            ),
    )
}

/// Column `c` of a matrix of rows of `width` entries.
pub open spec fn column<F>(values: Seq<F>, width: nat, c: int) -> Seq<F> {
    Seq::new(values.len() / width, |i: int| values[i * width + c])
}

/// The two ways to bind two variables agree.
proof fn lemma_lerp_swap<F: Field>(a0: F, a1: F, b0: F, b1: F, t: F, y: F)
    requires
        a0.valid(),
        a1.valid(),
        b0.valid(),
        b1.valid(),
        t.valid(),
        y.valid(),
    ensures
        mlpoly::lerp(mlpoly::lerp(a0, b0, t), mlpoly::lerp(a1, b1, t), y) == mlpoly::lerp(
            mlpoly::lerp(a0, a1, y),
            mlpoly::lerp(b0, b1, y),
            t,
        ),
{
    broadcast use algebra::group_valid;

    // Both are a0 + t u + y v + t y w with u = b0 - a0, v = a1 - a0, w = (b1 - b0) - (a1 - a0).
    let u = b0.minus(a0);
    let v = a1.minus(a0);
    let u1 = b1.minus(a1);
    let v1 = b1.minus(b0);
    let w = v1.minus(v);
    assert(u1.minus(u) == w) by {
        // (b1 - a1) - (b0 - a0) = (b1 - b0) - (a1 - a0).
        algebra::lemma_minus_swap(b1, a1, b0, a0);
    }
    let l0 = a0.plus(t.times(u));
    let l1 = a1.plus(t.times(u1));
    assert(l1.minus(l0) == v.plus(t.times(w))) by {
        algebra::lemma_plus_minus_plus(a1, t.times(u1), a0, t.times(u));
        algebra::lemma_products(t, u1, u);
    }
    let m0 = a0.plus(y.times(v));
    let m1 = b0.plus(y.times(v1));
    assert(m1.minus(m0) == u.plus(y.times(w))) by {
        algebra::lemma_plus_minus_plus(b0, y.times(v1), a0, y.times(v));
        algebra::lemma_products(y, v1, v);
    }
    let tu = t.times(u);
    let yv = y.times(v);
    let tyw = t.times(y.times(w));
    assert(y.times(v.plus(t.times(w))) == yv.plus(tyw)) by {
        algebra::lemma_products(y, v, t.times(w));
        algebra::lemma_products(y, t, w);
        algebra::lemma_products(t, y, w);
    }
    assert(t.times(u.plus(y.times(w))) == tu.plus(tyw)) by {
        algebra::lemma_products(t, u, y.times(w));
    }
    // (a0 + tu) + (yv + tyw) = (a0 + yv) + (tu + tyw).
    algebra::lemma_regroup(a0.plus(tu), yv, tyw);
    algebra::lemma_regroup(a0, tu, yv);
    algebra::lemma_regroup(a0.plus(yv), tu, tyw);
}

/// A table between two tables.
pub open spec fn lerp_seq<F: Field>(a: Seq<F>, b: Seq<F>, t: F) -> Seq<F> {
    Seq::new(a.len(), |i: int| mlpoly::lerp(a[i], b[i], t))
}

pub proof fn lemma_bound_bottom_valid<F: Field>(a: Seq<F>, r: F)
    ensures
        field::all_valid(mlpoly::bound_bottom(a, r)),
{
    broadcast use algebra::group_valid;

}

pub proof fn lemma_mle_valid<F: Field>(a: Seq<F>, y: F)
    requires
        field::all_valid(a),
        a.len() > 0,
    ensures
        mle_at(a, y).valid(),
    decreases a.len(),
{
    if a.len() > 1 {
        lemma_bound_bottom_valid(a, y);
        lemma_mle_valid(mlpoly::bound_bottom(a, y), y.times(y));
    }
}

/// The value of a polynomial is linear in its table.
proof fn lemma_mle_linear<F: Field>(a: Seq<F>, b: Seq<F>, t: F, y: F)
    requires
        a.len() == b.len() > 0,
        bits::power_of_two(a.len()),
        field::all_valid(a),
        field::all_valid(b),
        t.valid(),
        y.valid(),
    ensures
        mle_at(lerp_seq(a, b, t), y) == mlpoly::lerp(mle_at(a, y), mle_at(b, y), t),
    decreases a.len(),
{
    broadcast use algebra::group_valid;

    if a.len() > 1 {
        let a2 = mlpoly::bound_bottom(a, y);
        let b2 = mlpoly::bound_bottom(b, y);
        lemma_bound_bottom_valid(a, y);
        lemma_bound_bottom_valid(b, y);
        let k = bits::log2(a.len());
        lemma_pow2_unfold(k);
        bits::lemma_log2_pow2((k - 1) as nat);
        assert(mlpoly::bound_bottom(lerp_seq(a, b, t), y) =~= lerp_seq(a2, b2, t)) by {
            assert forall|i: int| 0 <= i < a.len() / 2 implies mlpoly::bound_bottom(
                lerp_seq(a, b, t),
                y,
            )[i] == lerp_seq(a2, b2, t)[i] by {
                assert(a[2 * i].valid() && a[2 * i + 1].valid());
                assert(b[2 * i].valid() && b[2 * i + 1].valid());
                lemma_lerp_swap(a[2 * i], a[2 * i + 1], b[2 * i], b[2 * i + 1], t, y);
            }
        }
        lemma_mle_linear(a2, b2, t, y.times(y));
    }
}

/// The line through the values at a point and its opposite of a function linear in one variable.
proof fn lemma_line_of_linear<F: Field>(a: F, b: F, x: F, beta: F)
    requires
        a.valid(),
        b.valid(),
        x.valid(),
        beta.valid(),
        field::is_unit(x),
    ensures
        fold::line_at(mlpoly::lerp(a, b, x), mlpoly::lerp(a, b, x.opposite()), x, beta)
            == mlpoly::lerp(a, b, beta),
{
    broadcast use algebra::group_valid;

    let d = b.minus(a);
    let xd = x.times(d);
    let e0 = a.plus(xd);
    let e1 = a.plus(xd.opposite());
    assert(mlpoly::lerp(a, b, x.opposite()) == e1) by {
        algebra::lemma_products(x, d, d);
    }
    let two = F::from_int(2);
    fold::lemma_denominator(x);
    algebra::lemma_two_unit::<F>();
    algebra::lemma_unit(two);
    algebra::lemma_unit(x);
    let h = field::inverse(two);
    let xi = field::inverse(x);
    // e1 - e0 = -(xd + xd) = -(2 x d).
    assert(e1.minus(e0) == two.times(xd).opposite()) by {
        algebra::lemma_regroup(a, xd.opposite(), xd);
        algebra::lemma_double(xd);
        algebra::lemma_opposites(xd, xd);
        F::law_plus(xd.opposite(), xd, xd);
    }
    let s = fold::slope(e0, e1, x);
    assert(s == d) by {
        // (-(2 x d)) (-(h xi)) = (2 x d)(h xi) = d.
        let p = two.times(xd);
        let q = h.times(xi);
        algebra::lemma_products(p.opposite(), q, q);
        algebra::lemma_products(p, q, q);
        algebra::lemma_opposites(p.times(q), p);
        // (2 (x d)) (h xi) = (2 h) ((x d) xi).
        algebra::lemma_products(two, xd, q);
        algebra::lemma_products(xd, h, xi);
        algebra::lemma_products(h, xd, xi);
        algebra::lemma_products(two, h, xd.times(xi));
        // (x d) xi = d.
        algebra::lemma_products(x, d, xi);
        algebra::lemma_products(x, xi, d);
        algebra::lemma_products(d, d, d);
        algebra::lemma_products(xd.times(xi), d, d);
    }
    assert(e0.minus(s.times(x)) == a) by {
        algebra::lemma_products(d, x, x);
        algebra::lemma_opposites(a, xd);
    }
    algebra::lemma_products(d, beta, beta);
}

/// Reversing one bit more.
proof fn lemma_reversed_pair(i: nat, n: nat)
    requires
        n > 0,
    ensures
        bits::reversed(2 * i, n) == bits::reversed(i, (n - 1) as nat),
        bits::reversed(2 * i + 1, n) == pow2((n - 1) as nat) + bits::reversed(i, (n - 1) as nat),
{
    assert((2 * i) / 2 == i);
    assert((2 * i + 1) / 2 == i);
    let p = pow2((n - 1) as nat);
    assert(((2 * i) % 2) * p == 0) by (nonlinear_arith)
        requires
            (2 * i) % 2 == 0,
    ;
    assert(((2 * i + 1) % 2) * p == p) by (nonlinear_arith)
        requires
            (2 * i + 1) % 2 == 1,
    ;
}

/// Binding the last variable of a repeated table repeats the bound table.
proof fn lemma_repeated_bound<F: Field>(evals: Seq<F>, log_blowup: nat, r: F)
    requires
        evals.len() >= 2,
        evals.len() % 2 == 0,
    ensures
        mlpoly::bound_bottom(repeated(evals, log_blowup), r) == repeated(
            mlpoly::bound_bottom(evals, r),
            log_blowup,
        ),
{
    let p = pow2(log_blowup);
    let l = evals.len();
    let h = l / 2;
    assert(l * p == 2 * (h * p)) by (nonlinear_arith)
        requires
            l == 2 * h,
    ;
    let big = repeated(evals, log_blowup);
    let lhs = mlpoly::bound_bottom(big, r);
    let rhs = repeated(mlpoly::bound_bottom(evals, r), log_blowup);
    assert(lhs.len() == h * p);
    assert forall|i: int| 0 <= i < h * p implies lhs[i] == rhs[i] by {
        let q = i % h as int;
        vstd::arithmetic::div_mod::lemma_fundamental_div_mod(i, h as int);
        vstd::arithmetic::div_mod::lemma_mod_bound(i, h as int);
        let d = i / h as int;
        assert(2 * i == l * d + 2 * q) by (nonlinear_arith)
            requires
                i == h * d + q,
                l == 2 * h,
        ;
        assert(2 * i + 1 == l * d + (2 * q + 1));
        vstd::arithmetic::div_mod::lemma_fundamental_div_mod_converse(2 * i, l as int, d, 2 * q);
        vstd::arithmetic::div_mod::lemma_fundamental_div_mod_converse(
            2 * i + 1,
            l as int,
            d,
            2 * q + 1,
        );
    }
    assert(lhs =~= rhs);
}

/// Law: folding a codeword with a challenge gives the codeword of the table with its last variable
/// bound to the challenge.
pub proof fn law_fold_encodes_binding<F: TwoAdicField>(evals: Seq<F>, log_blowup: nat, beta: F)
    requires
        evals.len() >= 2,
        bits::power_of_two(evals.len()),
        bits::log2(evals.len()) + log_blowup <= F::two_adicity(),
        field::all_valid(evals),
        beta.valid(),
    ensures
        fold::folded(encoded(evals, log_blowup), beta) == encoded(
            mlpoly::bound_bottom(evals, beta),
            log_blowup,
        ),
{
    broadcast use algebra::group_valid;

    let k = bits::log2(evals.len());
    let n = k + log_blowup;
    lemma_pow2_unfold(k);
    lemma_pow2_unfold(n);
    bits::lemma_log2_pow2((k - 1) as nat);
    bits::lemma_log2_pow2(n);
    let word = encoded(evals, log_blowup);
    let next = mlpoly::bound_bottom(evals, beta);
    let target = encoded(next, log_blowup);
    let big = repeated(evals, log_blowup);
    let g = F::generator_elem(n);
    let half_len = big.len() / 2;
    lemma_pow2_adds(k, log_blowup);
    lemma_pow2_pos(log_blowup);
    assert(big.len() == pow2(n));
    let evens = Seq::new(half_len, |i: int| big[2 * i]);
    let odds = Seq::new(half_len, |i: int| big[2 * i + 1]);
    assert forall|i: int| 0 <= i < big.len() implies (#[trigger] big[i]).valid() by {
        vstd::arithmetic::div_mod::lemma_mod_bound(i, evals.len() as int);
        assert(evals[i % evals.len() as int].valid());
    }
    algebra::lemma_generator_order::<F>(n);
    F::law_generator(n);
    lemma_repeated_bound(evals, log_blowup, beta);
    bits::lemma_log2_pow2((n - 1) as nat);
    assert forall|i: int| 0 <= i < pow2((n - 1) as nat) implies fold::folded(word, beta)[i]
        == target[i] by {
        let e = bits::reversed(i as nat, (n - 1) as nat);
        let x = fold::point::<F>(n, i as nat);
        fold::lemma_point_unit::<F>(n, i as nat);
        lemma_reversed_pair(i as nat, n);
        let y = x.times(x);
        // The second entry of the pair is the value at the opposite point.
        let nx = x.opposite();
        assert(field::power(g, (pow2((n - 1) as nat) + e) as nat) == nx) by {
            algebra::lemma_power_sum(g, pow2((n - 1) as nat), e);
            algebra::lemma_products(F::one_elem(), x, x);
            algebra::lemma_products(x, x, x);
        }
        assert(nx.times(nx) == y) by {
            algebra::lemma_products(x, nx, nx);
            algebra::lemma_products(x, x, x);
            algebra::lemma_opposites(y, y);
        }
        let a = mle_at(evens, y);
        let b = mle_at(odds, y);
        assert(mlpoly::bound_bottom(big, x) =~= lerp_seq(evens, odds, x));
        assert(mlpoly::bound_bottom(big, nx) =~= lerp_seq(evens, odds, nx));
        assert(mlpoly::bound_bottom(big, beta) =~= lerp_seq(evens, odds, beta));
        lemma_mle_linear(evens, odds, x, y);
        lemma_mle_linear(evens, odds, nx, y);
        lemma_mle_linear(evens, odds, beta, y);
        lemma_mle_valid(evens, y);
        lemma_mle_valid(odds, y);
        lemma_line_of_linear(a, b, x, beta);
        assert(word[2 * i] == mlpoly::lerp(a, b, x));
        assert(word[2 * i + 1] == mlpoly::lerp(a, b, nx));
        // The square of the point is the point of the shorter codeword.
        assert(y == field::power(F::generator_elem((n - 1) as nat), e)) by {
            algebra::lemma_power_product(g, e);
        }
        assert(bits::log2(next.len()) + log_blowup == n - 1);
    }
    assert(fold::folded(word, beta) =~= target);
}

/// A row and a column as one position.
proof fn lemma_position(i: int, c: int, w: int, h: int)
    requires
        0 <= c < w,
        0 <= i,
    ensures
        (i * w + c) / w == i,
        (i * w + c) % w == c,
        i < h ==> i * w + c < h * w,
{
    vstd::arithmetic::div_mod::lemma_fundamental_div_mod_converse(i * w + c, w, i, c);
    if i < h {
        assert(i * w + c < h * w) by (nonlinear_arith)
            requires
                i + 1 <= h,
                0 <= c < w,
        ;
    }
}

/// The columns of the repeated rows are the repeated columns.
proof fn lemma_repeated_column<F>(values: Seq<F>, rep: Seq<F>, w: nat, h: nat, b: nat, c: int)
    requires
        0 <= c < w,
        values.len() == h * w,
        h > 0,
        rep == repeated(values, b),
    ensures
        column(rep, w, c) == repeated(column(values, w, c), b),
{
    let p = pow2(b);
    vstd::arithmetic::div_mod::lemma_div_multiples_vanish(h as int, w as int);
    vstd::arithmetic::mul::lemma_mul_is_commutative(w as int, h as int);
    assert(values.len() / w == h);
    assert((h * w) * p == (h * p) * w) by (nonlinear_arith);
    vstd::arithmetic::div_mod::lemma_div_multiples_vanish((h * p) as int, w as int);
    vstd::arithmetic::mul::lemma_mul_is_commutative(w as int, (h * p) as int);
    assert(rep.len() / w == h * p);
    let lhs = column(rep, w, c);
    let rhs = repeated(column(values, w, c), b);
    assert forall|i: int| 0 <= i < h * p implies lhs[i] == rhs[i] by {
        let q = i % h as int;
        let d = i / h as int;
        vstd::arithmetic::div_mod::lemma_fundamental_div_mod(i, h as int);
        vstd::arithmetic::div_mod::lemma_mod_bound(i, h as int);
        lemma_position(i, c, w as int, (h * p) as int);
        lemma_position(q, c, w as int, h as int);
        assert(i * w + c == (h * w) * d + (q * w + c)) by (nonlinear_arith)
            requires
                i == h * d + q,
        ;
        assert(0 <= q * w + c) by (nonlinear_arith)
            requires
                0 <= q,
                0 <= c,
                0 <= w,
        ;
        assert(0 <= i * w + c) by (nonlinear_arith)
            requires
                0 <= i,
                0 <= c,
                0 <= w,
        ;
        vstd::arithmetic::div_mod::lemma_fundamental_div_mod_converse(
            i * w + c,
            (h * w) as int,
            d,
            q * w + c,
        );
    }
    assert(lhs =~= rhs);
}

/// The codewords of the columns of a matrix, as the columns of a matrix.
pub open spec fn encodes_columns<F: TwoAdicField>(
    code: Seq<F>,
    values: Seq<F>,
    width: nat,
    log_blowup: nat,
) -> bool {
    &&& code.len() == values.len() * pow2(log_blowup)
    &&& forall|i: int, c: int|
        0 <= c < width && 0 <= i < values.len() / width * pow2(log_blowup) ==> #[trigger] code[i
            * width + c] == encoded(column(values, width, c), log_blowup)[i]
}

/// Encodes each column of a matrix given by its rows: repeats the rows, transforms the columns,
/// and reverses the bits of the row numbers.
pub fn encode_matrix<F: DftField>(values: &Vec<F>, width: usize, log_blowup: usize) -> (r: Vec<F>)
    requires
        width > 0,
        values@.len() % width as nat == 0,
        bits::power_of_two(values@.len() / width as nat),
        bits::log2(values@.len() / width as nat) + log_blowup <= F::two_adicity(),
        values@.len() * pow2(log_blowup as nat) <= usize::MAX,
        field::all_valid(values@),
    ensures
        encodes_columns(r@, values@, width as nat, log_blowup as nat),
        field::all_valid(r@),
{
    let ghost w = width as nat;
    let ghost b = log_blowup as nat;
    let h: usize = values.len() / width;
    let len: usize = values.len();
    proof {
        vstd::arithmetic::div_mod::lemma_fundamental_div_mod(len as int, width as int);
        assert(values@.len() == h * w) by (nonlinear_arith)
            requires
                len == values@.len(),
                len as int == width as int * (len as int / width as int) + len as int % width as int,
                len as int % width as int == 0,
                h == len / width,
                w == width,
        ;
        assert(h > 0 && len > 0);
        lemma_pow2_pos(b);
        // The length of the codewords is a machine integer.
        let p = pow2(b);
        assert(h * p <= len * p && p <= len * p && h * p >= 1) by (nonlinear_arith)
            requires
                len == h * w,
                w >= 1,
                h >= 1,
                p >= 1,
        ;
        bits::lemma_pow2_bits();
        lemma_pow2_adds(bits::log2(h as nat), b);
        if log_blowup >= usize::BITS {
            if b > usize::BITS as nat {
                lemma_pow2_strictly_increases(usize::BITS as nat, b);
            }
        }
        if bits::log2(h as nat) + b >= usize::BITS {
            if bits::log2(h as nat) + b > usize::BITS {
                lemma_pow2_strictly_increases(usize::BITS as nat, bits::log2(h as nat) + b);
            }
        }
    }
    let times: usize = bits::two_to_the(log_blowup);
    let total: usize = len * times;
    let ghost n = bits::log2(h as nat) + b;
    let mut rep: Vec<F> = Vec::new();
    let mut k: usize = 0;
    while k < total
        invariant
            k <= total,
            rep@.len() == k,
            len == values@.len(),
            len > 0,
            forall|j: int| 0 <= j < k ==> rep@[j] == values@[j % len as int],
        decreases total - k,
    {
        rep.push(values[k % len]);
        k += 1;
    }
    proof {
        assert(rep@ =~= repeated(values@, b));
        assert forall|j: int| 0 <= j < rep@.len() implies (#[trigger] rep@[j]).valid() by {
            vstd::arithmetic::div_mod::lemma_mod_bound(j, len as int);
            assert(values@[j % len as int].valid());
        }
        assert(len * pow2(b) == (h * pow2(b)) * w) by (nonlinear_arith)
            requires
                len == h * w,
        ;
        vstd::arithmetic::div_mod::lemma_div_multiples_vanish((h * pow2(b)) as int, width as int);
        vstd::arithmetic::mul::lemma_mul_is_commutative(width as int, (h * pow2(b)) as int);
        vstd::arithmetic::div_mod::lemma_mod_multiples_basic((h * pow2(b)) as int, width as int);
        bits::lemma_log2_pow2(n);
        assert(rep@.len() / w == pow2(n));
    }
    let out: Vec<F> = F::dft_batch_by_evals(&rep, width);
    let log_n: usize = bits::log2_strict(total / width);
    let mut r: Vec<F> = Vec::new();
    let mut k: usize = 0;
    while k < total
        invariant
            k <= total,
            r@.len() == k,
            width > 0,
            w == width,
            n == log_n,
            log_n < usize::BITS,
            total == pow2(n) * w,
            out@.len() == total,
            field::all_valid(out@),
            field::all_valid(r@),
            forall|j: int|
                0 <= j < k ==> #[trigger] r@[j] == out@[bits::reversed(
                    (j / width as int) as nat,
                    n,
                ) as int * width + j % width as int],
        decreases total - k,
    {
        let i: usize = k / width;
        let c: usize = k % width;
        proof {
            vstd::arithmetic::div_mod::lemma_fundamental_div_mod(k as int, width as int);
            vstd::arithmetic::div_mod::lemma_mod_bound(k as int, width as int);
            assert(i < pow2(n)) by (nonlinear_arith)
                requires
                    k as int == width as int * i as int + c as int,
                    c >= 0,
                    k < total,
                    total == pow2(n) * w,
                    w == width,
                    width > 0,
            ;
            bits::lemma_reversed_bound(i as nat, n);
            lemma_position(bits::reversed(i as nat, n) as int, c as int, width as int, pow2(n) as int);
            assert(bits::reversed(i as nat, n) as int * width >= 0) by (nonlinear_arith)
                requires
                    width > 0,
            ;
        }
        let j: usize = bits::reverse_bits_len(i, log_n);
        r.push(out[j * width + c]);
        k += 1;
    }
    proof {
        let code = r@;
        assert forall|i: int, c: int|
            0 <= c < w && 0 <= i < values@.len() / w * pow2(b) implies #[trigger] code[i * w + c]
            == encoded(column(values@, w, c), b)[i] by {
            lemma_position(i, c, w as int, pow2(n) as int);
            assert(0 <= i * w + c) by (nonlinear_arith)
                requires
                    0 <= i,
                    0 <= c,
                    0 <= w,
            ;
            lemma_repeated_column(values@, rep@, w, h as nat, b, c);
            bits::lemma_reversed_bound(i as nat, n);
            let col = Seq::new(rep@.len() / w, |x: int| rep@[x * width + c]);
            assert(col =~= column(rep@, w, c));
            assert(column(values@, w, c).len() == h);
        }
    }
    r
}

/// The coordinates `c` of the elements.
pub open spec fn coordinates<F: Field, EF: ExtensionField<F>>(evals: Seq<EF>, c: int) -> Seq<F> {
    Seq::new(evals.len(), |i: int| evals[i].base_coeffs()[c])
}

/// At a base element a polynomial is evaluated coordinate by coordinate.
pub proof fn lemma_mle_coordinates<F: Field, EF: ExtensionField<F>>(evals: Seq<EF>, s: F, c: int)
    requires
        evals.len() > 0,
        field::all_valid(evals),
        s.valid(),
        0 <= c < EF::degree(),
    ensures
        mle_at(evals, EF::embed(s)).base_coeffs()[c] == mle_at(
            coordinates::<F, EF>(evals, c),
            s,
        ),
    decreases evals.len(),
{
    broadcast use algebra::group_valid;

    if evals.len() > 1 {
        let next = mlpoly::bound_bottom(evals, EF::embed(s));
        lemma_bound_bottom_valid(evals, EF::embed(s));
        EF::law_embed(evals[0], evals[0], s, s);
        assert(coordinates::<F, EF>(next, c) =~= mlpoly::bound_bottom(
            coordinates::<F, EF>(evals, c),
            s,
        )) by {
            assert forall|i: int| 0 <= i < evals.len() / 2 implies coordinates::<F, EF>(
                next,
                c,
            )[i] == mlpoly::bound_bottom(coordinates::<F, EF>(evals, c), s)[i] by {
                let x = evals[2 * i];
                let y = evals[2 * i + 1];
                assert(x.valid() && y.valid());
                EF::law_embed(y, x, s, s);
                EF::law_embed(y.minus(x), x, s, s);
                EF::law_embed(x, EF::embed(s).times(y.minus(x)), s, s);
            }
        }
        lemma_mle_coordinates::<F, EF>(next, s.times(s), c);
    }
}

/// The powers of an embedded element are the embedded powers.
pub proof fn lemma_power_embed<F: Field, EF: ExtensionField<F>>(g: F, n: nat)
    requires
        g.valid(),
    ensures
        field::power(EF::embed(g), n) == EF::embed(field::power(g, n)),
        field::power(g, n).valid(),
    decreases n,
{
    broadcast use algebra::group_valid;

    EF::law_constants();
    EF::law_embed(EF::one_elem(), EF::one_elem(), g, g);
    if n > 0 {
        lemma_power_embed::<F, EF>(g, (n - 1) as nat);
        EF::law_embed(
            EF::one_elem(),
            EF::one_elem(),
            field::power(g, (n - 1) as nat),
            g,
        );
    }
}

/// Encodes a table over the extension: the codeword over the base field, coordinate by coordinate.
pub fn encode_to_codeword<F: DftField, EF: TwoAdicExtension<F>>(
    evals: &Vec<EF>,
    log_blowup: usize,
) -> (r: Vec<EF>)
    requires
        bits::power_of_two(evals@.len()),
        bits::log2(evals@.len()) + log_blowup <= F::two_adicity(),
        evals@.len() * EF::degree() * pow2(log_blowup as nat) <= usize::MAX,
        field::all_valid(evals@),
    ensures
        r@ == encoded(evals@, log_blowup as nat),
        field::all_valid(r@),
{
    broadcast use algebra::group_valid;

    let d: usize = EF::extension_degree();
    let len: usize = evals.len();
    let ghost b = log_blowup as nat;
    proof {
        EF::law_coeffs(evals@[0], Seq::empty());
        lemma_pow2_pos(b);
        assert(len * d <= len * d * pow2(b)) by (nonlinear_arith)
            requires
                pow2(b) >= 1,
        ;
    }
    let mut base: Vec<F> = Vec::new();
    let mut i: usize = 0;
    while i < len
        invariant
            i <= len,
            len == evals@.len(),
            d > 0,
            d == EF::degree(),
            base@.len() == i * d,
            field::all_valid(evals@),
            field::all_valid(base@),
            forall|j: int, c: int|
                0 <= j < i && 0 <= c < d ==> #[trigger] base@[j * d + c] == evals@[j].base_coeffs()[c],
        decreases len - i,
    {
        let row: Vec<F> = evals[i].as_base_slice();
        proof {
            EF::law_coeffs(evals@[i as int], Seq::empty());
            EF::law_constants();
            F::law_constants();
            EF::law_embed(evals@[i as int], EF::one_elem(), F::one_elem(), F::one_elem());
        }
        let ghost before = base@;
        let mut k: usize = 0;
        while k < d
            invariant
                k <= d,
                d == row@.len(),
                field::all_valid(row@),
                field::all_valid(base@),
                base@ == before + row@.take(k as int),
            decreases d - k,
        {
            base.push(row[k]);
            proof {
                assert(row@.take(k + 1) =~= row@.take(k as int).push(row@[k as int]));
                assert(base@ =~= before + row@.take(k + 1));
            }
            k += 1;
        }
        proof {
            assert(row@.take(d as int) =~= row@);
            assert((i + 1) * d == i * d + d) by (nonlinear_arith);
            assert forall|j: int, c: int| 0 <= j < i + 1 && 0 <= c < d implies #[trigger] base@[j
                * d + c] == evals@[j].base_coeffs()[c] by {
                lemma_position(j, c, d as int, i as int);
                if j < i {
                    assert(0 <= j * d + c) by (nonlinear_arith)
                        requires
                            0 <= j,
                            0 <= c,
                            0 <= d,
                    ;
                    assert(before[j * d + c] == evals@[j].base_coeffs()[c]);
                } else {
                    assert(j * d == i * d);
                }
            }
        }
        i += 1;
    }
    proof {
        vstd::arithmetic::div_mod::lemma_div_multiples_vanish(len as int, d as int);
        vstd::arithmetic::mul::lemma_mul_is_commutative(d as int, len as int);
        vstd::arithmetic::div_mod::lemma_mod_multiples_basic(len as int, d as int);
    }
    let code: Vec<F> = encode_matrix(&base, d, log_blowup);
    let ghost n = bits::log2(len as nat) + b;
    proof {
        lemma_pow2_adds(bits::log2(len as nat), b);
        assert(len * d * pow2(b) == pow2(n) * d) by (nonlinear_arith)
            requires
                pow2(n) == len * pow2(b),
        ;
    }
    let total: usize = code.len() / d;
    proof {
        vstd::arithmetic::div_mod::lemma_div_multiples_vanish(pow2(n) as int, d as int);
        vstd::arithmetic::mul::lemma_mul_is_commutative(d as int, pow2(n) as int);
    }
    let mut r: Vec<EF> = Vec::new();
    let mut i: usize = 0;
    while i < total
        invariant
            i <= total,
            total == pow2(n),
            n == bits::log2(len as nat) + b,
            n <= F::two_adicity(),
            b == log_blowup,
            total == len * pow2(b),
            len == evals@.len(),
            len > 0,
            len == base@.len() / d as nat,
            base@.len() == len * d,
            d > 0,
            d == EF::degree(),
            code@.len() == total * d,
            total * d <= usize::MAX,
            r@.len() == i,
            field::all_valid(evals@),
            encodes_columns(code@, base@, d as nat, b),
            forall|j: int, c: int|
                0 <= j < len && 0 <= c < d ==> #[trigger] base@[j * d + c]
                    == evals@[j].base_coeffs()[c],
            forall|j: int| 0 <= j < i ==> r@[j] == encoded(evals@, b)[j],
        decreases total - i,
    {
        proof {
            assert((i + 1) * d <= total * d) by (nonlinear_arith)
                requires
                    i + 1 <= total,
            ;
            assert((i + 1) * d == i * d + d) by (nonlinear_arith);
        }
        let start: usize = i * d;
        let s: &[F] = vstd::slice::slice_subrange(code.as_slice(), start, start + d);
        let e: EF = EF::from_base_slice(s);
        proof {
            let g = F::generator_elem(n);
            F::law_generator(n);
            EF::law_generators(n);
            let x = field::power(g, bits::reversed(i as nat, n));
            lemma_power_embed::<F, EF>(g, bits::reversed(i as nat, n));
            let big = repeated(evals@, b);
            lemma_pow2_pos(b);
            assert forall|j: int| 0 <= j < big.len() implies (#[trigger] big[j]).valid() by {
                vstd::arithmetic::div_mod::lemma_mod_bound(j, len as int);
                assert(evals@[j % len as int].valid());
            }
            let want = mle_at(big, EF::embed(x));
            EF::law_coeffs(want, s@);
            assert forall|c: int| 0 <= c < d implies s@[c] == want.base_coeffs()[c] by {
                assert(s@[c] == code@[i * d + c]);
                let col = column(base@, d as nat, c);
                assert(col =~= coordinates::<F, EF>(evals@, c));
                assert(repeated(col, b) =~= coordinates::<F, EF>(big, c)) by {
                    assert forall|j: int| 0 <= j < big.len() implies repeated(col, b)[j]
                        == coordinates::<F, EF>(big, c)[j] by {
                        vstd::arithmetic::div_mod::lemma_mod_bound(j, len as int);
                    }
                }
                lemma_mle_coordinates::<F, EF>(big, x, c);
            }
            assert(s@ =~= want.base_coeffs());
            assert(e == want);
        }
        r.push(e);
        i += 1;
    }
    proof {
        assert(r@ =~= encoded(evals@, b));
        assert forall|j: int| 0 <= j < r@.len() implies (#[trigger] r@[j]).valid() by {
            lemma_encoded_valid(evals@, b, j);
        }
    }
    r
}

/// The entries of a codeword are canonical.
pub proof fn lemma_encoded_valid<F: TwoAdicField>(evals: Seq<F>, log_blowup: nat, j: int)
    requires
        evals.len() > 0,
        field::all_valid(evals),
        0 <= j < encoded(evals, log_blowup).len(),
    ensures
        encoded(evals, log_blowup)[j].valid(),
{
    let big = repeated(evals, log_blowup);
    lemma_pow2_pos(log_blowup);
    assert(big.len() > 0) by (nonlinear_arith)
        requires
            big.len() == evals.len() * pow2(log_blowup),
            evals.len() > 0,
            pow2(log_blowup) > 0,
    ;
    assert forall|i: int| 0 <= i < big.len() implies (#[trigger] big[i]).valid() by {
        vstd::arithmetic::div_mod::lemma_mod_bound(i, evals.len() as int);
        assert(evals[i % evals.len() as int].valid());
    }
    let n = bits::log2(evals.len()) + log_blowup;
    lemma_mle_valid(big, field::power(F::generator_elem(n), bits::reversed(j as nat, n)));
}

/// The transform of tables over the KoalaBear field, by `dft_batch_by_evals` of `p3_dft`'s
/// `EvalsDft`: entry `(j, c)` of the result is the value of the polynomial of column `c` at the
/// successive squares of the power `j` of the generator, which is what that crate documents.
#[verifier::external_body]
fn koala_bear_dft(values: &Vec<KoalaBear>, width: usize) -> (r: Vec<KoalaBear>)
    requires
        width > 0,
        values@.len() % width as nat == 0,
        bits::power_of_two(values@.len() / width as nat),
        bits::log2(values@.len() / width as nat) <= KoalaBear::two_adicity(),
        field::all_valid(values@),
    ensures
        transforms(r@, values@, width as nat),
{
    let dft = EvalsDft::<OuterKoalaBear>::default();
    let inner = values.iter().map(|x| OuterKoalaBear::from_canonical_u32(x.as_canonical_u32()));
    let out = dft.dft_batch_by_evals(RowMajorMatrix::new(inner.collect(), width));
    out.values.iter().map(|x| KoalaBear::from_canonical_u32(x.as_canonical_u32())).collect()
}

/// Each column of `out` is the transform of that column of `values`.
pub open spec fn transforms<F: TwoAdicField>(out: Seq<F>, values: Seq<F>, width: nat) -> bool {
    &&& out.len() == values.len()
    &&& field::all_valid(out)
    &&& forall|j: int, c: int|
        0 <= j < values.len() / width && 0 <= c < width ==> #[trigger] out[j * width + c] == mle_at(
            column(values, width, c),
            field::power(F::generator_elem(bits::log2(values.len() / width)), j as nat),
        )
}

impl DftField for KoalaBear {
    fn dft_batch_by_evals(values: &Vec<Self>, width: usize) -> (r: Vec<Self>) {
        let r: Vec<Self> = koala_bear_dft(values, width);
        proof {
            assert forall|j: int, c: int|
                0 <= j < values@.len() / width as nat && 0 <= c < width implies #[trigger] r@[j
                * width + c] == mle_at(
                Seq::new(values@.len() / width as nat, |i: int| values@[i * width + c]),
                field::power(
                    Self::generator_elem(bits::log2(values@.len() / width as nat)),
                    j as nat,
                ),
            ) by {
                assert(Seq::new(values@.len() / width as nat, |i: int| values@[i * width + c])
                    =~= column(values@, width as nat, c));
            }
        }
        r
    }
}

} // verus!
