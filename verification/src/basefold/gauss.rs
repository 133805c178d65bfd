//! Gaussian elimination.
use vstd::prelude::*;
use crate::basefold::linear;
use crate::basefold::math;
use crate::basefold::unipoly;
use crate::field;
use crate::field::algebra;
use crate::field::Field;

verus! {

/// The rows of a matrix.
pub open spec fn rows<F: Field>(m: Seq<Vec<F>>) -> Seq<Seq<F>> {
    m.map_values(|r: Vec<F>| r@)
}

/// `m` has `n` rows of `n + 1` canonical entries: the coefficients of `n` linear equations in `n`
/// unknowns, each with its right-hand side.
pub open spec fn augmented<F: Field>(m: Seq<Seq<F>>, n: nat) -> bool {
    &&& m.len() == n
    &&& forall|i: int| 0 <= i < n ==> (#[trigger] m[i]).len() == n + 1 && field::all_valid(m[i])
}

/// The equation of a row holds of `x`.
pub open spec fn row_holds<F: Field>(row: Seq<F>, x: Seq<F>) -> bool {
    math::dot(row.drop_last(), x) == row.last()
}

/// `x` solves every equation of `m`.
pub open spec fn solves<F: Field>(m: Seq<Seq<F>>, x: Seq<F>) -> bool {
    forall|i: int| 0 <= i < m.len() ==> row_holds(#[trigger] m[i], x)
}

/// The left-hand side of every equation of `m` vanishes at `x`.
pub open spec fn annihilated<F: Field>(m: Seq<Seq<F>>, x: Seq<F>) -> bool {
    forall|i: int| 0 <= i < m.len() ==> math::dot(#[trigger] m[i].drop_last(), x) == F::zero_elem()
}

/// Every entry is zero.
pub open spec fn all_zero<F: Field>(x: Seq<F>) -> bool {
    forall|i: int| 0 <= i < x.len() ==> #[trigger] x[i] == F::zero_elem()
}

/// The square left block of `m` is invertible: it takes no vector but zero to zero.
pub open spec fn nonsingular<F: Field>(m: Seq<Seq<F>>) -> bool {
    forall|x: Seq<F>|
        x.len() == m.len() && field::all_valid(x) && #[trigger] annihilated(m, x) ==> all_zero(x)
}

/// The first `i` columns of `m` are zero below the diagonal, and the first `i` entries of the
/// diagonal have inverses.
pub open spec fn staircase<F: Field>(m: Seq<Seq<F>>, i: int) -> bool {
    &&& forall|r: int, c: int|
        0 <= r < m.len() && 0 <= c < r && c < i ==> #[trigger] m[r][c] == F::zero_elem()
    &&& forall|r: int| 0 <= r < i ==> field::is_unit(#[trigger] m[r][r])
}

/// What solves the equations of `m` solves those of `m0`, and what the left block of `m` takes to
/// zero that of `m0` does.
pub open spec fn entails<F: Field>(m: Seq<Seq<F>>, m0: Seq<Seq<F>>, n: nat) -> bool {
    &&& forall|x: Seq<F>|
        x.len() == n && field::all_valid(x) && #[trigger] solves(m, x) ==> solves(m0, x)
    &&& forall|x: Seq<F>|
        x.len() == n && field::all_valid(x) && #[trigger] annihilated(m, x) ==> annihilated(m0, x)
}

/// `a` minus `f` times `b`, entry by entry.
pub open spec fn row_minus<F: Field>(a: Seq<F>, f: F, b: Seq<F>) -> Seq<F> {
    Seq::new(a.len(), |k: int| a[k].minus(f.times(b[k])))
}

/// The dot product is linear in its first argument.
pub proof fn lemma_dot_row_minus<F: Field>(a: Seq<F>, f: F, b: Seq<F>, x: Seq<F>)
    requires
        a.len() == b.len() == x.len(),
        field::all_valid(a),
        field::all_valid(b),
        field::all_valid(x),
        f.valid(),
    ensures
        math::dot(row_minus(a, f, b), x) == math::dot(a, x).minus(f.times(math::dot(b, x))),
    decreases a.len(),
{
    broadcast use algebra::group_valid;

    if a.len() == 0 {
        algebra::lemma_products(f, f, f);
        algebra::lemma_opposites(F::zero_elem(), f);
    } else {
        let r = row_minus(a, f, b);
        let n = a.len() - 1;
        assert(r.drop_last() =~= row_minus(a.drop_last(), f, b.drop_last()));
        lemma_dot_row_minus(a.drop_last(), f, b.drop_last(), x.drop_last());
        let da = math::dot(a.drop_last(), x.drop_last());
        let db = math::dot(b.drop_last(), x.drop_last());
        linear::lemma_dot_valid(a.drop_last(), x.drop_last());
        linear::lemma_dot_valid(b.drop_last(), x.drop_last());
        let an = a[n];
        let bn = b[n];
        let xn = x[n];
        assert(an.valid() && bn.valid() && xn.valid());
        // (da - f db) + (an - f bn) xn = (da + an xn) - f (db + bn xn).
        algebra::lemma_products(xn, an, f.times(bn));
        algebra::lemma_products(f, bn, xn);
        algebra::lemma_products(f, db, bn.times(xn));
        let p = an.times(xn);
        let q = f.times(bn.times(xn));
        let fd = f.times(db);
        algebra::lemma_minus_plus(da, fd, p, q);
    }
}

/// Replacing a row by itself minus a multiple of another keeps the solutions.
proof fn lemma_row_operation<F: Field>(m: Seq<Seq<F>>, n: nat, a: int, b: int, f: F, x: Seq<F>)
    requires
        augmented(m, n),
        0 <= a < n,
        0 <= b < n,
        a != b,
        f.valid(),
        x.len() == n,
        field::all_valid(x),
        solves(m.update(a, row_minus(m[a], f, m[b])), x),
    ensures
        solves(m, x),
{
    broadcast use algebra::group_valid;

    let m2 = m.update(a, row_minus(m[a], f, m[b]));
    assert forall|i: int| 0 <= i < m.len() implies row_holds(#[trigger] m[i], x) by {
        assert(row_holds(m2[i], x));
        assert(row_holds(m2[b], x));
        if i == a {
            let ra = m[a];
            let rb = m[b];
            assert(m2[a].drop_last() =~= row_minus(ra.drop_last(), f, rb.drop_last()));
            assert(field::all_valid(ra.drop_last()) && field::all_valid(rb.drop_last()));
            lemma_dot_row_minus(ra.drop_last(), f, rb.drop_last(), x);
            let da = math::dot(ra.drop_last(), x);
            let db = math::dot(rb.drop_last(), x);
            linear::lemma_dot_valid(ra.drop_last(), x);
            assert(ra[n as int].valid() && rb[n as int].valid());
            // da - f db = ra[n] - f rb[n] and db = rb[n].
            assert(da.minus(f.times(db)) == ra.last().minus(f.times(db)));
            algebra::lemma_opposites(da, f.times(db));
            algebra::lemma_opposites(ra.last(), f.times(db));
        }
    }
}

/// Replacing a row by itself minus a multiple of another keeps what the left block takes to zero.
proof fn lemma_row_operation_kernel<F: Field>(
    m: Seq<Seq<F>>,
    n: nat,
    a: int,
    b: int,
    f: F,
    x: Seq<F>,
)
    requires
        augmented(m, n),
        0 <= a < n,
        0 <= b < n,
        a != b,
        f.valid(),
        x.len() == n,
        field::all_valid(x),
        annihilated(m.update(a, row_minus(m[a], f, m[b])), x),
    ensures
        annihilated(m, x),
{
    broadcast use algebra::group_valid;

    let m2 = m.update(a, row_minus(m[a], f, m[b]));
    assert forall|i: int| 0 <= i < m.len() implies math::dot(#[trigger] m[i].drop_last(), x)
        == F::zero_elem() by {
        assert(math::dot(m2[i].drop_last(), x) == F::zero_elem());
        assert(math::dot(m2[b].drop_last(), x) == F::zero_elem());
        if i == a {
            let ra = m[a].drop_last();
            let rb = m[b].drop_last();
            assert(m[a].len() == n + 1 && m[b].len() == n + 1);
            assert(m2[a].drop_last() =~= row_minus(ra, f, rb));
            assert(field::all_valid(ra) && field::all_valid(rb));
            lemma_dot_row_minus(ra, f, rb, x);
            linear::lemma_dot_valid(ra, x);
            algebra::lemma_products(f, f, f);
            algebra::lemma_opposites(math::dot(ra, x), f);
        }
    }
}

/// A row operation keeps the solutions and what the left block takes to zero.
proof fn lemma_row_operation_entails<F: Field>(
    m: Seq<Seq<F>>,
    m0: Seq<Seq<F>>,
    n: nat,
    a: int,
    b: int,
    f: F,
)
    requires
        augmented(m, n),
        0 <= a < n,
        0 <= b < n,
        a != b,
        f.valid(),
        entails(m, m0, n),
    ensures
        entails(m.update(a, row_minus(m[a], f, m[b])), m0, n),
{
    let out = m.update(a, row_minus(m[a], f, m[b]));
    assert forall|x: Seq<F>|
        x.len() == n && field::all_valid(x) && #[trigger] solves(out, x) implies solves(m0, x) by {
        lemma_row_operation(m, n, a, b, f, x);
    }
    assert forall|x: Seq<F>|
        x.len() == n && field::all_valid(x) && #[trigger] annihilated(
            out,
            x,
        ) implies annihilated(m0, x) by {
        lemma_row_operation_kernel(m, n, a, b, f, x);
    }
}

/// `m` with its rows `a` and `b` exchanged.
pub open spec fn exchanged<F: Field>(m: Seq<Seq<F>>, a: int, b: int) -> Seq<Seq<F>> {
    m.update(a, m[b]).update(b, m[a])
}

/// Exchanging two rows keeps the solutions and what the left block takes to zero.
proof fn lemma_exchange_entails<F: Field>(
    m: Seq<Seq<F>>,
    m0: Seq<Seq<F>>,
    n: nat,
    a: int,
    b: int,
)
    requires
        augmented(m, n),
        0 <= a < n,
        0 <= b < n,
        entails(m, m0, n),
    ensures
        augmented(exchanged(m, a, b), n),
        entails(exchanged(m, a, b), m0, n),
{
    let out = exchanged(m, a, b);
    assert(m[a].len() == n + 1 && field::all_valid(m[a]));
    assert(m[b].len() == n + 1 && field::all_valid(m[b]));
    assert forall|q: int| 0 <= q < n implies (#[trigger] out[q]).len() == n + 1
        && field::all_valid(out[q]) by {
        assert(m[q].len() == n + 1 && field::all_valid(m[q]));
    }
    assert(out[a] == m[b] && out[b] == m[a]);
    assert forall|x: Seq<F>|
        x.len() == n && field::all_valid(x) && #[trigger] solves(out, x) implies solves(m0, x) by {
        assert forall|i: int| 0 <= i < m.len() implies row_holds(#[trigger] m[i], x) by {
            assert(row_holds(out[i], x));
            assert(row_holds(out[a], x));
            assert(row_holds(out[b], x));
        }
        assert(solves(m, x));
    }
    assert forall|x: Seq<F>|
        x.len() == n && field::all_valid(x) && #[trigger] annihilated(
            out,
            x,
        ) implies annihilated(m0, x) by {
        assert forall|i: int| 0 <= i < m.len() implies math::dot(#[trigger] m[i].drop_last(), x)
            == F::zero_elem() by {
            assert(math::dot(out[i].drop_last(), x) == F::zero_elem());
            assert(math::dot(out[a].drop_last(), x) == F::zero_elem());
            assert(math::dot(out[b].drop_last(), x) == F::zero_elem());
        }
        assert(annihilated(m, x));
    }
}

/// Changing one entry of the second argument changes a dot product by the entry of the first times
/// the difference.
proof fn lemma_dot_update<F: Field>(row: Seq<F>, x: Seq<F>, k: int, v: F)
    requires
        row.len() == x.len(),
        0 <= k < x.len(),
        field::all_valid(row),
        field::all_valid(x),
        v.valid(),
    ensures
        math::dot(row, x.update(k, v)) == math::dot(row, x).plus(row[k].times(v.minus(x[k]))),
    decreases row.len(),
{
    broadcast use algebra::group_valid;

    let l = row.len() - 1;
    let d = math::dot(row.drop_last(), x.drop_last());
    linear::lemma_dot_valid(row.drop_last(), x.drop_last());
    assert(row[l].valid() && x[l].valid() && row[k].valid() && x[k].valid());
    let t = row[l].times(x[l]);
    if k < l {
        lemma_dot_update(row.drop_last(), x.drop_last(), k, v);
        assert(x.update(k, v).drop_last() =~= x.drop_last().update(k, v));
        algebra::lemma_regroup(d, row[k].times(v.minus(x[k])), t);
    } else {
        assert(x.update(k, v).drop_last() =~= x.drop_last());
        // d + r v = (d + r x) + r (v - x).
        algebra::lemma_products(row[l], v, x[l]);
        algebra::lemma_opposites(row[l].times(v), t);
        algebra::lemma_regroup(d, t, row[l].times(v).minus(t));
        algebra::lemma_regroup(t, row[l].times(v).minus(t), t);
        algebra::lemma_opposites(row[l].times(v), t);
    }
}

/// A vector with a one in place `i` and zeros behind it which all rows of a staircase from `k` on
/// take to zero, where column `i` is zero from row `i` on.
proof fn lemma_kernel<F: Field>(m: Seq<Seq<F>>, n: nat, i: int, k: int) -> (x: Seq<F>)
    requires
        augmented(m, n),
        staircase(m, i),
        0 <= k <= i < n,
        forall|r: int| i <= r < n ==> #[trigger] m[r][i] == F::zero_elem(),
    ensures
        x.len() == n,
        field::all_valid(x),
        x[i] == F::one_elem(),
        forall|r: int|
            k <= r < n ==> math::dot(#[trigger] m[r].drop_last(), x) == F::zero_elem(),
    decreases i - k,
{
    broadcast use algebra::group_valid;

    if k == i {
        let zeros = Seq::new(n, |c: int| F::zero_elem());
        let x = zeros.update(i, F::one_elem());
        assert forall|r: int| k <= r < n implies math::dot(#[trigger] m[r].drop_last(), x)
            == F::zero_elem() by {
            let row = m[r].drop_last();
            assert(m[r].len() == n + 1 && field::all_valid(m[r]));
            assert(m[r][i] == F::zero_elem());
            lemma_dot_update(row, zeros, i, F::one_elem());
            unipoly::lemma_dot_commutes(row, zeros);
            lemma_dot_zero(zeros, row);
            let w = F::one_elem().minus(F::zero_elem());
            algebra::lemma_products(w, w, w);
            F::law_plus(F::zero_elem(), F::zero_elem(), F::zero_elem());
        }
        x
    } else {
        let y = lemma_kernel(m, n, i, k + 1);
        let own = m[k].drop_last();
        assert(m[k].len() == n + 1 && field::all_valid(m[k]));
        let d = math::dot(own, y);
        linear::lemma_dot_valid(own, y);
        assert(field::is_unit(m[k][k]));
        assert(own[k].valid() && y[k].valid());
        lemma_clears(d, own[k]);
        let f = field::quotient(d, own[k]);
        let v = y[k].minus(f);
        let x = y.update(k, v);
        assert forall|r: int| k <= r < n implies math::dot(#[trigger] m[r].drop_last(), x)
            == F::zero_elem() by {
            let row = m[r].drop_last();
            assert(m[r].len() == n + 1 && field::all_valid(m[r]));
            lemma_dot_update(row, y, k, v);
            let w = v.minus(y[k]);
            if r == k {
                // d + p ((y - f) - y) = d - p f.
                algebra::lemma_regroup(y[k], f.opposite(), y[k]);
                F::law_plus(y[k], f, f);
                algebra::lemma_opposites(y[k], f.opposite());
                algebra::lemma_opposites(f.opposite(), y[k]);
                F::law_plus(y[k], f.opposite(), y[k]);
                assert(w == f.opposite());
                algebra::lemma_products(own[k], f, f);
                F::law_plus(d, d, d);
            } else {
                assert(m[r][k] == F::zero_elem());
                assert(row[k] == F::zero_elem());
                algebra::lemma_products(w, w, w);
                assert(math::dot(m[r].drop_last(), y) == F::zero_elem());
                F::law_plus(F::zero_elem(), F::zero_elem(), F::zero_elem());
            }
        }
        x
    }
}

/// A staircase with an invertible left block has a pivot in its next column.
proof fn lemma_pivot<F: Field>(m: Seq<Seq<F>>, m0: Seq<Seq<F>>, n: nat, i: int)
    requires
        augmented(m, n),
        m0.len() == n,
        staircase(m, i),
        entails(m, m0, n),
        nonsingular(m0),
        0 <= i < n,
    ensures
        exists|r: int| i <= r < n && #[trigger] m[r][i] != F::zero_elem(),
{
    if forall|r: int| i <= r < n ==> #[trigger] m[r][i] == F::zero_elem() {
        let x = lemma_kernel(m, n, i, 0);
        assert(annihilated(m, x));
        assert(annihilated(m0, x));
        assert(x[i] == F::zero_elem());
        F::law_constants();
    }
}

/// An invertible system has one solution.
proof fn lemma_unique<F: Field>(m: Seq<Seq<F>>, n: nat, x: Seq<F>, y: Seq<F>)
    requires
        augmented(m, n),
        nonsingular(m),
        x.len() == n,
        y.len() == n,
        field::all_valid(x),
        field::all_valid(y),
        solves(m, x),
        solves(m, y),
    ensures
        x == y,
{
    broadcast use algebra::group_valid;

    let one = F::one_elem();
    let d = row_minus(x, one, y);
    assert forall|i: int| 0 <= i < m.len() implies math::dot(#[trigger] m[i].drop_last(), d)
        == F::zero_elem() by {
        let row = m[i].drop_last();
        assert(m[i].len() == n + 1 && field::all_valid(m[i]));
        assert(row_holds(m[i], x));
        assert(row_holds(m[i], y));
        unipoly::lemma_dot_commutes(row, d);
        unipoly::lemma_dot_commutes(row, x);
        unipoly::lemma_dot_commutes(row, y);
        lemma_dot_row_minus(x, one, y, row);
        let v = m[i].last();
        assert(m[i][n as int].valid());
        algebra::lemma_products(v, v, v);
        algebra::lemma_opposites(v, v);
    }
    assert(annihilated(m, d));
    assert forall|c: int| 0 <= c < n implies x[c] == y[c] by {
        assert(d[c] == F::zero_elem());
        assert(x[c].valid() && y[c].valid());
        algebra::lemma_products(y[c], y[c], y[c]);
        algebra::lemma_opposites(x[c], y[c]);
        algebra::lemma_opposites(y[c], x[c]);
    }
    assert(x =~= y);
}

/// A dot product with a row that is zero but for column `i`.
pub proof fn lemma_dot_single<F: Field>(row: Seq<F>, x: Seq<F>, i: int)
    requires
        row.len() == x.len(),
        0 <= i < row.len(),
        field::all_valid(row),
        field::all_valid(x),
        forall|c: int| 0 <= c < row.len() && c != i ==> #[trigger] row[c] == F::zero_elem(),
    ensures
        math::dot(row, x) == row[i].times(x[i]),
    decreases row.len(),
{
    broadcast use algebra::group_valid;

    let n = row.len() - 1;
    assert(row[n].valid() && x[n].valid());
    if i < n {
        lemma_dot_single(row.drop_last(), x.drop_last(), i);
        algebra::lemma_products(x[n], x[n], x[n]);
        algebra::lemma_opposites(row[i].times(x[i]), x[n]);
        F::law_plus(row[i].times(x[i]), F::zero_elem(), F::zero_elem());
    } else {
        lemma_dot_zero(row.drop_last(), x.drop_last());
        algebra::lemma_opposites(row[i].times(x[i]), x[n]);
    }
}

pub proof fn lemma_dot_zero<F: Field>(row: Seq<F>, x: Seq<F>)
    requires
        row.len() == x.len(),
        field::all_valid(x),
        forall|c: int| 0 <= c < row.len() ==> #[trigger] row[c] == F::zero_elem(),
    ensures
        math::dot(row, x) == F::zero_elem(),
    decreases row.len(),
{
    broadcast use algebra::group_valid;

    if row.len() > 0 {
        let n = row.len() - 1;
        assert(x[n].valid());
        assert(row[n] == F::zero_elem());
        lemma_dot_zero(row.drop_last(), x.drop_last());
        algebra::lemma_products(x[n], x[n], x[n]);
        F::law_plus(F::zero_elem(), F::zero_elem(), F::zero_elem());
    }
}

/// Forward-elimination step: clears column `i` of row `j + 1`.
fn echelon<F: Field>(matrix: &mut Vec<Vec<F>>, i: usize, j: usize)
    requires
        augmented(rows(old(matrix)@), old(matrix)@.len()),
        i <= j < old(matrix)@.len() - 1,
        rows(old(matrix)@)[i as int][i as int] != F::zero_elem(),
        forall|c: int| 0 <= c < i ==> #[trigger] old(matrix)@[i as int]@[c] == F::zero_elem(),
        forall|c: int| 0 <= c < i ==> #[trigger] old(matrix)@[j + 1]@[c] == F::zero_elem(),
    ensures
        ({
            let m = rows(old(matrix)@);
            let f = field::quotient(m[j + 1][i as int], m[i as int][i as int]);
            &&& field::is_unit(m[i as int][i as int])
            &&& f.valid()
            &&& m[j + 1][i as int].minus(f.times(m[i as int][i as int])) == F::zero_elem()
            &&& rows(final(matrix)@) == m.update(j + 1, row_minus(m[j + 1], f, m[i as int]))
        }),
        augmented(rows(final(matrix)@), old(matrix)@.len()),
{
    broadcast use algebra::group_valid;

    let size: usize = matrix.len();
    let ghost m = rows(matrix@);
    proof {
        assert(m[i as int].len() == size + 1 && field::all_valid(m[i as int]));
        assert(m[j + 1].len() == size + 1 && field::all_valid(m[j + 1]));
        assert(m[i as int] == matrix@[i as int]@);
        assert(m[j + 1] == matrix@[j + 1]@);
    }
    let pivot = matrix[i][i];
    let factor = field::divide(matrix[j + 1][i], pivot);
    proof {
        lemma_clears(m[j + 1][i as int], pivot);
    }
    let width: usize = matrix[i].len();
    let mut row: Vec<F> = Vec::new();
    let mut k: usize = 0;
    while k < width
        invariant
            width == size + 1,
            size == matrix@.len(),
            i <= j < size - 1,
            m == rows(matrix@),
            m[i as int] == matrix@[i as int]@,
            m[j + 1] == matrix@[j + 1]@,
            m[i as int].len() == size + 1,
            m[j + 1].len() == size + 1,
            k <= size + 1,
            factor.valid(),
            forall|c: int| 0 <= c < i ==> #[trigger] matrix@[i as int]@[c] == F::zero_elem(),
            forall|c: int| 0 <= c < i ==> #[trigger] matrix@[j + 1]@[c] == F::zero_elem(),
            row@ == row_minus(m[j + 1], factor, m[i as int]).subrange(0, k as int),
        decreases width - k,
    {
        let below = matrix[j + 1][k];
        let v = if k < i {
            proof {
                assert(matrix@[i as int]@[k as int] == F::zero_elem());
                assert(matrix@[j + 1]@[k as int] == F::zero_elem());
                F::law_constants();
                algebra::lemma_products(factor, factor, factor);
                algebra::lemma_opposites(F::zero_elem(), factor);
            }
            below
        } else {
            below.sub(factor.mul(matrix[i][k]))
        };
        row.push(v);
        k = k + 1;
        assert(row@ =~= row_minus(m[j + 1], factor, m[i as int]).subrange(0, k as int));
    }
    assert(row@ =~= row_minus(m[j + 1], factor, m[i as int]));
    matrix.set(j + 1, row);
    proof {
        let out = m.update(j + 1, row_minus(m[j + 1], factor, m[i as int]));
        assert(rows(matrix@) =~= out);
        assert forall|q: int| 0 <= q < size implies (#[trigger] out[q]).len() == size + 1
            && field::all_valid(out[q]) by {
            assert(m[q].len() == size + 1 && field::all_valid(m[q]));
        }
    }
}

/// `a - (a / p) p` is zero.
proof fn lemma_clears<F: Field>(a: F, p: F)
    requires
        a.valid(),
        p.valid(),
        field::is_unit(p),
    ensures
        field::quotient(a, p).valid(),
        a.minus(field::quotient(a, p).times(p)) == F::zero_elem(),
        p.times(field::quotient(a, p)) == a,
{
    broadcast use algebra::group_valid;

    algebra::lemma_unit(p);
    let y = field::inverse(p);
    algebra::lemma_products(a, y, p);
    algebra::lemma_products(p, a, y);
    algebra::lemma_products(a, p, y);
    algebra::lemma_opposites(a, a);
}

/// Rows below the diagonal are zero, and so are the columns from `top` on off the diagonal; the
/// diagonal is not.
pub open spec fn diagonal_from<F: Field>(m: Seq<Seq<F>>, n: nat, top: int) -> bool {
    &&& forall|r: int, c: int|
        0 <= r < n && 0 <= c < n && c != r && (c < r || c >= top) ==> #[trigger] m[r][c]
            == F::zero_elem()
    &&& forall|r: int| 0 <= r < n ==> #[trigger] m[r][r] != F::zero_elem()
}

/// Back-substitution step: clears column `i` of all rows above row `i`.
fn eliminate<F: Field>(matrix: &mut Vec<Vec<F>>, i: usize)
    requires
        augmented(rows(old(matrix)@), old(matrix)@.len()),
        i < old(matrix)@.len(),
        diagonal_from(rows(old(matrix)@), old(matrix)@.len(), i + 1),
    ensures
        augmented(rows(final(matrix)@), old(matrix)@.len()),
        diagonal_from(rows(final(matrix)@), old(matrix)@.len(), i as int),
        entails(rows(final(matrix)@), rows(old(matrix)@), old(matrix)@.len()),
{
    let size: usize = matrix.len();
    let ghost n = size as nat;
    let ghost before = rows(matrix@);
    let mut j: usize = i;
    while j > 0
        invariant
            j <= i < size,
            size == matrix@.len(),
            n == size,
            augmented(rows(matrix@), n),
            forall|r: int, c: int|
                0 <= r < n && 0 <= c < n && c != r && (c < r || c > i || (c == i && r >= j))
                    ==> #[trigger] rows(matrix@)[r][c] == F::zero_elem(),
            forall|r: int| 0 <= r < n ==> #[trigger] rows(matrix@)[r][r] != F::zero_elem(),
            entails(rows(matrix@), before, n),
        decreases j,
    {
        broadcast use algebra::group_valid;

        let ghost m = rows(matrix@);
        proof {
            assert(m[i as int].len() == n + 1 && field::all_valid(m[i as int]));
            assert(m[j - 1].len() == n + 1 && field::all_valid(m[j - 1]));
            assert(m[i as int] == matrix@[i as int]@);
            assert(m[j - 1] == matrix@[j - 1]@);
            assert(m[i as int][i as int] != F::zero_elem());
        }
        let factor = field::divide(matrix[j - 1][i], matrix[i][i]);
        proof {
            lemma_clears(m[j - 1][i as int], m[i as int][i as int]);
        }
        let width: usize = matrix[i].len();
        let mut row: Vec<F> = Vec::new();
        let mut k: usize = 0;
        while k < width
            invariant
                width == size + 1,
                size == matrix@.len(),
                0 < j <= i < size,
                m == rows(matrix@),
                m[i as int] == matrix@[i as int]@,
                m[j - 1] == matrix@[j - 1]@,
                m[i as int].len() == size + 1,
                m[j - 1].len() == size + 1,
                k <= size + 1,
                row@ == row_minus(m[j - 1], factor, m[i as int]).subrange(0, k as int),
            decreases width - k,
        {
            row.push(matrix[j - 1][k].sub(factor.mul(matrix[i][k])));
            k = k + 1;
            assert(row@ =~= row_minus(m[j - 1], factor, m[i as int]).subrange(0, k as int));
        }
        assert(row@ =~= row_minus(m[j - 1], factor, m[i as int]));
        matrix.set(j - 1, row);
        proof {
            let out = m.update(j - 1, row_minus(m[j - 1], factor, m[i as int]));
            assert(rows(matrix@) =~= out);
            assert forall|q: int| 0 <= q < n implies (#[trigger] out[q]).len() == n + 1
                && field::all_valid(out[q]) by {
                assert(m[q].len() == n + 1 && field::all_valid(m[q]));
            }
            lemma_row_operation_entails(m, before, n, j - 1, i as int, factor);
            assert forall|r: int, c: int|
                0 <= r < n && 0 <= c < n && c != r && (c < r || c > i || (c == i && r >= j - 1))
                implies #[trigger] out[r][c] == F::zero_elem() by {
                if r == j - 1 {
                    let a = m[j - 1][c];
                    let b = m[i as int][c];
                    assert(a.valid() && b.valid());
                    if c != i {
                        assert(m[i as int][c] == F::zero_elem());
                        assert(m[j - 1][c] == F::zero_elem());
                        algebra::lemma_products(factor, factor, factor);
                        algebra::lemma_opposites(F::zero_elem(), factor);
                    }
                } else {
                    assert(m[r][c] == F::zero_elem());
                }
            }
            assert forall|r: int| 0 <= r < n implies #[trigger] out[r][r] != F::zero_elem() by {
                assert(m[r][r] != F::zero_elem());
                if r == j - 1 {
                    assert(m[i as int][r] == F::zero_elem());
                    assert(m[r][r].valid());
                    algebra::lemma_products(factor, factor, factor);
                    algebra::lemma_opposites(m[r][r], factor);
                }
            }
        }
        j = j - 1;
    }
}

/// Brings a row with a nonzero entry in column `i` into row `i`, by exchanging row `i` with the
/// first such row from it on.
fn exchange<F: Field>(matrix: &mut Vec<Vec<F>>, i: usize)
    requires
        augmented(rows(old(matrix)@), old(matrix)@.len()),
        i < old(matrix)@.len(),
        exists|r: int|
            i <= r < old(matrix)@.len() && #[trigger] rows(old(matrix)@)[r][i as int]
                != F::zero_elem(),
    ensures
        exists|r: int|
            i <= r < old(matrix)@.len() && rows(final(matrix)@) == #[trigger] exchanged(
                rows(old(matrix)@),
                i as int,
                r,
            ),
        rows(final(matrix)@)[i as int][i as int] != F::zero_elem(),
{
    let size: usize = matrix.len();
    let ghost m = rows(matrix@);
    let ghost before = matrix@;
    let ghost found = choose|r: int| i <= r < size && #[trigger] m[r][i as int] != F::zero_elem();
    let zero = F::zero();
    proof {
        assert(m[i as int].len() == size + 1);
        assert(m[i as int] == matrix@[i as int]@);
    }
    let mut r: usize = i;
    while matrix[r][i].is_equal(&zero)
        invariant
            i <= r <= found < size,
            size == matrix@.len(),
            m == rows(matrix@),
            augmented(m, size as nat),
            m[found][i as int] != F::zero_elem(),
            zero == F::zero_elem(),
            matrix@[r as int]@.len() == size + 1,
            matrix@ == before,
        ensures
            i <= r < size,
            matrix@ == before,
            before[r as int]@[i as int] != F::zero_elem(),
        decreases size - r,
    {
        proof {
            assert(m[r as int] == matrix@[r as int]@);
            assert(m[r + 1].len() == size + 1);
            assert(m[r + 1] == matrix@[r + 1]@);
        }
        r = r + 1;
    }
    if r != i {
        let mut row: Vec<F> = Vec::new();
        matrix.set_and_swap(r, &mut row);
        matrix.set_and_swap(i, &mut row);
        matrix.set_and_swap(r, &mut row);
    }
    proof {
        assert(rows(matrix@) =~= exchanged(m, i as int, r as int));
    }
}

/// Solves a system of linear equations with an invertible left block.
///
/// `matrix` is an augmented matrix of `n` rows and `n + 1` columns, the last of which holds the
/// right-hand sides. The elimination works in place, and exchanges rows where a pivot is zero.
pub fn gaussian_elimination<F: Field>(matrix: &mut Vec<Vec<F>>) -> (result: Vec<F>)
    requires
        old(matrix)@.len() > 0,
        augmented(rows(old(matrix)@), old(matrix)@.len()),
        nonsingular(rows(old(matrix)@)),
    ensures
        result@.len() == old(matrix)@.len(),
        field::all_valid(result@),
        solves(rows(old(matrix)@), result@),
        forall|x: Seq<F>|
            x.len() == old(matrix)@.len() && field::all_valid(x) && #[trigger] solves(
                rows(old(matrix)@),
                x,
            ) ==> x == result@,
        diagonal_from(rows(final(matrix)@), old(matrix)@.len(), 1),
{
    let size: usize = matrix.len();
    let ghost n = size as nat;
    let ghost m0 = rows(matrix@);
    let mut i: usize = 0;
    while i < size - 1
        invariant
            i <= size - 1,
            size == matrix@.len(),
            size >= 1,
            n == size,
            augmented(m0, n),
            nonsingular(m0),
            augmented(rows(matrix@), n),
            staircase(rows(matrix@), i as int),
            entails(rows(matrix@), m0, n),
        decreases size - 1 - i,
    {
        let ghost m1 = rows(matrix@);
        proof {
            lemma_pivot(m1, m0, n, i as int);
        }
        exchange(matrix, i);
        proof {
            let r = choose|r: int|
                i <= r < n && rows(matrix@) == #[trigger] exchanged(m1, i as int, r);
            lemma_exchange_entails(m1, m0, n, i as int, r);
            let out = rows(matrix@);
            assert forall|q: int, c: int| 0 <= q < n && 0 <= c < q && c < i implies #[trigger] out[q][c]
                == F::zero_elem() by {
                assert(m1[q][c] == F::zero_elem());
                assert(m1[r][c] == F::zero_elem());
                assert(m1[i as int][c] == F::zero_elem());
            }
            assert forall|q: int| 0 <= q < i implies field::is_unit(#[trigger] out[q][q]) by {
                assert(field::is_unit(m1[q][q]));
            }
        }
        let mut j: usize = i;
        while j < size - 1
            invariant
                i <= j <= size - 1,
                i < size - 1,
                size == matrix@.len(),
                n == size,
                augmented(rows(matrix@), n),
                staircase(rows(matrix@), i as int),
                entails(rows(matrix@), m0, n),
                rows(matrix@)[i as int][i as int] != F::zero_elem(),
                i < j ==> field::is_unit(rows(matrix@)[i as int][i as int]),
                forall|r: int|
                    i < r <= j ==> (#[trigger] rows(matrix@)[r])[i as int] == F::zero_elem(),
            decreases size - 1 - j,
        {
            broadcast use algebra::group_valid;

            let ghost m = rows(matrix@);
            let ghost f = field::quotient(m[j + 1][i as int], m[i as int][i as int]);
            proof {
                assert(m[i as int] == matrix@[i as int]@);
                assert(m[j + 1] == matrix@[j + 1]@);
                assert forall|c: int| 0 <= c < i implies #[trigger] matrix@[i as int]@[c]
                    == F::zero_elem() by {
                    assert(m[i as int][c] == F::zero_elem());
                }
                assert forall|c: int| 0 <= c < i implies #[trigger] matrix@[j + 1]@[c]
                    == F::zero_elem() by {
                    assert(m[j + 1][c] == F::zero_elem());
                }
            }
            echelon(matrix, i, j);
            proof {
                let out = rows(matrix@);
                assert(m[i as int].len() == n + 1 && m[j + 1].len() == n + 1);
                lemma_row_operation_entails(m, m0, n, j + 1, i as int, f);
                assert forall|q: int, c: int|
                    0 <= q < n && 0 <= c < q && c < i implies #[trigger] out[q][c]
                    == F::zero_elem() by {
                    assert(m[q][c] == F::zero_elem());
                    assert(m[i as int][c] == F::zero_elem());
                    algebra::lemma_products(f, f, f);
                    algebra::lemma_opposites(F::zero_elem(), f);
                }
                assert forall|q: int| 0 <= q < i implies field::is_unit(#[trigger] out[q][q]) by {
                    assert(field::is_unit(m[q][q]));
                }
                assert forall|r: int| i < r <= j + 1 implies (#[trigger] out[r])[i as int]
                    == F::zero_elem() by {
                    if r <= j {
                        assert(m[r][i as int] == F::zero_elem());
                    }
                }
            }
            j = j + 1;
        }
        proof {
            let out = rows(matrix@);
            assert forall|q: int, c: int|
                0 <= q < n && 0 <= c < q && c < i + 1 implies #[trigger] out[q][c]
                == F::zero_elem() by {
                if c == i {
                    assert(out[q][i as int] == F::zero_elem());
                }
            }
            assert forall|q: int| 0 <= q < i + 1 implies field::is_unit(#[trigger] out[q][q]) by {
            }
        }
        i = i + 1;
    }
    proof {
        broadcast use algebra::group_valid;

        let m = rows(matrix@);
        lemma_pivot(m, m0, n, size - 1);
        assert(m[size - 1][size - 1] != F::zero_elem());
        assert forall|r: int| 0 <= r < n implies #[trigger] m[r][r] != F::zero_elem() by {
            if r < size - 1 {
                assert(m[r].len() == n + 1 && field::all_valid(m[r]));
                algebra::lemma_unit(m[r][r]);
            }
        }
        assert forall|r: int, c: int|
            0 <= r < n && 0 <= c < n && c != r && (c < r || c >= n) implies #[trigger] m[r][c]
            == F::zero_elem() by {
        }
    }
    let mut b: usize = size - 1;
    while b > 0
        invariant
            b <= size - 1,
            size == matrix@.len(),
            size >= 1,
            n == size,
            augmented(rows(matrix@), n),
            diagonal_from(rows(matrix@), n, b + 1),
            entails(rows(matrix@), m0, n),
        decreases b,
    {
        eliminate(matrix, b);
        b = b - 1;
    }
    let ghost m = rows(matrix@);
    let mut result: Vec<F> = Vec::new();
    let mut q: usize = 0;
    while q < size
        invariant
            q <= size == matrix@.len(),
            n == size,
            m == rows(matrix@),
            augmented(m, n),
            diagonal_from(m, n, 1),
            result@.len() == q,
            field::all_valid(result@),
            forall|r: int|
                0 <= r < q ==> m[r][r].times(#[trigger] result@[r]) == m[r][n as int],
        decreases size - q,
    {
        broadcast use algebra::group_valid;

        proof {
            assert(m[q as int].len() == n + 1 && field::all_valid(m[q as int]));
            assert(m[q as int] == matrix@[q as int]@);
            assert(m[q as int][q as int] != F::zero_elem());
        }
        let v = field::divide(matrix[q][size], matrix[q][q]);
        proof {
            lemma_clears(m[q as int][n as int], m[q as int][q as int]);
        }
        result.push(v);
        q = q + 1;
    }
    proof {
        assert forall|r: int| 0 <= r < n implies row_holds(#[trigger] m[r], result@) by {
            assert(m[r].len() == n + 1 && field::all_valid(m[r]));
            let row = m[r].drop_last();
            assert forall|c: int| 0 <= c < row.len() && c != r implies #[trigger] row[c]
                == F::zero_elem() by {
                assert(m[r][c] == F::zero_elem());
            }
            lemma_dot_single(row, result@, r);
            assert(m[r][r].times(result@[r]) == m[r][n as int]);
        }
        assert(solves(m, result@));
        assert forall|x: Seq<F>|
            x.len() == n && field::all_valid(x) && #[trigger] solves(m0, x) implies x
            == result@ by {
            lemma_unique(m0, n, x, result@);
        }
    }
    result
}

} // verus!
