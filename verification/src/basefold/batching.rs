//! What the batched claims of the groups say of the single values.
use vstd::prelude::*;
use crate::basefold::batch;
use crate::basefold::batch::{EntryModel, GroupModel};
use crate::basefold::groups;
use crate::basefold::linear;
use crate::basefold::math;
use crate::bits;
use crate::field;
use crate::field::algebra;
use crate::field::{ExtensionField, Field};

verus! {

/// The values with the value of column `c` of matrix `m` of batch `b` raised by `d`.
pub open spec fn raised<EF: Field>(
    values: Seq<Seq<Seq<EF>>>,
    b: int,
    m: int,
    c: int,
    d: EF,
) -> Seq<Seq<Seq<EF>>> {
    values.update(b, values[b].update(m, values[b][m].update(c, values[b][m][c].plus(d))))
}

/// The values are canonical.
pub open spec fn values_valid<EF: Field>(values: Seq<Seq<Seq<EF>>>) -> bool {
    forall|b: int, m: int|
        0 <= b < values.len() && 0 <= m < values[b].len() ==> field::all_valid(
            #[trigger] values[b][m],
        )
}

/// `y` is `x` plus a power of `alpha` times `d`.
pub open spec fn grows<EF: Field>(x: EF, y: EF, alpha: EF, d: EF) -> bool {
    exists|e: nat| y == x.plus((#[trigger] field::power(alpha, e)).times(d))
}

proof fn lemma_matrices_at(heights: Seq<nat>, h: nat, batch: nat, n: nat)
    requires
        n <= heights.len(),
    ensures
        ({
            let s = groups::matrices_at(heights, h, batch, n);
            &&& s.no_duplicates()
            &&& forall|p: (nat, nat)|
                #[trigger] s.contains(p) <==> p.0 == batch && p.1 < n && bits::log2(
                    heights[p.1 as int],
                ) == h
        }),
    decreases n,
{
    let s = groups::matrices_at(heights, h, batch, n);
    if n > 0 {
        lemma_matrices_at(heights, h, batch, (n - 1) as nat);
        let before = groups::matrices_at(heights, h, batch, (n - 1) as nat);
        let last = (batch, (n - 1) as nat);
        if bits::log2(heights[n - 1]) == h {
            assert(!before.contains(last));
            assert(s == before.push(last));
            assert forall|p: (nat, nat)| #[trigger] s.contains(p) <==> p.0 == batch && p.1 < n
                && bits::log2(heights[p.1 as int]) == h by {
                if s.contains(p) {
                    let i = choose|i: int| 0 <= i < s.len() && s[i] == p;
                    if i < before.len() {
                        assert(before[i] == p);
                        assert(before.contains(p));
                    }
                }
                if before.contains(p) {
                    let i = choose|i: int| 0 <= i < before.len() && before[i] == p;
                    assert(s[i] == p);
                }
                assert(s[before.len() as int] == last);
            }
            assert forall|i: int, j: int| 0 <= i < s.len() && 0 <= j < s.len() && i
                != j implies s[i] != s[j] by {
                if i == before.len() {
                    assert(before.contains(before[j]));
                } else if j == before.len() {
                    assert(before.contains(before[i]));
                }
            }
        }
    }
}

pub proof fn lemma_positions_at(sizes: Seq<Seq<nat>>, h: nat, n: nat)
    requires
        n <= sizes.len(),
    ensures
        ({
            let s = groups::positions_at(sizes, h, n);
            &&& s.no_duplicates()
            &&& forall|p: (nat, nat)|
                #[trigger] s.contains(p) <==> p.0 < n && p.1 < sizes[p.0 as int].len()
                    && bits::log2(sizes[p.0 as int][p.1 as int]) == h
        }),
    decreases n,
{
    let s = groups::positions_at(sizes, h, n);
    if n > 0 {
        let k = (n - 1) as nat;
        lemma_positions_at(sizes, h, k);
        lemma_matrices_at(sizes[n - 1], h, k, sizes[n - 1].len());
        let a = groups::positions_at(sizes, h, k);
        let b = groups::matrices_at(sizes[n - 1], h, k, sizes[n - 1].len());
        assert(s == a + b);
        assert forall|p: (nat, nat)| #[trigger] s.contains(p) <==> a.contains(p) || b.contains(p) by {
            if s.contains(p) {
                let i = choose|i: int| 0 <= i < s.len() && s[i] == p;
                if i < a.len() {
                    assert(a[i] == p);
                } else {
                    assert(b[i - a.len()] == p);
                }
            }
            if a.contains(p) {
                let i = choose|i: int| 0 <= i < a.len() && a[i] == p;
                assert(s[i] == p);
            }
            if b.contains(p) {
                let i = choose|i: int| 0 <= i < b.len() && b[i] == p;
                assert(s[a.len() + i] == p);
            }
        }
        assert forall|i: int, j: int| 0 <= i < s.len() && 0 <= j < s.len() && i != j implies s[i]
            != s[j] by {
            if i < a.len() {
                assert(a.contains(a[i]));
            } else {
                assert(b.contains(b[i - a.len()]));
            }
            if j < a.len() {
                assert(a.contains(a[j]));
            } else {
                assert(b.contains(b[j - a.len()]));
            }
        }
    }
}

/// Raising one entry of the first argument of a dot product.
proof fn lemma_dot_raised<EF: Field>(v: Seq<EF>, c: int, d: EF, w: Seq<EF>)
    requires
        v.len() == w.len(),
        0 <= c < v.len(),
        field::all_valid(v),
        field::all_valid(w),
        d.valid(),
    ensures
        math::dot(v.update(c, v[c].plus(d)), w) == math::dot(v, w).plus(w[c].times(d)),
    decreases v.len(),
{
    broadcast use algebra::group_valid;

    let l = v.len() - 1;
    let t = v.update(c, v[c].plus(d));
    let (v0, w0) = (v.drop_last(), w.drop_last());
    linear::lemma_dot_valid(v0, w0);
    let x = math::dot(v0, w0);
    assert(v[l].valid() && w[l].valid() && v[c].valid() && w[c].valid());
    if c == l {
        assert(t.drop_last() =~= v0);
        algebra::lemma_products(w[l], v[l], d);
        EF::law_plus(x, v[l].times(w[l]), w[l].times(d));
        algebra::lemma_products(v[l], w[l], w[l]);
        algebra::lemma_products(d, w[l], w[l]);
    } else {
        lemma_dot_raised(v0, c, d, w0);
        assert(t.drop_last() =~= v0.update(c, v0[c].plus(d)));
        algebra::lemma_regroup(x, w[c].times(d), v[l].times(w[l]));
    }
}

/// The coefficients depend on the numbers of columns alone.
proof fn lemma_entries_same<EF: Field>(
    positions: Seq<(nat, nat)>,
    values: Seq<Seq<Seq<EF>>>,
    other: Seq<Seq<Seq<EF>>>,
    alpha: EF,
    used: nat,
)
    requires
        forall|i: int|
            0 <= i < positions.len() ==> values[(#[trigger] positions[i]).0 as int][positions[i].1 as int].len()
                == other[positions[i].0 as int][positions[i].1 as int].len(),
    ensures
        groups::entries_for(positions, values, alpha, used) == groups::entries_for(
            positions,
            other,
            alpha,
            used,
        ),
        groups::columns_of(positions, values) == groups::columns_of(positions, other),
    decreases positions.len(),
{
    if positions.len() > 0 {
        let before = positions.drop_last();
        assert forall|i: int| 0 <= i < before.len() implies values[(#[trigger] before[i]).0 as int][before[i].1 as int].len()
            == other[before[i].0 as int][before[i].1 as int].len() by {
            assert(before[i] == positions[i]);
        }
        lemma_entries_same(before, values, other, alpha, used);
        let last = positions[positions.len() - 1];
        assert(values[last.0 as int][last.1 as int].len() == other[last.0 as int][last.1 as int].len());
    }
}

/// What raising a value does to the claim of a list of matrices.
proof fn lemma_claim_raised<EF: Field>(
    positions: Seq<(nat, nat)>,
    values: Seq<Seq<Seq<EF>>>,
    alpha: EF,
    used: nat,
    b: int,
    m: int,
    c: int,
    d: EF,
)
    requires
        values_valid(values),
        alpha.valid(),
        d.valid(),
        0 <= b < values.len(),
        0 <= m < values[b].len(),
        0 <= c < values[b][m].len(),
        positions.no_duplicates(),
        forall|i: int|
            0 <= i < positions.len() ==> (#[trigger] positions[i]).0 < values.len()
                && positions[i].1 < values[positions[i].0 as int].len(),
    ensures
        ({
            let other = raised(values, b, m, c, d);
            let entries = groups::entries_for(positions, values, alpha, used);
            let x = groups::claim_of(entries, values);
            let y = groups::claim_of(entries, other);
            &&& groups::entries_for(positions, other, alpha, used) == entries
            &&& groups::columns_of(positions, other) == groups::columns_of(positions, values)
            &&& x.valid()
            &&& !positions.contains((b as nat, m as nat)) ==> y == x
            &&& positions.contains((b as nat, m as nat)) ==> grows(x, y, alpha, d)
        }),
    decreases positions.len(),
{
    broadcast use algebra::group_valid;

    let other = raised(values, b, m, c, d);
    let place = (b as nat, m as nat);
    assert forall|i: int| 0 <= i < positions.len() implies values[(#[trigger] positions[i]).0 as int][positions[i].1 as int].len()
        == other[positions[i].0 as int][positions[i].1 as int].len() by {}
    lemma_entries_same(positions, values, other, alpha, used);
    EF::law_constants();
    if positions.len() > 0 {
        let before = positions.drop_last();
        assert forall|i: int| 0 <= i < before.len() implies (#[trigger] before[i]).0 < values.len()
            && before[i].1 < values[before[i].0 as int].len() by {
            assert(before[i] == positions[i]);
        }
        assert(before.no_duplicates());
        lemma_claim_raised(before, values, alpha, used, b, m, c, d);
        let entries = groups::entries_for(positions, values, alpha, used);
        let e0 = groups::entries_for(before, values, alpha, used);
        assert(entries.drop_last() =~= e0);
        let last = positions.last();
        assert(last == positions[positions.len() - 1]);
        let (lb, lm) = (last.0 as int, last.1 as int);
        let e = entries.last();
        let v = values[lb][lm];
        let w = e.coeffs;
        let start = used + groups::columns_of(before, values);
        assert(w.len() == v.len());
        assert forall|i: int| 0 <= i < w.len() implies (#[trigger] w[i]).valid() by {
            algebra::lemma_power_valid(alpha, start + i as nat);
        }
        assert(field::all_valid(v));
        linear::lemma_dot_valid(v, w);
        let x0 = groups::claim_of(e0, values);
        let y0 = groups::claim_of(e0, other);
        if last == place {
            assert(!before.contains(place)) by {
                if before.contains(place) {
                    let i = choose|i: int| 0 <= i < before.len() && before[i] == place;
                    assert(positions[i] == positions[positions.len() - 1]);
                }
            }
            assert(positions.contains(place));
            lemma_dot_raised(v, c, d, w);
            assert(other[lb][lm] =~= v.update(c, v[c].plus(d)));
            let k = start + c as nat;
            assert(w[c] == field::power(alpha, k));
            algebra::lemma_power_valid(alpha, k);
            EF::law_plus(x0, math::dot(v, w), field::power(alpha, k).times(d));
        } else {
            assert(other[lb][lm] =~= v);
            if positions.contains(place) {
                let i = choose|i: int| 0 <= i < positions.len() && positions[i] == place;
                assert(before[i] == place);
                assert(before.contains(place));
                let k = choose|k: nat| y0 == x0.plus((#[trigger] field::power(alpha, k)).times(d));
                algebra::lemma_power_valid(alpha, k);
                algebra::lemma_regroup(x0, field::power(alpha, k).times(d), math::dot(v, w));
                assert(groups::claim_of(entries, other) == groups::claim_of(entries, values).plus(
                    field::power(alpha, k).times(d),
                ));
            } else {
                assert(!before.contains(place)) by {
                    if before.contains(place) {
                        let i = choose|i: int| 0 <= i < before.len() && before[i] == place;
                        assert(positions[i] == place);
                    }
                }
            }
        }
    }
}

/// Law: every value counts in the claim of the matrices of its height: where the value of a column
/// grows by `d`, that claim grows by `d` times a power of the batching challenge, and everything else
/// about the groups stays.
pub proof fn law_values_count<EF: Field>(
    sizes: Seq<Seq<nat>>,
    values: Seq<Seq<Seq<EF>>>,
    alpha: EF,
    used: nat,
    end: nat,
    b: int,
    m: int,
    c: int,
    d: EF,
)
    requires
        groups::values_shape(values, sizes),
        values_valid(values),
        alpha.valid(),
        d.valid(),
        0 <= b < values.len(),
        0 <= m < values[b].len(),
        0 <= c < values[b][m].len(),
    ensures
        ({
            let x = groups::groups_below(sizes, values, alpha, used, end);
            let y = groups::groups_below(sizes, raised(values, b, m, c, d), alpha, used, end);
            let h = bits::log2(sizes[b][m]);
            &&& x.len() == y.len()
            &&& h < end ==> exists|i: int| 0 <= i < x.len() && (#[trigger] x[i]).log_height == h
            &&& forall|i: int|
                0 <= i < x.len() ==> (#[trigger] y[i]).log_height == x[i].log_height && y[i].entries
                    == x[i].entries
            &&& forall|i: int|
                0 <= i < x.len() && x[i].log_height != h ==> (#[trigger] y[i]).claim == x[i].claim
            &&& forall|i: int|
                0 <= i < x.len() && x[i].log_height == h ==> grows(
                    x[i].claim,
                    (#[trigger] y[i]).claim,
                    alpha,
                    d,
                )
        }),
    decreases end,
{
    let other = raised(values, b, m, c, d);
    if end > 0 {
        let k = (end - 1) as nat;
        let positions = groups::positions_at(sizes, k, sizes.len());
        lemma_positions_at(sizes, k, sizes.len());
        let place = (b as nat, m as nat);
        assert(values[b].len() == sizes[b].len());
        if positions.len() == 0 {
            law_values_count(sizes, values, alpha, used, k, b, m, c, d);
            assert(!positions.contains(place));
            assert(groups::groups_below(sizes, values, alpha, used, end) == groups::groups_below(
                sizes,
                values,
                alpha,
                used,
                k,
            ));
            assert(groups::groups_below(sizes, other, alpha, used, end) == groups::groups_below(
                sizes,
                other,
                alpha,
                used,
                k,
            ));
        } else {
            assert forall|i: int| 0 <= i < positions.len() implies (#[trigger] positions[i]).0
                < values.len() && positions[i].1 < values[positions[i].0 as int].len() by {
                assert(positions.contains(positions[i]));
                assert(values[positions[i].0 as int].len() == sizes[positions[i].0 as int].len());
            }
            lemma_claim_raised(positions, values, alpha, used, b, m, c, d);
            let next = used + groups::columns_of(positions, values);
            law_values_count(sizes, values, alpha, next, k, b, m, c, d);
            let x = groups::groups_below(sizes, values, alpha, used, end);
            let y = groups::groups_below(sizes, other, alpha, used, end);
            let x0 = groups::groups_below(sizes, values, alpha, next, k);
            let y0 = groups::groups_below(sizes, other, alpha, next, k);
            assert forall|i: int| 0 < i < x.len() implies x[i] == x0[i - 1] && y[i] == y0[i - 1] by {}
            let h = bits::log2(sizes[b][m]);
            if h < k {
                let i = choose|i: int| 0 <= i < x0.len() && (#[trigger] x0[i]).log_height == h;
                assert(x[i + 1].log_height == h);
            } else if h == k {
                assert(x[0].log_height == h);
            }
            assert forall|i: int| 0 <= i < x.len() implies (#[trigger] y[i]).log_height
                == x[i].log_height && y[i].entries == x[i].entries by {
                if i > 0 {
                    assert(y0[i - 1].log_height == x0[i - 1].log_height);
                }
            }
            assert forall|i: int| 0 <= i < x.len() && x[i].log_height != h implies (
            #[trigger] y[i]).claim == x[i].claim by {
                if i > 0 {
                    assert(y0[i - 1].claim == x0[i - 1].claim);
                } else {
                    assert(!positions.contains(place));
                }
            }
            assert forall|i: int| 0 <= i < x.len() && x[i].log_height == h implies grows(
                x[i].claim,
                (#[trigger] y[i]).claim,
                alpha,
                d,
            ) by {
                if i > 0 {
                    assert(y0[i - 1].log_height == x0[i - 1].log_height);
                } else {
                    assert(positions.contains(place));
                }
            }
        }
    }
}

/// The coefficients of all entries of a list, one after the other.
pub open spec fn coefficients<EF>(entries: Seq<EntryModel<EF>>) -> Seq<EF>
    decreases entries.len(),
{
    if entries.len() == 0 {
        Seq::empty()
    } else {
        coefficients(entries.drop_last()) + entries.last().coeffs
    }
}

/// The coefficients of all groups, one after the other.
pub open spec fn all_coefficients<EF>(g: Seq<GroupModel<EF>>) -> Seq<EF>
    decreases g.len(),
{
    if g.len() == 0 {
        Seq::empty()
    } else {
        coefficients(g[0].entries) + all_coefficients(g.drop_first())
    }
}

proof fn lemma_coefficients<EF: Field>(
    positions: Seq<(nat, nat)>,
    values: Seq<Seq<Seq<EF>>>,
    alpha: EF,
    used: nat,
)
    ensures
        coefficients(groups::entries_for(positions, values, alpha, used)) == Seq::new(
            groups::columns_of(positions, values),
            |i: int| field::power(alpha, used + i as nat),
        ),
    decreases positions.len(),
{
    let entries = groups::entries_for(positions, values, alpha, used);
    let all = Seq::new(
        groups::columns_of(positions, values),
        |i: int| field::power(alpha, used + i as nat),
    );
    if positions.len() > 0 {
        let before = positions.drop_last();
        lemma_coefficients(before, values, alpha, used);
        assert(entries.drop_last() =~= groups::entries_for(before, values, alpha, used));
        assert(coefficients(entries) =~= all);
    } else {
        assert(coefficients(entries) =~= all);
    }
}

/// Law: the columns of all matrices, from the tallest down, are batched with successive powers of the
/// challenge, no two with the same.
pub proof fn law_successive_powers<EF: Field>(
    sizes: Seq<Seq<nat>>,
    values: Seq<Seq<Seq<EF>>>,
    alpha: EF,
    used: nat,
    end: nat,
)
    ensures
        ({
            let all = all_coefficients(groups::groups_below(sizes, values, alpha, used, end));
            forall|i: int|
                0 <= i < all.len() ==> #[trigger] all[i] == field::power(alpha, used + i as nat)
        }),
    decreases end,
{
    if end > 0 {
        let k = (end - 1) as nat;
        let positions = groups::positions_at(sizes, k, sizes.len());
        if positions.len() == 0 {
            law_successive_powers(sizes, values, alpha, used, k);
            assert(groups::groups_below(sizes, values, alpha, used, end) == groups::groups_below(
                sizes,
                values,
                alpha,
                used,
                k,
            ));
        } else {
            let n = groups::columns_of(positions, values);
            lemma_coefficients(positions, values, alpha, used);
            law_successive_powers(sizes, values, alpha, used + n, k);
            let g = groups::groups_below(sizes, values, alpha, used, end);
            let rest = groups::groups_below(sizes, values, alpha, used + n, k);
            assert(g.drop_first() =~= rest);
            let all = all_coefficients(g);
            let first = coefficients(g[0].entries);
            assert forall|i: int| 0 <= i < all.len() implies #[trigger] all[i] == field::power(
                alpha,
                used + i as nat,
            ) by {
                if i < n {
                    assert(all[i] == first[i]);
                } else {
                    assert(all[i] == all_coefficients(rest)[i - n]);
                }
            }
        }
    }
}

/// Law: the combination of the opened rows of a list of tables is the sum of those of its parts, and
/// that of one table is the sum of its coefficients times the values in its row.
pub proof fn law_leaf_sum<F: Field, EF: ExtensionField<F>>(
    a: Seq<EntryModel<EF>>,
    b: Seq<EntryModel<EF>>,
    e: EntryModel<EF>,
    rows: Seq<Seq<Seq<F>>>,
)
    ensures
        batch::leaf_sum(a + b, rows) == batch::leaf_sum(a, rows).plus(batch::leaf_sum(b, rows)),
        batch::leaf_sum(seq![e], rows) == math::dot(
            e.coeffs,
            math::mixed::<F, EF>(rows[e.batch as int][e.matrix as int], e.coeffs.len()),
        ),
    decreases b.len(),
{
    broadcast use algebra::group_valid;

    let own = math::dot(
        e.coeffs,
        math::mixed::<F, EF>(rows[e.batch as int][e.matrix as int], e.coeffs.len()),
    );
    assert(seq![e].drop_last() =~= Seq::<EntryModel<EF>>::empty());
    assert(batch::leaf_sum(Seq::<EntryModel<EF>>::empty(), rows) == EF::zero_elem());
    lemma_dot_valid(
        e.coeffs,
        math::mixed::<F, EF>(rows[e.batch as int][e.matrix as int], e.coeffs.len()),
    );
    algebra::lemma_opposites(own, own);
    let x = batch::leaf_sum(a, rows);
    lemma_leaf_sum_valid(a, rows);
    if b.len() == 0 {
        assert(a + b =~= a);
        EF::law_plus(x, x, x);
    } else {
        let l = b.last();
        let own = math::dot(
            l.coeffs,
            math::mixed::<F, EF>(rows[l.batch as int][l.matrix as int], l.coeffs.len()),
        );
        lemma_dot_valid(
            l.coeffs,
            math::mixed::<F, EF>(rows[l.batch as int][l.matrix as int], l.coeffs.len()),
        );
        law_leaf_sum(a, b.drop_last(), e, rows);
        lemma_leaf_sum_valid(b.drop_last(), rows);
        assert((a + b).drop_last() =~= a + b.drop_last());
        assert((a + b).last() == l);
        EF::law_plus(x, batch::leaf_sum(b.drop_last(), rows), own);
    }
}

proof fn lemma_dot_valid<EF: Field>(a: Seq<EF>, b: Seq<EF>)
    ensures
        math::dot(a, b).valid(),
{
    broadcast use algebra::group_valid;

}

proof fn lemma_leaf_sum_valid<F: Field, EF: ExtensionField<F>>(
    a: Seq<EntryModel<EF>>,
    rows: Seq<Seq<Seq<F>>>,
)
    ensures
        batch::leaf_sum(a, rows).valid(),
{
    broadcast use algebra::group_valid;

}

/// Law: the largest logarithm of a list of heights is not below any of them, and is one of them.
pub proof fn law_max_log_height(heights: Seq<nat>)
    ensures
        forall|i: int|
            0 <= i < heights.len() ==> bits::log2(#[trigger] heights[i]) <= batch::max_log_height(
                heights,
            ),
        heights.len() > 0 ==> exists|i: int|
            0 <= i < heights.len() && bits::log2(#[trigger] heights[i]) == batch::max_log_height(
                heights,
            ),
    decreases heights.len(),
{
    if heights.len() > 0 {
        let less = heights.drop_last();
        law_max_log_height(less);
        let m = batch::max_log_height(heights);
        assert forall|i: int| 0 <= i < heights.len() implies bits::log2(#[trigger] heights[i])
            <= m by {
            if i < less.len() {
                assert(less[i] == heights[i]);
            }
        }
        if bits::log2(heights.last()) == m {
            assert(bits::log2(heights[heights.len() - 1]) == m);
        } else {
            let i = choose|i: int|
                0 <= i < less.len() && bits::log2(#[trigger] less[i]) == batch::max_log_height(
                    less,
                );
            assert(bits::log2(heights[i]) == m);
        }
    }
}

/// Some table has the height.
pub open spec fn occurs(sizes: Seq<Seq<nat>>, h: nat) -> bool {
    exists|b: int, m: int|
        0 <= b < sizes.len() && 0 <= m < sizes[b].len() && bits::log2(#[trigger] sizes[b][m]) == h
}

/// Law: the heights of the groups are the heights of the tables below the bound, each once and from the
/// greatest to the least.
pub proof fn law_group_heights(sizes: Seq<Seq<nat>>, end: nat)
    ensures
        ({
            let s = groups::group_heights(sizes, end);
            &&& forall|h: nat| #[trigger] s.contains(h) <==> h < end && occurs(sizes, h)
            &&& forall|i: int, j: int| 0 <= i < j < s.len() ==> #[trigger] s[i] > #[trigger] s[j]
        }),
    decreases end,
{
    let s = groups::group_heights(sizes, end);
    if end > 0 {
        let top = (end - 1) as nat;
        let rest = groups::group_heights(sizes, top);
        law_group_heights(sizes, top);
        lemma_positions_at(sizes, top, sizes.len());
        let at = groups::positions_at(sizes, top, sizes.len());
        if at.len() > 0 {
            assert(at.contains(at[0]));
            let q = at[0];
            assert(bits::log2(sizes[q.0 as int][q.1 as int]) == top);
            assert(occurs(sizes, top));
            assert(s[0] == top);
            assert forall|h: nat| #[trigger] s.contains(h) <==> h == top || rest.contains(h) by {
                if s.contains(h) {
                    let i = choose|i: int| 0 <= i < s.len() && s[i] == h;
                    if i > 0 {
                        assert(rest[i - 1] == h);
                    }
                }
                if rest.contains(h) {
                    let i = choose|i: int| 0 <= i < rest.len() && rest[i] == h;
                    assert(s[i + 1] == h);
                }
            }
            assert forall|i: int, j: int| 0 <= i < j < s.len() implies #[trigger] s[i]
                > #[trigger] s[j] by {
                assert(rest[j - 1] == s[j]);
                assert(rest.contains(rest[j - 1]));
                if i > 0 {
                    assert(rest[i - 1] == s[i]);
                }
            }
        } else {
            if occurs(sizes, top) {
                let (b, m) = choose|b: int, m: int|
                    0 <= b < sizes.len() && 0 <= m < sizes[b].len() && bits::log2(
                        #[trigger] sizes[b][m],
                    ) == top;
                assert(at.contains((b as nat, m as nat)));
            }
        }
    }
}

} // verus!
