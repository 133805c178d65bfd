//! An opening of true values is accepted.
use vstd::prelude::*;
use vstd::arithmetic::power2::*;
use crate::basefold::batch;
use crate::basefold::batch::EntryModel;
use crate::basefold::challenger;
use crate::basefold::challenger::Transcript;
use crate::basefold::encode;
use crate::basefold::eqpoly;
use crate::basefold::groups;
use crate::basefold::honest;
use crate::basefold::honest_pruned;
use crate::basefold::honest_queries;
use crate::basefold::honest_queries::Run;
use crate::basefold::input_openings;
use crate::basefold::linear;
use crate::basefold::math;
use crate::basefold::mmcs;
use crate::basefold::mmcs::{Dimensions, MatrixModel, MerkleField};
use crate::basefold::opening;
use crate::basefold::opening::Request;
use crate::basefold::openings::{BaseFoldError, BasefoldProof};
use crate::basefold::pcs::BaseFoldPcs;
use crate::basefold::prove_rounds;
use crate::basefold::prover;
use crate::basefold::pruned;
use crate::basefold::query;
use crate::basefold::rounds;
use crate::basefold::schedule;
use crate::basefold::verdict;
use crate::basefold::verification;
use crate::bits;
use crate::field;
use crate::field::algebra;
use crate::field::{ExtensionField, Field, TwoAdicExtension};

verus! {

/// A column of a matrix beside `n` columns of extension elements: its entries, or the elements that
/// its coordinates stand for.
pub open spec fn mixed_column<F: Field, EF: ExtensionField<F>>(
    m: MatrixModel<F>,
    n: nat,
    c: int,
) -> Seq<EF> {
    Seq::new(m.height(), |i: int| math::mixed::<F, EF>(m.row(i as nat), n)[c])
}

/// The values are those of the columns of the matrix, as multilinear polynomials, at the first
/// variables of the point.
pub open spec fn values_true<F: Field, EF: ExtensionField<F>>(
    m: MatrixModel<F>,
    values: Seq<EF>,
    point: Seq<EF>,
) -> bool {
    forall|c: int|
        0 <= c < values.len() ==> #[trigger] values[c] == math::dot(
            mixed_column::<F, EF>(m, values.len(), c),
            eqpoly::eq_table(point.take(bits::log2(m.height()) as int)),
        )
}

impl<F: MerkleField, EF: TwoAdicExtension<F>> Request<F, EF> {
    /// The opened values are those of the matrices.
    pub open spec fn is_true(self) -> bool {
        forall|b: int, m: int|
            0 <= b < self.matrices.len() && 0 <= m < self.matrices[b].len() ==> values_true(
                #[trigger] self.matrices[b][m],
                self.values[b][m],
                self.point,
            )
    }
}

/// The combination of the first `k` columns of a matrix.
spec fn partial_table<F: Field, EF: ExtensionField<F>>(
    m: MatrixModel<F>,
    coeffs: Seq<EF>,
    k: nat,
) -> Seq<EF> {
    Seq::new(
        m.height(),
        |i: int|
            math::dot(
                coeffs.take(k as int),
                math::mixed::<F, EF>(m.row(i as nat), coeffs.len()).take(k as int),
            ),
    )
}

proof fn lemma_mixed_valid<F: Field, EF: ExtensionField<F>>(
    m: MatrixModel<F>,
    n: nat,
    i: nat,
    c: int,
)
    requires
        m.wf(),
        m.width == n || m.width == n * EF::degree(),
        i < m.height(),
        0 <= c < n,
    ensures
        math::mixed::<F, EF>(m.row(i), n).len() == n,
        math::mixed::<F, EF>(m.row(i), n)[c].valid(),
{
    let row = m.row(i);
    let w = m.width;
    let h = m.height();
    assert(i * w + w <= h * w) by (nonlinear_arith)
        requires
            i < h,
    ;
    assert(row.len() == w);
    assert forall|j: int| 0 <= j < w implies (#[trigger] row[j]).valid() by {
        assert(row[j] == m.values[i * w + j]);
    }
    if w == n {
        EF::law_constants();
        EF::law_embed(EF::zero_elem(), EF::zero_elem(), row[c], row[c]);
    } else {
        let d = EF::degree();
        assert(0 <= c * d && c * d + d <= n * d) by (nonlinear_arith)
            requires
                0 <= c < n,
        ;
        let part = row.subrange(c * d as int, c * d as int + d);
        assert forall|j: int| 0 <= j < part.len() implies (#[trigger] part[j]).valid() by {
            assert(part[j] == row[c * d + j]);
        }
        EF::law_from_coeffs_valid(part);
    }
}

/// The combination of the columns of one matrix sums to the combination of the values.
proof fn lemma_one_entry<F: Field, EF: ExtensionField<F>>(
    m: MatrixModel<F>,
    coeffs: Seq<EF>,
    values: Seq<EF>,
    weights: Seq<EF>,
    k: nat,
)
    requires
        m.wf(),
        m.width == coeffs.len() || m.width == coeffs.len() * EF::degree(),
        values.len() == coeffs.len(),
        k <= coeffs.len(),
        field::all_valid(coeffs),
        field::all_valid(weights),
        weights.len() == m.height(),
        forall|c: int|
            0 <= c < values.len() ==> #[trigger] values[c] == math::dot(
                mixed_column::<F, EF>(m, values.len(), c),
                weights,
            ),
    ensures
        math::dot(partial_table(m, coeffs, k), weights) == math::dot(
            values.take(k as int),
            coeffs.take(k as int),
        ),
        field::all_valid(partial_table(m, coeffs, k)),
    decreases k,
{
    broadcast use algebra::group_valid;

    EF::law_constants();
    let table = partial_table(m, coeffs, k);
    assert forall|i: int| 0 <= i < table.len() implies (#[trigger] table[i]).valid() by {
        linear::lemma_dot_valid(
            coeffs.take(k as int),
            math::mixed::<F, EF>(m.row(i as nat), coeffs.len()).take(k as int),
        );
    }
    if k == 0 {
        assert(table =~= linear::constant(EF::zero_elem(), m.height()));
        lemma_zero_dot(weights, m.height());
    } else {
        let j = (k - 1) as nat;
        let c = j as int;
        lemma_one_entry(m, coeffs, values, weights, j);
        let before = partial_table(m, coeffs, j);
        let column = mixed_column::<F, EF>(m, coeffs.len(), c);
        let x = coeffs[c];
        assert(x.valid());
        assert forall|i: int| 0 <= i < column.len() implies (#[trigger] column[i]).valid() by {
            lemma_mixed_valid::<F, EF>(m, coeffs.len(), i as nat, c);
        }
        let one = EF::one_elem();
        let both = linear::combined(one, before, x, column);
        assert forall|i: int| 0 <= i < table.len() implies table[i] == both[i] by {
            lemma_mixed_valid::<F, EF>(m, coeffs.len(), i as nat, c);
            let mixed = math::mixed::<F, EF>(m.row(i as nat), coeffs.len());
            assert(coeffs.take(k as int).drop_last() =~= coeffs.take(c));
            assert(mixed.take(k as int).drop_last() =~= mixed.take(c));
            assert(before[i].valid());
            algebra::lemma_products(before[i], before[i], before[i]);
        }
        assert(table =~= both);
        linear::lemma_dot_combined(one, before, x, column, weights);
        let sum = math::dot(before, weights);
        linear::lemma_dot_valid(before, weights);
        linear::lemma_dot_valid(column, weights);
        algebra::lemma_products(sum, sum, sum);
        algebra::lemma_products(x, values[c], x);
        assert(values.take(k as int).drop_last() =~= values.take(c));
        assert(coeffs.take(k as int).drop_last() =~= coeffs.take(c));
    }
}

pub proof fn lemma_zero_dot<F: Field>(weights: Seq<F>, n: nat)
    requires
        weights.len() == n,
        field::all_valid(weights),
    ensures
        math::dot(linear::constant(F::zero_elem(), n), weights) == F::zero_elem(),
    decreases n,
{
    F::law_constants();
    if n > 0 {
        let z = linear::constant(F::zero_elem(), n);
        let front = weights.drop_last();
        assert(z.drop_last() =~= linear::constant(F::zero_elem(), (n - 1) as nat));
        assert forall|i: int| 0 <= i < front.len() implies (#[trigger] front[i]).valid() by {
            assert(front[i] == weights[i]);
        }
        lemma_zero_dot(front, (n - 1) as nat);
        assert(weights[n - 1].valid());
        algebra::lemma_products(weights.last(), F::zero_elem(), F::zero_elem());
        algebra::lemma_opposites(F::zero_elem(), F::zero_elem());
    }
}

/// The claim of a group, made of true values, is the sum of its table against the equality
/// polynomial.
pub proof fn law_claim_of_true_values<F: MerkleField, EF: ExtensionField<F>>(
    entries: Seq<EntryModel<EF>>,
    matrices: Seq<Seq<MatrixModel<F>>>,
    values: Seq<Seq<Seq<EF>>>,
    weights: Seq<EF>,
    len: nat,
)
    requires
        prover::entries_of_height(entries, matrices, len),
        weights.len() == len,
        field::all_valid(weights),
        forall|i: int|
            0 <= i < entries.len() ==> values[(#[trigger] entries[i]).batch as int][entries[i].matrix as int].len()
                == entries[i].coeffs.len(),
        forall|i: int, c: int|
            0 <= i < entries.len() && 0 <= c < entries[i].coeffs.len()
                ==> #[trigger] values[entries[i].batch as int][entries[i].matrix as int][c]
                == math::dot(
                mixed_column::<F, EF>(
                    matrices[entries[i].batch as int][entries[i].matrix as int],
                    entries[i].coeffs.len(),
                    c,
                ),
                weights,
            ),
    ensures
        groups::claim_of(entries, values) == math::dot(
            linear::group_table(entries, matrices, len),
            weights,
        ),
    decreases entries.len(),
{
    broadcast use algebra::group_valid;

    EF::law_constants();
    let table = linear::group_table(entries, matrices, len);
    if entries.len() == 0 {
        assert(table =~= linear::constant(EF::zero_elem(), len));
        lemma_zero_dot(weights, len);
    } else {
        let front = entries.drop_last();
        let last = entries.len() - 1;
        let e = entries[last];
        assert(linear::entry_of_height(entries[last], matrices, len));
        assert(prover::entries_of_height(front, matrices, len)) by {
            assert forall|i: int| 0 <= i < front.len() implies linear::entry_of_height(
                #[trigger] front[i],
                matrices,
                len,
            ) by {
                assert(front[i] == entries[i]);
            }
        }
        assert forall|i: int| 0 <= i < front.len() implies values[(#[trigger] front[i]).batch as int][front[i].matrix as int].len()
            == front[i].coeffs.len() by {
            assert(front[i] == entries[i]);
        }
        assert forall|i: int, c: int|
            0 <= i < front.len() && 0 <= c < front[i].coeffs.len()
                implies #[trigger] values[front[i].batch as int][front[i].matrix as int][c]
            == math::dot(
            mixed_column::<F, EF>(
                matrices[front[i].batch as int][front[i].matrix as int],
                front[i].coeffs.len(),
                c,
            ),
            weights,
        ) by {
            assert(front[i] == entries[i]);
            assert(values[entries[i].batch as int][entries[i].matrix as int][c] == values[front[i].batch as int][front[i].matrix as int][c]);
        }
        law_claim_of_true_values(front, matrices, values, weights, len);
        let m = matrices[e.batch as int][e.matrix as int];
        let vals = values[e.batch as int][e.matrix as int];
        assert(vals.len() == e.coeffs.len());
        assert forall|c: int| 0 <= c < vals.len() implies #[trigger] vals[c] == math::dot(
            mixed_column::<F, EF>(m, vals.len(), c),
            weights,
        ) by {
            assert(values[entries[last].batch as int][entries[last].matrix as int][c] == vals[c]);
        }
        let n = e.coeffs.len();
        lemma_one_entry(m, e.coeffs, vals, weights, n);
        let before = linear::group_table(front, matrices, len);
        let part = partial_table(m, e.coeffs, n);
        let one = EF::one_elem();
        assert(e.coeffs.take(n as int) =~= e.coeffs);
        assert(vals.take(n as int) =~= vals);
        let both = linear::combined(one, before, one, part);
        assert forall|i: int| 0 <= i < table.len() implies table[i] == both[i] && (
        #[trigger] before[i]).valid() by {
            let rows = linear::rows_at(matrices, i as nat);
            assert(rows[e.batch as int][e.matrix as int] == m.row(i as nat));
            if n > 0 {
                lemma_mixed_valid::<F, EF>(m, n, i as nat, 0);
            }
            let mixed = math::mixed::<F, EF>(m.row(i as nat), n);
            assert(mixed.take(n as int) =~= mixed);
            linear::lemma_leaf_sum_valid(front, rows);
            assert(part[i].valid());
            algebra::lemma_products(before[i], part[i], part[i]);
            algebra::lemma_products(part[i], part[i], part[i]);
            assert(table[i] == batch::leaf_sum(entries, rows));
        }
        assert(table =~= both);
        linear::lemma_dot_combined(one, before, one, part, weights);
        let a = math::dot(before, weights);
        let b = math::dot(part, weights);
        linear::lemma_dot_valid(before, weights);
        linear::lemma_dot_valid(part, weights);
        algebra::lemma_products(a, b, b);
        algebra::lemma_products(b, b, b);
    }
}

/// The claims of the groups are those of their entries.
proof fn lemma_claims<EF: Field>(
    sizes: Seq<Seq<nat>>,
    values: Seq<Seq<Seq<EF>>>,
    alpha: EF,
    used: nat,
    end: nat,
)
    ensures
        forall|g: int|
            0 <= g < groups::groups_below(sizes, values, alpha, used, end).len() ==> (
            #[trigger] groups::groups_below(sizes, values, alpha, used, end)[g]).claim
                == groups::claim_of(
                groups::groups_below(sizes, values, alpha, used, end)[g].entries,
                values,
            ),
    decreases end,
{
    if end > 0 {
        let h = (end - 1) as nat;
        let positions = groups::positions_at(sizes, h, sizes.len());
        if positions.len() == 0 {
            lemma_claims(sizes, values, alpha, used, h);
            assert(groups::groups_below(sizes, values, alpha, used, end)
                == groups::groups_below(sizes, values, alpha, used, h));
        } else {
            let used2 = used + groups::columns_of(positions, values);
            lemma_claims(sizes, values, alpha, used2, h);
            let rest = groups::groups_below(sizes, values, alpha, used2, h);
            let all = groups::groups_below(sizes, values, alpha, used, end);
            assert forall|g: int| 0 <= g < all.len() implies (#[trigger] all[g]).claim
                == groups::claim_of(all[g].entries, values) by {
                if g > 0 {
                    assert(all[g] == rest[g - 1]);
                }
            }
        }
    }
}

/// Where the opened values are true, the claims of the opened values are the true ones.
pub(crate) proof fn lemma_true_groups<F: MerkleField, EF: TwoAdicExtension<F>>(
    pcs: BaseFoldPcs<F>,
    q: Request<F, EF>,
)
    requires
        pcs.can_open(q),
        q.matches(),
        q.is_true(),
    ensures
        prover::true_groups(q.groups(), q.tables(), q.point) == q.groups(),
{
    opening::lemma_request(pcs, q);
    let n = q.num_vars();
    let sizes = q.sizes();
    let alpha = q.transcript.next_ext::<EF>();
    let gs = q.groups();
    groups::lemma_groups_wf(sizes, q.values, alpha, 0, n + 1);
    challenger::lemma_sampled_ext_wf::<F, EF>(q.transcript);
    groups::lemma_groups_heights(sizes, q.values, alpha, 0, n + 1);
    lemma_claims(sizes, q.values, alpha, 0, n + 1);
    let known = prover::true_groups(gs, q.tables(), q.point);
    assert forall|g: int| 0 <= g < gs.len() implies known[g] == gs[g] by {
        let h = gs[g].log_height;
        let front = q.point.take(h as int);
        let weights = eqpoly::eq_table(front);
        honest::lemma_eq_table_valid(front);
        let entries = gs[g].entries;
        assert(prover::entries_of_height(entries, q.matrices, pow2(h)));
        assert forall|i: int| 0 <= i < entries.len() implies q.values[(#[trigger] entries[i]).batch as int][entries[i].matrix as int].len()
            == entries[i].coeffs.len() by {
            assert(groups::entry_wf(sizes, q.values, gs[g].entries[i]));
        }
        assert forall|i: int, c: int|
            0 <= i < entries.len() && 0 <= c < entries[i].coeffs.len()
                implies #[trigger] q.values[entries[i].batch as int][entries[i].matrix as int][c]
            == math::dot(
            mixed_column::<F, EF>(
                q.matrices[entries[i].batch as int][entries[i].matrix as int],
                entries[i].coeffs.len(),
                c,
            ),
            weights,
        ) by {
            let e = gs[g].entries[i];
            assert(groups::entry_wf(sizes, q.values, e));
            assert(groups::has_height(sizes, (e.batch, e.matrix), h));
            let b = e.batch as int;
            let m = e.matrix as int;
            assert(sizes[b][m] == q.matrices[b][m].height());
            assert(values_true(q.matrices[b][m], q.values[b][m], q.point));
            assert(q.values[b][m][c] == math::dot(
                mixed_column::<F, EF>(q.matrices[b][m], q.values[b][m].len(), c),
                weights,
            ));
        }
        law_claim_of_true_values(entries, q.matrices, q.values, weights, pow2(h));
    }
    assert(known =~= gs);
}

/// The rows of the codewords that a query falls into.
pub open spec fn rows_of_query<F: MerkleField, EF: TwoAdicExtension<F>>(
    q: Request<F, EF>,
    rows: Seq<Seq<Seq<F>>>,
    query: nat,
) -> bool {
    &&& rows.len() == q.trees.len()
    &&& forall|b: int, m: int|
        0 <= b < rows.len() && 0 <= m < q.matrices[b].len() ==> #[trigger] rows[b][m]
            == F::tree_matrices(q.trees[b])[m].row(
            query / pow2((q.num_vars() - bits::log2(q.matrices[b][m].height())) as nat),
        )
}

/// The linear combinations of the opened rows are entries of the codewords of the tables.
pub(crate) proof fn lemma_has_sums<F: MerkleField, EF: TwoAdicExtension<F>>(
    pcs: BaseFoldPcs<F>,
    q: Request<F, EF>,
    run: Run<F, EF>,
    rows: Seq<Seq<Seq<F>>>,
    query: nat,
)
    requires
        pcs.can_open(q),
        q.matches(),
        run.plan.num_vars == q.num_vars(),
        run.plan.groups == q.groups(),
        run.tables == q.tables(),
        run.log_blowup == pcs.fri.log_blowup,
        rows_of_query(q, rows, query),
        query < pow2(q.num_vars() + pcs.fri.log_blowup as nat),
    ensures
        run.has_sums(batch::leaf_sums(q.groups(), rows, pcs.fri.log_blowup as nat), query),
{
    opening::lemma_request(pcs, q);
    let n = q.num_vars();
    let lb = pcs.fri.log_blowup as nat;
    let gs = q.groups();
    let sums = batch::leaf_sums(gs, rows, lb);
    let codes = input_openings::all_codes::<F>(q.trees);
    let sizes = q.sizes();
    let alpha = q.transcript.next_ext::<EF>();
    challenger::lemma_sampled_ext_wf::<F, EF>(q.transcript);
    groups::lemma_groups_heights(sizes, q.values, alpha, 0, n + 1);
    groups::lemma_groups_wf(sizes, q.values, alpha, 0, n + 1);
    assert forall|g: int| 0 <= g < sums.len() implies (#[trigger] sums[g]).0
        == gs[g].log_height + lb && sums[g].1 == encode::encoded(run.tables[g], lb)[(query / pow2(
        (n - gs[g].log_height) as nat,
    )) as int] by {
        let h = gs[g].log_height;
        let j = query / pow2((n - h) as nat);
        query::lemma_shifted(query, n + lb, (n - h) as nat);
        lemma_pow2_adds(h, lb);
        bits::lemma_log2_pow2(h);
        lemma_pow2_pos(h);
        let entries = gs[g].entries;
        assert(prover::entries_of_height(entries, q.matrices, pow2(h)));
        assert forall|i: int| 0 <= i < entries.len() implies linear::is_code_of(
            codes[(#[trigger] entries[i]).batch as int][entries[i].matrix as int],
            q.matrices[entries[i].batch as int][entries[i].matrix as int],
            lb,
        ) && rows[entries[i].batch as int][entries[i].matrix as int]
            == codes[entries[i].batch as int][entries[i].matrix as int].row(j) by {
            let e = gs[g].entries[i];
            let b = e.batch as int;
            let m = e.matrix as int;
            assert(groups::entry_wf(sizes, q.values, gs[g].entries[i]));
            assert(groups::has_height(sizes, (e.batch, e.matrix), h));
            assert(pcs.batch_committed(q.matrices[b], q.trees[b], n));
            assert(sizes[b][m] == q.matrices[b][m].height());
            assert(linear::is_code_of(F::tree_matrices(q.trees[b])[m], q.matrices[b][m], lb));
            assert(rows[b][m] == F::tree_matrices(q.trees[b])[m].row(j));
        }
        linear::law_combination_encodes(entries, q.matrices, codes, rows, pow2(h), lb, j);
    }
}

/// Rows of the widths of the matrices fit the groups of a request.
pub(crate) proof fn lemma_groups_have_rows<F: MerkleField, EF: TwoAdicExtension<F>>(
    q: Request<F, EF>,
    rows: Seq<Seq<Seq<F>>>,
)
    requires
        groups::values_shape(q.values, q.sizes()),
        rows.len() >= q.sizes().len(),
        forall|b: int| 0 <= b < q.sizes().len() ==> (#[trigger] rows[b]).len()
            >= q.sizes()[b].len(),
        verdict::widths_fit(EF::degree(), rows, q.values),
    ensures
        batch::rows_fit(q.groups(), rows),
{
    verification::lemma_rows_fit::<F, EF>(
        q.sizes(),
        q.values,
        q.transcript.next_ext::<EF>(),
        q.num_vars() + 1,
        rows,
    );
}

/// The openings of the committed matrices, query by query, are accepted and hold the rows.
pub(crate) proof fn lemma_leaves<F: MerkleField, EF: TwoAdicExtension<F>>(
    pcs: BaseFoldPcs<F>,
    q: Request<F, EF>,
    leaves: Seq<crate::basefold::openings::BatchOpening<F>>,
    query: nat,
)
    requires
        pcs.can_open(q),
        q.matches(),
        pcs.leaves_opened(q.sizes(), q.trees, q.num_vars(), query, leaves),
        query < pow2(q.num_vars() + pcs.fri.log_blowup as nat),
    ensures
        rows_of_query(q, batch::opening_rows(leaves), query),
        batch::leaves_accepted(
            pcs.rounds(),
            pcs.fri.log_blowup as nat,
            q.num_vars(),
            pcs.roots_of(q.trees),
            q.sizes(),
            leaves,
            query,
        ),
        batch::openings_canonical(leaves),
        batch::rows_fit(q.groups(), batch::opening_rows(leaves)),
{
    opening::lemma_request(pcs, q);
    let rows = batch::opening_rows(leaves);
    let n = q.num_vars();
    assert forall|b: int| 0 <= b < q.trees.len() implies pcs.leaf_opened(
        q.sizes()[b],
        q.trees[b],
        n,
        query,
        #[trigger] leaves[b],
    ) && rows[b] == mmcs::opened_rows(
        F::tree_matrices(q.trees[b]),
        input_openings::leaf_index(q.sizes()[b], n, query),
    ) && leaves[b].opened_values@.len() == q.matrices[b].len() by {
        assert(pcs.batch_committed(q.matrices[b], q.trees[b], n));
        input_openings::lemma_batch(pcs, q.matrices[b], q.trees[b], n, query);
        assert(mmcs::rows_of(leaves[b].opened_values@).len() == leaves[b].opened_values@.len());
    }
    assert forall|b: int, m: int|
        0 <= b < rows.len() && 0 <= m < q.matrices[b].len() implies #[trigger] rows[b][m]
        == F::tree_matrices(q.trees[b])[m].row(
        query / pow2((n - bits::log2(q.matrices[b][m].height())) as nat),
    ) && rows[b][m].len() == q.matrices[b][m].width by {
        assert(pcs.leaf_opened(q.sizes()[b], q.trees[b], n, query, leaves[b]));
        assert(pcs.batch_committed(q.matrices[b], q.trees[b], n));
        input_openings::lemma_batch(pcs, q.matrices[b], q.trees[b], n, query);
    }
    assert forall|b: int, m: int|
        0 <= b < rows.len() && b < q.values.len() && 0 <= m < rows[b].len() && m
            < q.values[b].len() implies (#[trigger] rows[b][m]).len() == q.values[b][m].len()
        || rows[b][m].len() == q.values[b][m].len() * EF::degree() by {
        assert(leaves[b].opened_values@.len() == q.matrices[b].len());
        assert(groups::values_fit(
            EF::degree(),
            opening::matrix_widths(q.matrices)[b],
            opening::lens(q.values)[b],
        ));
        assert(opening::matrix_widths(q.matrices)[b][m] == q.matrices[b][m].width);
        assert(opening::lens(q.values)[b][m] == q.values[b][m].len());
    }
    assert forall|i: int|
        0 <= i < q.sizes().len() && i < pcs.roots_of(q.trees).len() && i
            < leaves.len() implies #[trigger] batch::leaf_accepted(
        pcs.rounds(),
        pcs.fri.log_blowup as nat,
        n,
        pcs.roots_of(q.trees)[i],
        q.sizes()[i],
        leaves[i],
        query,
    ) by {
        assert(pcs.leaf_opened(q.sizes()[i], q.trees[i], n, query, leaves[i]));
    }
    assert(verdict::widths_fit(EF::degree(), rows, q.values));
    lemma_groups_have_rows(q, rows);
}

/// The openings of the committed matrices with shared Merkle paths are accepted and hold the rows.
proof fn lemma_shared_leaves<F: MerkleField, EF: TwoAdicExtension<F>>(
    pcs: BaseFoldPcs<F>,
    q: Request<F, EF>,
    opened: crate::basefold::openings::PrunedQueryOpenings<F>,
    queries: Seq<usize>,
)
    requires
        pcs.can_open(q),
        q.matches(),
        pcs.all_leaves_shared(q.sizes(), q.trees, q.num_vars(), queries, opened),
        forall|i: int|
            0 <= i < queries.len() ==> (#[trigger] queries[i]) < pow2(
                q.num_vars() + pcs.fri.log_blowup as nat,
            ),
    ensures
        verdict::inputs_accepted(
            pcs.rounds(),
            pcs.fri.log_blowup as nat,
            pcs.roots_of(q.trees),
            q.sizes(),
            queries.len(),
            opened,
        ),
        forall|i: int|
            0 <= i < queries.len() ==> rows_of_query(
                q,
                #[trigger] verdict::rows_for_query(opened, i),
                queries[i] as nat,
            ),
        verdict::pruned_rows_fit(q.groups(), opened, queries.len()),
{
    opening::lemma_request(pcs, q);
    let n = q.num_vars();
    let lb = pcs.fri.log_blowup as nat;
    assert forall|b: int| 0 <= b < q.trees.len() implies #[trigger] verdict::input_accepted(
        pcs.rounds(),
        lb,
        pcs.roots_of(q.trees),
        q.sizes(),
        queries.len(),
        opened,
        b,
    ) by {
        assert(pcs.leaves_shared(
            q.sizes()[b],
            q.trees[b],
            n,
            queries,
            mmcs::row_sets_of(opened.round_opened_values@[b]@),
            opened.query_to_unique_slot@[b]@,
            opened.round_pruned@[b]@,
        ));
        assert(mmcs::row_sets_of(opened.round_opened_values@[b]@).len()
            == opened.round_opened_values@[b]@.len());
    }
    assert forall|i: int| 0 <= i < queries.len() implies rows_of_query(
        q,
        #[trigger] verdict::rows_for_query(opened, i),
        queries[i] as nat,
    ) by {
        let rows = verdict::rows_for_query(opened, i);
        assert forall|b: int, m: int|
            0 <= b < rows.len() && 0 <= m < q.matrices[b].len() implies #[trigger] rows[b][m]
            == F::tree_matrices(q.trees[b])[m].row(
            queries[i] as nat / pow2((n - bits::log2(q.matrices[b][m].height())) as nat),
        ) by {
            let sets = mmcs::row_sets_of(opened.round_opened_values@[b]@);
            let slots = opened.query_to_unique_slot@[b]@;
            assert(pcs.leaves_shared(
                q.sizes()[b],
                q.trees[b],
                n,
                queries,
                sets,
                slots,
                opened.round_pruned@[b]@,
            ));
            assert(pcs.batch_committed(q.matrices[b], q.trees[b], n));
            input_openings::lemma_batch(pcs, q.matrices[b], q.trees[b], n, queries[i] as nat);
            let indices = input_openings::leaf_indices(q.sizes()[b], n, queries);
            let u = pruned::unique_indices(indices);
            assert(slots[i] < u.len() && u[slots[i] as int] == indices[i]);
            let index = input_openings::leaf_index(q.sizes()[b], n, queries[i] as nat);
            lemma_quotient_small(
                queries[i],
                (n - batch::max_log_height(q.sizes()[b])) as nat,
            );
            assert(indices[i] as nat == index);
            assert(sets[slots[i] as int] == mmcs::opened_rows(
                F::tree_matrices(q.trees[b]),
                index,
            ));
            assert(sets.len() == u.len());
            assert(sets[slots[i] as int] == mmcs::rows_of(
                opened.round_opened_values@[b]@[slots[i] as int]@,
            ));
            assert(rows[b] == sets[slots[i] as int]);
        }
    }
    assert forall|b: int, i: int, m: int|
        0 <= b < opened.round_opened_values@.len() && b < q.values.len() && 0 <= i
            < opened.round_opened_values@[b]@.len() && 0 <= m
            < opened.round_opened_values@[b]@[i]@.len() && m < q.values[b].len() implies (
    #[trigger] opened.round_opened_values@[b]@[i]@[m])@.len() == q.values[b][m].len()
        || opened.round_opened_values@[b]@[i]@[m]@.len() == q.values[b][m].len() * EF::degree() by {
        let sets = mmcs::row_sets_of(opened.round_opened_values@[b]@);
        assert(pcs.leaves_shared(
            q.sizes()[b],
            q.trees[b],
            n,
            queries,
            sets,
            opened.query_to_unique_slot@[b]@,
            opened.round_pruned@[b]@,
        ));
        assert(pcs.batch_committed(q.matrices[b], q.trees[b], n));
        let indices = input_openings::leaf_indices(q.sizes()[b], n, queries);
        let u = pruned::unique_indices(indices);
        pruned::law_unique_indices(indices);
        assert(sets.len() == u.len());
        assert(u.contains(u[i]));
        assert(indices.contains(u[i]));
        let j = indices.index_of(u[i]);
        input_openings::lemma_batch(pcs, q.matrices[b], q.trees[b], n, queries[j] as nat);
        lemma_quotient_small(queries[j], (n - batch::max_log_height(q.sizes()[b])) as nat);
        assert(sets[i] == mmcs::opened_rows(F::tree_matrices(q.trees[b]), u[i] as nat));
        assert(sets[i][m] == opened.round_opened_values@[b]@[i]@[m]@);
        assert(sets[i].len() == opened.round_opened_values@[b]@[i]@.len());
        assert(groups::values_fit(
            EF::degree(),
            opening::matrix_widths(q.matrices)[b],
            opening::lens(q.values)[b],
        ));
        assert(opening::matrix_widths(q.matrices)[b][m] == q.matrices[b][m].width);
        assert(opening::lens(q.values)[b][m] == q.values[b][m].len());
    }
    assert forall|i: int| 0 <= i < queries.len() implies batch::rows_fit(
        q.groups(),
        #[trigger] verdict::rows_for_query(opened, i),
    ) by {
        let rows = verdict::rows_for_query(opened, i);
        assert forall|b: int| 0 <= b < q.sizes().len() implies (#[trigger] rows[b]).len()
            >= q.sizes()[b].len() by {
            let sets = mmcs::row_sets_of(opened.round_opened_values@[b]@);
            let slots = opened.query_to_unique_slot@[b]@;
            assert(pcs.leaves_shared(
                q.sizes()[b],
                q.trees[b],
                n,
                queries,
                sets,
                slots,
                opened.round_pruned@[b]@,
            ));
            assert(pcs.batch_committed(q.matrices[b], q.trees[b], n));
            let u = pruned::unique_indices(input_openings::leaf_indices(q.sizes()[b], n, queries));
            assert(slots[i] < u.len());
            assert(sets.len() == u.len());
            assert(sets[slots[i] as int] == mmcs::opened_rows(
                F::tree_matrices(q.trees[b]),
                u[slots[i] as int] as nat,
            ));
            assert(rows[b] == sets[slots[i] as int]);
        }
        assert forall|b: int, m: int|
            0 <= b < rows.len() && b < q.values.len() && 0 <= m < rows[b].len() && m
                < q.values[b].len() implies (#[trigger] rows[b][m]).len() == q.values[b][m].len()
            || rows[b][m].len() == q.values[b][m].len() * EF::degree() by {
            let slot = opened.query_to_unique_slot@[b]@[i] as int;
            assert(verdict::input_accepted(
                pcs.rounds(),
                lb,
                pcs.roots_of(q.trees),
                q.sizes(),
                queries.len(),
                opened,
                b,
            ));
            assert(rows[b][m] == opened.round_opened_values@[b]@[slot]@[m]@);
        }
        assert(verdict::widths_fit(EF::degree(), rows, q.values));
        lemma_groups_have_rows(q, rows);
    }
}

proof fn lemma_quotient_small(query: usize, i: nat)
    ensures
        (query as nat / pow2(i)) as usize as nat == query as nat / pow2(i),
{
    lemma_pow2_pos(i);
    vstd::arithmetic::div_mod::lemma_div_is_ordered_by_denominator(
        query as int,
        1,
        pow2(i) as int,
    );
    vstd::arithmetic::div_mod::lemma_div_basics(query as int);
}

impl<F: MerkleField> BaseFoldPcs<F> {
    /// The roots of the trees.
    pub open spec fn roots_of(self, trees: Seq<F::Tree>) -> Seq<Seq<F>> {
        Seq::new(trees.len(), |b: int| F::root(self.rounds(), F::tree_matrices(trees[b])))
    }
}

/// The schedule of the scheme covers the rounds, and merges nothing within a group.
proof fn lemma_schedule<F: MerkleField, EF: TwoAdicExtension<F>>(
    pcs: BaseFoldPcs<F>,
    q: Request<F, EF>,
    run: Run<F, EF>,
)
    requires
        pcs.can_open(q),
        q.matches(),
        run.plan.num_vars == q.num_vars(),
        run.plan.groups == q.groups(),
        run.plan.k == pcs.stop(q.heights()),
        run.plan.schedule == pcs.made_schedule(q.heights(), q.num_vars()),
        pcs.use_cross_round,
    ensures
        honest_queries::schedule_of_run(run, run.plan.schedule),
{
    opening::lemma_request(pcs, q);
    let n = q.num_vars();
    let k = run.plan.k;
    let s = run.plan.schedule;
    let heights = Seq::new(q.heights().len(), |i: int| q.heights()[i] as usize);
    rounds::lemma_tiles(s, n, k);
    schedule::law_schedule_respects_boundaries(
        heights,
        n,
        k,
        schedule::max_log_folding_of(pcs.max_fold_override) as nat,
    );
    assert forall|g: int, j: nat, m: int|
        0 <= g < s.len() && 0 < j < s[g].log_folding && 0 <= m < run.plan.groups.len() implies (
    #[trigger] run.plan.groups[m]).log_height != n - (query::rounds_before(s, g as nat)
        + #[trigger] honest_queries::id(g, j)) by {
        prove_rounds::lemma_starts(s, n, k, g as nat);
        assert(schedule::no_boundary_inside(heights, s[g]));
        assert(q.groups()[m].log_height == q.heights()[m]);
        assert(heights[m] == q.heights()[m]);
    }
}

/// The queries of an opening are accepted.
proof fn lemma_queries_accepted<F: MerkleField, EF: TwoAdicExtension<F>>(
    pcs: BaseFoldPcs<F>,
    q: Request<F, EF>,
    run: Run<F, EF>,
    queries: Seq<usize>,
    p: BasefoldProof<F, EF>,
)
    requires
        pcs.can_open(q),
        q.matches(),
        run.wf(),
        pcs.run_made(run),
        run.plan.num_vars == q.num_vars(),
        run.plan.groups == q.groups(),
        run.tables == q.tables(),
        run.plan.k == pcs.stop(q.heights()),
        run.plan.schedule == pcs.made_schedule(q.heights(), q.num_vars()),
        run.log_blowup == pcs.fri.log_blowup,
        q.num_vars() > 0,
        queries.len() == pcs.fri.num_queries,
        pcs.use_cross_round ==> queries.len() > 0,
        honest_pruned::in_word(run, queries),
        pcs.answers_made(q, run, queries, p),
    ensures
        pcs.queries_verdict(
            run.iopp(pcs.rounds()),
            pcs.roots_of(q.trees),
            q.sizes(),
            q.groups(),
            run.plan.k,
            run.plan.schedule,
            p,
            queries,
        ) == Ok::<(), BaseFoldError>(()),
{
    opening::lemma_request(pcs, q);
    honest_queries::lemma_run(run, run.num_vars());
    let c = run.iopp(pcs.rounds());
    let n = q.num_vars();
    let lb = pcs.fri.log_blowup as nat;
    let k = run.plan.k;
    let s = run.plan.schedule;
    let roots = pcs.roots_of(q.trees);
    let gs = q.groups();
    assert(gs[gs.len() - 1].log_height == q.heights()[gs.len() - 1]);
    assert(run.checked_by(c));
    assert(c.num_vars() == n);
    if pcs.use_cross_round {
        lemma_schedule(pcs, q, run);
    } else {
        assert(s == schedule::per_round_schedule(n, k));
        assert(s.len() == n - k);
    }
    assert forall|i: int| 0 <= i < queries.len() implies (#[trigger] queries[i]) < pow2(n + lb) by {}
    assert(pcs.openings_reach(c.oracles.len(), n, k, s.len(), p)) by {
        assert forall|i: int| 0 <= i < p.iopp_queries@.len() implies verdict::enough_openings(
            (#[trigger] p.iopp_queries@[i]).commit_phase_openings@.len(),
            c.oracles.len(),
            n,
            k,
        ) by {
            assert(pcs.query_answered(run, queries[i] as nat, p.iopp_queries@[i]));
        }
    }
    if pcs.use_path_pruning {
        let opened = p.query_openings.pruned->0;
        lemma_shared_leaves(pcs, q, opened, queries);
        let sums = verdict::pruned_sums(gs, opened, queries.len(), lb);
        assert forall|i: int| 0 <= i < queries.len() implies run.has_sums(
            #[trigger] sums[i],
            queries[i] as nat,
        ) by {
            let rows = verdict::rows_for_query(opened, i);
            assert(rows_of_query(q, rows, queries[i] as nat));
            lemma_has_sums(pcs, q, run, rows, queries[i] as nat);
        }
        assert(honest_pruned::all_have_sums(run, sums, queries));
        if pcs.use_cross_round {
            honest_pruned::law_pruned_groups_accepted(
                run,
                c,
                s,
                queries,
                sums,
                p.iopp_cross_round_pruned->0,
            );
        } else {
            honest_pruned::law_pruned_queries_accepted(
                run,
                c,
                queries,
                sums,
                p.iopp_pruned->0,
            );
        }
    } else if pcs.use_cross_round {
        assert forall|i: int| 0 <= i < queries.len() implies (#[trigger] verdict::cross_verdict_at(
            c,
            roots,
            q.sizes(),
            gs,
            s,
            p,
            queries,
            i,
        )) is Ok by {
            let leaves = p.query_openings.per_query@[i]@;
            lemma_leaves(pcs, q, leaves, queries[i] as nat);
            lemma_has_sums(pcs, q, run, batch::opening_rows(leaves), queries[i] as nat);
            assert(pcs.cross_answered(run, queries[i] as nat, p.iopp_cross_round@[i]));
            honest_queries::law_cross_round_query_accepted(
                run,
                c,
                batch::leaf_sums(gs, batch::opening_rows(leaves), lb),
                s,
                p.iopp_cross_round@[i].group_openings@,
                queries[i],
            );
        }
    } else {
        assert forall|i: int| 0 <= i < queries.len() implies (#[trigger] verdict::batch_verdict_at(
            c,
            roots,
            q.sizes(),
            gs,
            p,
            queries,
            i,
        )) is Ok by {
            let leaves = p.query_openings.per_query@[i]@;
            lemma_leaves(pcs, q, leaves, queries[i] as nat);
            lemma_has_sums(pcs, q, run, batch::opening_rows(leaves), queries[i] as nat);
            let steps = p.iopp_queries@[i].commit_phase_openings@;
            assert(pcs.query_answered(run, queries[i] as nat, p.iopp_queries@[i]));
            assert(query::committed(c, steps.len()) <= steps.len());
            honest_queries::law_query_accepted(
                run,
                c,
                batch::leaf_sums(gs, batch::opening_rows(leaves), lb),
                steps,
                queries[i],
            );
        }
    }
}

impl<F: MerkleField, EF: TwoAdicExtension<F>> Request<F, EF> {
    /// The value that the last claim is divided by.
    pub open spec fn eq_sum(self, run: Run<F, EF>) -> EF {
        let low = self.heights().last() as int;
        eqpoly::eq_eval(
            self.point.take(low),
            run.at(self.num_vars()).s.challenges.reverse().take(low),
        )
    }
}

/// Law: an opening of true values is accepted, and leaves the prover and the verifier with the same
/// transcript. Three cases are left out, in which an opening of true values need not be accepted.
/// The claim takes up a matrix of one row after the last round, while a query merges heights only
/// before a round and so misses it. A proof without queries whose rounds share commitments cannot be
/// told from one whose rounds do not, and is refused by `law_shared_rounds_need_queries`. Where the
/// equality polynomial vanishes at the challenges, the last claim cannot be divided by it.
pub proof fn law_opening_accepted<F: MerkleField, EF: TwoAdicExtension<F>>(
    pcs: BaseFoldPcs<F>,
    q: Request<F, EF>,
    p: BasefoldProof<F, EF>,
    end: Transcript<F>,
    dims: Seq<Vec<Dimensions>>,
    values: Seq<Vec<Vec<EF>>>,
)
    requires
        pcs.can_open(q),
        q.matches(),
        q.is_true(),
        pcs.opening_made(q, p, end),
        batch::size_heights(dims) == q.sizes(),
        groups::all_widths(dims) == opening::matrix_widths(q.matrices),
        mmcs::row_sets_of(values) == q.values,
        q.heights().last() >= 1,
        pcs.use_cross_round && !pcs.use_path_pruning ==> pcs.fri.num_queries > 0,
        field::is_unit(q.eq_sum(pcs.run_of(q, p))),
    ensures
        pcs.verify_outcome(pcs.roots_of(q.trees), dims, q.point, values, p, q.transcript) == (
            Ok::<(), BaseFoldError>(()),
            end,
        ),
{
    opening::lemma_request(pcs, q);
    lemma_true_groups(pcs, q);
    let n = q.num_vars();
    let lb = pcs.fri.log_blowup as nat;
    let run = pcs.run_of(q, p);
    let plan = run.plan;
    let k = plan.k;
    let heights = q.heights();
    let gs = q.groups();
    let t1 = q.transcript.sampled_ext::<EF>();
    challenger::lemma_sampled_ext_wf::<F, EF>(q.transcript);
    let w = p.grinding_batching_witness@;
    let t2 = t1.observed(w[0]);
    let t3 = t2.checked_witness(w[1]);
    challenger::lemma_observed_wf(t1, w[0]);
    challenger::lemma_observed_wf(t2, w[1]);
    challenger::lemma_sampled_wf(t2.observed(w[1]));
    assert(run.transcript == t3);
    opening::lemma_sound(pcs, q, run);
    assert(gs[gs.len() - 1].log_height == heights[gs.len() - 1]);
    assert(run.wf());
    assert(groups::value_lens(values) =~= opening::lens(q.values)) by {
        assert forall|b: int| 0 <= b < values.len() implies groups::value_lens(values)[b]
            == opening::lens(q.values)[b] by {
            assert(q.values[b] == mmcs::rows_of(values[b]@));
            assert(groups::value_lens(values)[b] =~= opening::lens(q.values)[b]);
        }
        assert(q.values.len() == values.len());
    }
    let queried = pcs.after_rounds(run).observed(p.grinding_query_witness@[0]).checked_witness(
        p.grinding_query_witness@[1],
    );
    let queries = queried.next_bits_n(n + lb, pcs.fri.num_queries as nat);
    lemma_in_word(run, queried, pcs.fri.num_queries as nat);
    lemma_queries_accepted(pcs, q, run, queries, p);
    lemma_modes(pcs, q, run, queries, p);
    let s = rounds::announced(plan, run.at(n).s, 0);
    lemma_rounds_accepted(pcs, q, run);
    lemma_finish_accepted(pcs, q, run, p, end);
    assert(pcs.plan_of(n, heights, gs, p) == plan);
    assert(pcs.rounds_outcome(pcs.roots_of(q.trees), q.sizes(), q.point, gs, p, t3) == (
        Ok::<(), BaseFoldError>(()),
        end,
    ));
}

/// Law: a verifier whose rounds share commitments refuses a proof that opens no query that way, and
/// leaves the transcript as it was.
pub proof fn law_shared_rounds_need_queries<F: MerkleField, EF: TwoAdicExtension<F>>(
    pcs: BaseFoldPcs<F>,
    roots: Seq<Seq<F>>,
    dims: Seq<Vec<Dimensions>>,
    point: Seq<EF>,
    values: Seq<Vec<Vec<EF>>>,
    p: BasefoldProof<F, EF>,
    t: Transcript<F>,
)
    requires
        pcs.use_cross_round,
        p.iopp_cross_round@.len() == 0,
        p.iopp_cross_round_pruned is None,
    ensures
        pcs.verify_outcome(roots, dims, point, values, p, t) == (
            Err::<(), BaseFoldError>(BaseFoldError::InvalidInputError),
            t,
        ),
{
}

/// The parts of the proof that are there are those that the verifier expects.
proof fn lemma_modes<F: MerkleField, EF: TwoAdicExtension<F>>(
    pcs: BaseFoldPcs<F>,
    q: Request<F, EF>,
    run: Run<F, EF>,
    queries: Seq<usize>,
    p: BasefoldProof<F, EF>,
)
    requires
        pcs.answers_made(q, run, queries, p),
        pcs.use_cross_round || pcs.use_path_pruning ==> queries.len() > 0,
        run.plan.schedule == pcs.made_schedule(q.heights(), q.num_vars()),
    ensures
        pcs.modes_match(p),
        pcs.schedule_of(q.heights(), q.num_vars(), p) == run.plan.schedule,
        pcs.group_lens_match(run.plan.schedule.len(), p),
{
    assert forall|i: int| 0 <= i < p.iopp_cross_round@.len() implies (
    #[trigger] p.iopp_cross_round@[i]).group_openings@.len() == run.plan.schedule.len() by {
        assert(pcs.cross_answered(run, queries[i] as nat, p.iopp_cross_round@[i]));
    }
}

/// The rounds of an opening of true values check out.
proof fn lemma_rounds_accepted<F: MerkleField, EF: TwoAdicExtension<F>>(
    pcs: BaseFoldPcs<F>,
    q: Request<F, EF>,
    run: Run<F, EF>,
)
    requires
        run.sound(),
        pcs.run_made(run),
        run.plan.groups == q.groups(),
        prover::true_groups(q.groups(), q.tables(), q.point) == q.groups(),
        run.tables == q.tables(),
        run.point == q.point,
        run.plan.k <= run.num_vars(),
        q.heights().len() == q.groups().len(),
        q.heights().last() == q.groups().last().log_height,
        field::is_unit(q.eq_sum(run)),
        run.num_vars() == q.num_vars(),
    ensures
        rounds::rounds_from(
            run.plan,
            rounds::first_state(run.plan, run.transcript),
            run.num_vars(),
        ) == (rounds::announced(run.plan, run.at(run.num_vars()).s, 0), None::<BaseFoldError>),
        field::quotient(run.at(run.num_vars()).s.claim, q.eq_sum(run)) == run.at(
            run.num_vars(),
        ).f[0],
        q.eq_sum(run) != EF::zero_elem(),
        run.plan.k > 0 ==> run.plan.final_poly.len() == pow2(run.plan.k),
        run.at(run.num_vars()).s.challenges.len() == run.num_vars(),
{
    let plan = run.plan;
    let gs = q.groups();
    honest_queries::lemma_run(run, (run.num_vars() - plan.k) as nat);
    honest_queries::lemma_run(run, run.num_vars());
    assert(honest::claims_true(plan, run.tables, run.point)) by {
        assert forall|g: int| 0 <= g < plan.groups.len() implies (
        #[trigger] plan.groups[g]).claim == math::dot(
            run.tables[g],
            eqpoly::eq_table(run.point.take(plan.groups[g].log_height as int)),
        ) by {
            assert(plan.groups[g] == prover::true_groups(gs, q.tables(), q.point)[g]);
        }
    }
    honest::law_rounds_check(plan, run.tables, run.point, run.transcript, 0);
    honest::law_last_claim(plan, run.tables, run.point, run.transcript);
    algebra::lemma_unit(q.eq_sum(run));
}

/// What follows the rounds is accepted where the queries are.
proof fn lemma_finish_accepted<F: MerkleField, EF: TwoAdicExtension<F>>(
    pcs: BaseFoldPcs<F>,
    q: Request<F, EF>,
    run: Run<F, EF>,
    p: BasefoldProof<F, EF>,
    end: Transcript<F>,
)
    requires
        run.sound(),
        run == pcs.run_of(q, p),
        pcs.opening_made(q, p, end),
        run.plan.groups == q.groups(),
        run.num_vars() == q.num_vars(),
        run.plan.k <= run.num_vars(),
        field::quotient(run.at(run.num_vars()).s.claim, q.eq_sum(run)) == run.at(
            run.num_vars(),
        ).f[0],
        q.eq_sum(run) != EF::zero_elem(),
        run.at(run.num_vars()).s.challenges.len() == run.num_vars(),
        pcs.schedule_of(q.heights(), q.num_vars(), p) == run.plan.schedule,
        pcs.queries_verdict(
            run.iopp(pcs.rounds()),
            pcs.roots_of(q.trees),
            q.sizes(),
            q.groups(),
            run.plan.k,
            run.plan.schedule,
            p,
            pcs.after_rounds(run).observed(p.grinding_query_witness@[0]).checked_witness(
                p.grinding_query_witness@[1],
            ).next_bits_n(
                q.num_vars() + pcs.fri.log_blowup as nat,
                pcs.fri.num_queries as nat,
            ),
        ) == Ok::<(), BaseFoldError>(()),
    ensures
        pcs.finish_outcome(
            pcs.roots_of(q.trees),
            q.sizes(),
            q.point,
            q.groups(),
            q.heights(),
            p,
            rounds::announced(run.plan, run.at(run.num_vars()).s, 0),
        ) == (Ok::<(), BaseFoldError>(()), end),
{
    if run.plan.k == 0 {
        lemma_last_root(pcs, run);
    }
}

/// The last codeword is constant.
proof fn lemma_last_root<F: MerkleField, EF: TwoAdicExtension<F>>(
    pcs: BaseFoldPcs<F>,
    run: Run<F, EF>,
)
    requires
        run.sound(),
        pcs.run_made(run),
        run.plan.k == 0,
        run.log_blowup == pcs.fri.log_blowup,
    ensures
        run.plan.oracles.len() > 0,
        run.plan.oracles.last() == F::root(
            pcs.rounds(),
            seq![
                verdict::constant_matrix::<F, EF>(
                    run.at(run.num_vars()).f[0],
                    pcs.fri.log_blowup as nat,
                ),
            ],
        ),
{
    let n = run.num_vars();
    let lb = run.log_blowup;
    let p = run.plan;
    honest_queries::lemma_run(run, n);
    lemma2_to64();
    let f = run.at(n).f;
    let v = f[0];
    assert(v.valid());
    assert(f =~= linear::constant(v, 1));
    bits::lemma_log2_pow2(0);
    linear::law_constant_encoding(v, 1, lb);
    let j = p.oracles.len() - 1;
    assert(p.oracles[j] == pcs.word_root(
        run.word(prove_rounds::round_at(p.schedule, n, j as nat)),
        prove_rounds::width_at(p.schedule, j as nat),
    ));
    assert(linear::constant(v, pow2(lb)) =~= Seq::new(pow2(lb), |i: int| v));
}

/// The sampled queries lie in the codeword.
proof fn lemma_in_word<F: MerkleField, EF: TwoAdicExtension<F>>(
    run: Run<F, EF>,
    t: Transcript<F>,
    n: nat,
)
    requires
        run.num_vars() + run.log_blowup < usize::BITS,
    ensures
        honest_pruned::in_word(run, t.next_bits_n(run.num_vars() + run.log_blowup, n)),
{
    let bits = run.num_vars() + run.log_blowup;
    let queries = t.next_bits_n(bits, n);
    vstd::bits::lemma_usize_pow2_no_overflow(bits);
    lemma_pow2_pos(bits);
    assert forall|i: int| 0 <= i < queries.len() implies (#[trigger] queries[i]) < pow2(bits) by {
        let x = t.sampled_n(i as nat).next().to_int();
        let m = pow2(bits) as int;
        assert(0 <= x % m && x % m < m);
    }
}

/// An opening is one that the verifier takes: its numbers are canonical, and where the folding stops
/// early the last polynomial can be encoded.
pub proof fn law_opening_fits<F: MerkleField, EF: TwoAdicExtension<F>>(
    pcs: BaseFoldPcs<F>,
    q: Request<F, EF>,
    p: BasefoldProof<F, EF>,
    end: Transcript<F>,
)
    requires
        pcs.can_open(q),
        q.matches(),
        pcs.opening_made(q, p, end),
    ensures
        mmcs::are_digests(pcs.roots_of(q.trees)),
        batch::sizes_wf(q.sizes(), q.num_vars()),
        pcs.proof_canonical(p),
        pcs.stop_fits::<EF>(q.sizes(), q.num_vars()),
{
    opening::lemma_request(pcs, q);
    let n = q.num_vars();
    let lb = pcs.fri.log_blowup as nat;
    let run = pcs.run_of(q, p);
    let plan = run.plan;
    let k = plan.k;
    let t1 = q.transcript.sampled_ext::<EF>();
    challenger::lemma_sampled_ext_wf::<F, EF>(q.transcript);
    let w = p.grinding_batching_witness@;
    challenger::lemma_observed_wf(t1, w[0]);
    challenger::lemma_observed_wf(t1.observed(w[0]), w[1]);
    challenger::lemma_sampled_wf(t1.observed(w[0]).observed(w[1]));
    opening::lemma_sound(pcs, q, run);
    let queried = pcs.after_rounds(run).observed(p.grinding_query_witness@[0]).checked_witness(
        p.grinding_query_witness@[1],
    );
    let queries = queried.next_bits_n(n + lb, pcs.fri.num_queries as nat);
    lemma_in_word(run, queried, pcs.fri.num_queries as nat);
    assert forall|b: int| 0 <= b < pcs.roots_of(q.trees).len() implies mmcs::is_digest(
        #[trigger] pcs.roots_of(q.trees)[b],
    ) by {
        F::law_root(pcs.rounds(), F::tree_matrices(q.trees[b]));
    }
    assert forall|i: int| 0 <= i < p.query_openings.per_query@.len() implies
        batch::openings_canonical((#[trigger] p.query_openings.per_query@[i])@) by {
        assert(queries[i] < pow2(n + lb));
        lemma_leaves(pcs, q, p.query_openings.per_query@[i]@, queries[i] as nat);
    }
    lemma_canonical(pcs, q, run, queries, p);
}

/// The numbers in an opening are canonical.
proof fn lemma_canonical<F: MerkleField, EF: TwoAdicExtension<F>>(
    pcs: BaseFoldPcs<F>,
    q: Request<F, EF>,
    run: Run<F, EF>,
    queries: Seq<usize>,
    p: BasefoldProof<F, EF>,
)
    requires
        pcs.answers_made(q, run, queries, p),
        pcs.run_made(run),
        run == pcs.run_of(q, p),
        run.sound(),
        p.grinding_batching_witness@.len() == 2,
        p.grinding_query_witness@.len() == 2,
        p.grinding_batching_witness@[0].valid() && p.grinding_batching_witness@[1].valid(),
        p.grinding_query_witness@[0].valid() && p.grinding_query_witness@[1].valid(),
        q.sizes().len() == q.trees.len(),
        forall|i: int|
            0 <= i < p.query_openings.per_query@.len() ==> batch::openings_canonical(
                (#[trigger] p.query_openings.per_query@[i])@,
            ),
        p.out_of_domain_responses is None,
    ensures
        pcs.proof_canonical(p),
{
    let n = run.num_vars();
    let polys = rounds::poly_coeffs(p.sumcheck_transcript.uni_polys@);
    assert forall|i: int| 0 <= i < polys.len() implies (#[trigger] polys[i]).len() > 0
        && field::all_valid(polys[i]) by {
        assert(honest::poly_proved(run.plan, run.tables, run.point, run.transcript, i as nat));
    }
    assert forall|i: int| 0 <= i < p.iopp_queries@.len() implies query::steps_wf(
        (#[trigger] p.iopp_queries@[i]).commit_phase_openings@,
    ) by {
        assert(pcs.query_answered(run, queries[i] as nat, p.iopp_queries@[i]));
    }
    assert forall|i: int| 0 <= i < p.iopp_cross_round@.len() implies query::group_steps_wf(
        (#[trigger] p.iopp_cross_round@[i]).group_openings@,
    ) by {
        assert(pcs.cross_answered(run, queries[i] as nat, p.iopp_cross_round@[i]));
    }
    if p.query_openings.pruned is Some {
        let x = p.query_openings.pruned->0;
        assert forall|b: int| 0 <= b < x.round_pruned@.len() implies mmcs::are_digests(
            (#[trigger] x.round_pruned@[b])@.siblings,
        ) && mmcs::row_sets_valid(mmcs::row_sets_of(x.round_opened_values@[b]@)) by {
            assert(pcs.leaves_shared(
                q.sizes()[b],
                q.trees[b],
                q.num_vars(),
                queries,
                mmcs::row_sets_of(x.round_opened_values@[b]@),
                x.query_to_unique_slot@[b]@,
                x.round_pruned@[b]@,
            ));
        }
        assert forall|b: int| 0 <= b < x.round_opened_values@.len() implies mmcs::row_sets_valid(
            mmcs::row_sets_of((#[trigger] x.round_opened_values@[b])@),
        ) by {
            assert(mmcs::are_digests(x.round_pruned@[b]@.siblings));
        }
    }
}

} // verus!
