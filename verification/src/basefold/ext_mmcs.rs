//! Commitments to matrices over an extension field: each element is replaced by its coordinates.
use vstd::prelude::*;
use vstd::arithmetic::power2::*;
use crate::basefold::mmcs;
use crate::basefold::pruned;
use crate::basefold::mmcs::{Dimensions, MatrixModel, MerkleField, PrunedProof, PrunedModel};
use crate::basefold::poseidon::Rounds;
use crate::bits;
use crate::field;
use crate::field::{ExtensionField, Field};

verus! {

/// The coordinates of the elements, one after the other.
pub open spec fn flattened<F: Field, EF: ExtensionField<F>>(row: Seq<EF>) -> Seq<F> {
    Seq::new(
        row.len() * EF::degree(),
        |i: int| row[i / EF::degree() as int].base_coeffs()[i % EF::degree() as int],
    )
}

/// Each row of coordinates by itself, as the opened rows of one matrix.
pub open spec fn flattened_sets<F: Field, EF: ExtensionField<F>>(rows: Seq<Seq<EF>>) -> Seq<
    Seq<Seq<F>>,
> {
    Seq::new(rows.len(), |i: int| seq![flattened::<F, EF>(rows[i])])
}

/// Coordinates of canonical elements are canonical.
pub proof fn lemma_flattened_valid<F: Field, EF: ExtensionField<F>>(row: Seq<EF>)
    requires
        field::all_valid(row),
    ensures
        field::all_valid(flattened::<F, EF>(row)),
{
    let d = EF::degree() as int;
    let flat = flattened::<F, EF>(row);
    assert forall|i: int| 0 <= i < flat.len() implies (#[trigger] flat[i]).valid() by {
        EF::law_coeffs(EF::zero_elem(), Seq::empty());
        lemma_position_split(i, d, row.len() as int);
        let e = row[i / d];
        assert(e.valid());
        F::law_constants();
        EF::law_embed(e, e, F::one_elem(), F::one_elem());
        EF::law_coeffs(e, Seq::empty());
    }
}

/// A position among the coordinates belongs to one element.
pub proof fn lemma_position_split(i: int, d: int, n: int)
    requires
        d > 0,
        0 <= i < n * d,
    ensures
        0 <= i / d < n,
        0 <= i % d < d,
        i == (i / d) * d + i % d,
{
    vstd::arithmetic::div_mod::lemma_fundamental_div_mod(i, d);
    vstd::arithmetic::div_mod::lemma_mod_bound(i, d);
    vstd::arithmetic::mul::lemma_mul_is_commutative(d, i / d);
    vstd::arithmetic::div_mod::lemma_div_pos_is_pos(i, d);
    assert(i / d < n) by (nonlinear_arith)
        requires
            i == (i / d) * d + i % d,
            i % d >= 0,
            i < n * d,
            d > 0,
    ;
}

/// The coordinates of the elements, one after the other.
pub fn flatten<F: Field, EF: ExtensionField<F>>(row: &Vec<EF>) -> (r: Vec<F>)
    requires
        row@.len() * EF::degree() <= usize::MAX,
    ensures
        r@ == flattened::<F, EF>(row@),
{
    let d: usize = EF::extension_degree();
    let mut r: Vec<F> = Vec::new();
    let mut i: usize = 0;
    while i < row.len()
        invariant
            i <= row@.len(),
            d as nat == EF::degree(),
            r@ == flattened::<F, EF>(row@.take(i as int)),
        decreases row@.len() - i,
    {
        let coeffs: Vec<F> = row[i].as_base_slice();
        let ghost before = r@;
        let mut k: usize = 0;
        proof {
            EF::law_coeffs(row@[i as int], Seq::empty());
        }
        while k < d
            invariant
                k <= d,
                coeffs@.len() == d,
                r@ == before + coeffs@.take(k as int),
            decreases d - k,
        {
            r.push(coeffs[k]);
            k += 1;
            proof {
                assert(r@ =~= before + coeffs@.take(k as int));
            }
        }
        proof {
            let next = flattened::<F, EF>(row@.take(i + 1));
            assert((i + 1) * d == i * d + d) by (nonlinear_arith);
            assert(coeffs@.take(d as int) =~= coeffs@);
            assert forall|j: int| 0 <= j < next.len() implies r@[j] == next[j] by {
                lemma_position_split(j, d as int, i + 1);
                if j < i * d {
                    lemma_position_split(j, d as int, i as int);
                } else {
                    vstd::arithmetic::div_mod::lemma_fundamental_div_mod_converse(
                        j,
                        d as int,
                        i as int,
                        j - i * d,
                    );
                }
            }
            assert(r@ =~= next);
        }
        i += 1;
    }
    proof {
        assert(row@.take(i as int) =~= row@);
    }
    r
}

/// The elements with the given coordinates.
pub fn unflatten<F: Field, EF: ExtensionField<F>>(flat: &Vec<F>, n: usize) -> (r: Vec<EF>)
    requires
        flat@.len() == n * EF::degree(),
    ensures
        r@.len() == n,
        flattened::<F, EF>(r@) == flat@,
        forall|i: int|
            0 <= i < n ==> #[trigger] r@[i] == EF::from_coeffs(
                flat@.subrange(i * EF::degree(), i * EF::degree() + EF::degree()),
            ),
{
    let d: usize = EF::extension_degree();
    let total: usize = flat.len();
    let mut r: Vec<EF> = Vec::new();
    let mut i: usize = 0;
    while i < n
        invariant
            i <= n,
            d as nat == EF::degree(),
            flat@.len() == n * d,
            total == n * d,
            r@.len() == i,
            forall|j: int|
                0 <= j < i ==> #[trigger] r@[j] == EF::from_coeffs(
                    flat@.subrange(j * d, j * d + d),
                ),
        decreases n - i,
    {
        proof {
            assert((i + 1) * d <= n * d) by (nonlinear_arith)
                requires
                    i + 1 <= n,
            ;
            assert((i + 1) * d == i * d + d) by (nonlinear_arith);
        }
        let start: usize = i * d;
        let s: &[F] = vstd::slice::slice_subrange(flat.as_slice(), start, start + d);
        r.push(EF::from_base_slice(s));
        i += 1;
    }
    proof {
        let back = flattened::<F, EF>(r@);
        assert forall|j: int| 0 <= j < back.len() implies back[j] == flat@[j] by {
            EF::law_coeffs(EF::zero_elem(), Seq::empty());
            lemma_position_split(j, d as int, n as int);
            let i = j / d as int;
            let part = flat@.subrange(i * d, i * d + d);
            assert((i + 1) * d <= n * d) by (nonlinear_arith)
                requires
                    i + 1 <= n,
            ;
            assert((i + 1) * d == i * d + d) by (nonlinear_arith);
            assert(0 <= i * d) by (nonlinear_arith)
                requires
                    0 <= i,
                    0 <= d,
            ;
            EF::law_coeffs(r@[i], part);
        }
        assert(back =~= flat@);
    }
    r
}

/// The opening of one row of a matrix over the extension is accepted.
pub open spec fn accepts_row<F: MerkleField, EF: ExtensionField<F>>(
    rounds: Rounds<F>,
    root: Seq<F>,
    height: nat,
    index: nat,
    row: Seq<EF>,
    proof: Seq<Seq<F>>,
) -> bool {
    F::accepts(rounds, root, seq![height], index, seq![flattened::<F, EF>(row)], proof)
}

/// The opening of several rows of a matrix over the extension is accepted.
pub open spec fn accepts_rows<F: MerkleField, EF: ExtensionField<F>>(
    rounds: Rounds<F>,
    root: Seq<F>,
    height: nat,
    rows: Seq<Seq<EF>>,
    proof: PrunedModel<F>,
) -> bool {
    F::accepts_pruned(rounds, root, seq![height], flattened_sets::<F, EF>(rows), proof)
}

/// Checks the opening of one row of a matrix.
pub fn verify_row<F: MerkleField, EF: ExtensionField<F>>(
    p: &F::Permutation,
    root: &Vec<F>,
    height: usize,
    index: usize,
    row: &Vec<EF>,
    proof: &Vec<Vec<F>>,
) -> (r: bool)
    requires
        mmcs::is_digest(root@),
        height <= pow2((usize::BITS - 1) as nat),
        row@.len() * EF::degree() <= usize::MAX,
        field::all_valid(row@),
        mmcs::are_digests(mmcs::rows_of(proof@)),
    ensures
        r == accepts_row::<F, EF>(
            F::rounds_of(*p),
            root@,
            height as nat,
            index as nat,
            row@,
            mmcs::rows_of(proof@),
        ),
{
    let flat: Vec<F> = flatten(row);
    let opened: Vec<Vec<F>> = vec![flat];
    let dims: Vec<Dimensions> = vec![Dimensions { width: row.len(), height }];
    proof {
        lemma_flattened_valid::<F, EF>(row@);
        assert(mmcs::rows_of(opened@) =~= seq![flattened::<F, EF>(row@)]);
        assert(mmcs::dim_heights(dims@) =~= seq![height as nat]);
    }
    F::verify_batch(p, root, &dims, index, &opened, proof)
}

/// Checks the opening of several rows of a matrix.
pub fn verify_rows<F: MerkleField, EF: ExtensionField<F>>(
    p: &F::Permutation,
    root: &Vec<F>,
    height: usize,
    rows: &Vec<Vec<EF>>,
    proof: &PrunedProof<F>,
) -> (r: bool)
    requires
        mmcs::is_digest(root@),
        height <= pow2((usize::BITS - 1) as nat),
        forall|i: int|
            0 <= i < rows@.len() ==> (#[trigger] rows@[i])@.len() * EF::degree() <= usize::MAX
                && field::all_valid(rows@[i]@),
        mmcs::are_digests(proof@.siblings),
    ensures
        r == accepts_rows::<F, EF>(
            F::rounds_of(*p),
            root@,
            height as nat,
            mmcs::rows_of(rows@),
            proof@,
        ),
{
    let mut opened: Vec<Vec<Vec<F>>> = Vec::new();
    let mut i: usize = 0;
    while i < rows.len()
        invariant
            i <= rows@.len(),
            opened@.len() == i,
            forall|j: int|
                0 <= j < rows@.len() ==> (#[trigger] rows@[j])@.len() * EF::degree() <= usize::MAX
                    && field::all_valid(rows@[j]@),
            forall|j: int|
                0 <= j < i ==> mmcs::rows_of((#[trigger] opened@[j])@) == seq![
                    flattened::<F, EF>(rows@[j]@),
                ],
        decreases rows@.len() - i,
    {
        let flat: Vec<F> = flatten(&rows[i]);
        let set: Vec<Vec<F>> = vec![flat];
        proof {
            assert(mmcs::rows_of(set@) =~= seq![flattened::<F, EF>(rows@[i as int]@)]);
        }
        opened.push(set);
        i += 1;
    }
    let dims: Vec<Dimensions> = vec![Dimensions { width: 0, height }];
    proof {
        assert(mmcs::dim_heights(dims@) =~= seq![height as nat]);
        assert(mmcs::row_sets_of(opened@) =~= flattened_sets::<F, EF>(mmcs::rows_of(rows@)));
        assert forall|j: int| 0 <= j < opened@.len() implies mmcs::rows_valid(
            #[trigger] mmcs::row_sets_of(opened@)[j],
        ) by {
            lemma_flattened_valid::<F, EF>(rows@[j]@);
        }
    }
    F::verify_batch_pruned(p, root, &dims, &opened, proof)
}

/// The matrix of coordinates of a matrix over the extension.
pub open spec fn ext_matrix<F: Field, EF: ExtensionField<F>>(values: Seq<EF>, width: nat) -> MatrixModel<
    F,
> {
    MatrixModel { values: flattened::<F, EF>(values), width: width * EF::degree() }
}

/// The matrix of coordinates has as many rows as the matrix.
pub proof fn lemma_ext_matrix<F: Field, EF: ExtensionField<F>>(
    values: Seq<EF>,
    width: nat,
    height: nat,
)
    requires
        width > 0,
        values.len() == height * width,
        bits::power_of_two(height),
        field::all_valid(values),
    ensures
        ext_matrix::<F, EF>(values, width).height() == height,
        ext_matrix::<F, EF>(values, width).wf(),
{
    EF::law_coeffs(EF::zero_elem(), Seq::empty());
    let d = EF::degree();
    lemma_flattened_valid::<F, EF>(values);
    assert(width * d > 0) by (nonlinear_arith)
        requires
            width > 0,
            d > 0,
    ;
    assert((height * width) * d == height * (width * d)) by (nonlinear_arith);
    vstd::arithmetic::div_mod::lemma_div_multiples_vanish(height as int, (width * d) as int);
    vstd::arithmetic::mul::lemma_mul_is_commutative((width * d) as int, height as int);
}

/// Commits to the rows of a matrix over the extension.
pub(crate) fn commit_matrix<F: MerkleField, EF: ExtensionField<F>>(
    p: &F::Permutation,
    values: &Vec<EF>,
    width: usize,
    Ghost(height): Ghost<nat>,
) -> (r: (Vec<F>, F::Tree))
    requires
        width > 0,
        values@.len() == height * width,
        bits::power_of_two(height),
        height <= pow2((usize::BITS - 1) as nat),
        field::all_valid(values@),
        values@.len() * EF::degree() <= usize::MAX,
    ensures
        r.0@ == F::root(F::rounds_of(*p), seq![ext_matrix::<F, EF>(values@, width as nat)]),
        mmcs::is_digest(r.0@),
        F::tree_rounds(r.1) == F::rounds_of(*p),
        F::tree_matrices(r.1) == seq![ext_matrix::<F, EF>(values@, width as nat)],
{
    let d: usize = EF::extension_degree();
    let flat: Vec<F> = flatten(values);
    proof {
        EF::law_coeffs(EF::zero_elem(), Seq::empty());
        lemma_ext_matrix::<F, EF>(values@, width as nat, height);
        assert(width * d <= values@.len() * d) by (nonlinear_arith)
            requires
                values@.len() == height * width,
                height >= 1,
        ;
    }
    let matrix = crate::basefold::mmcs::Matrix { values: flat, width: width * d };
    let matrices: Vec<crate::basefold::mmcs::Matrix<F>> = vec![matrix];
    proof {
        assert(mmcs::models(matrices@) =~= seq![ext_matrix::<F, EF>(values@, width as nat)]);
        assert(mmcs::heights_of(mmcs::models(matrices@)) =~= seq![height]);
        F::law_root(F::rounds_of(*p), mmcs::models(matrices@));
    }
    F::commit(p, matrices)
}

/// A row of a matrix over the extension, as a row of coordinates.
proof fn lemma_ext_row<F: Field, EF: ExtensionField<F>>(
    values: Seq<EF>,
    width: nat,
    height: nat,
    index: nat,
)
    requires
        width > 0,
        values.len() == height * width,
        index < height,
    ensures
        ext_matrix::<F, EF>(values, width).row(index) == flattened::<F, EF>(
            values.subrange((index * width) as int, (index * width + width) as int),
        ),
        index * width + width <= values.len(),
{
    let d = EF::degree();
    EF::law_coeffs(EF::zero_elem(), Seq::empty());
    assert(index * width + width <= values.len()) by (nonlinear_arith)
        requires
            index < height,
            values.len() == height * width,
            width > 0,
    ;
    assert(index * width >= 0) by (nonlinear_arith)
        requires
            index >= 0,
            width > 0,
    ;
    let part = values.subrange((index * width) as int, (index * width + width) as int);
    let flat = flattened::<F, EF>(values);
    let left = ext_matrix::<F, EF>(values, width).row(index);
    let right = flattened::<F, EF>(part);
    let w = width * d;
    assert(index * w == (index * width) * d) by (nonlinear_arith)
        requires
            w == width * d,
    ;
    assert(index * w + w <= values.len() * d) by (nonlinear_arith)
        requires
            index * w == (index * width) * d,
            w == width * d,
            index * width + width <= values.len(),
            d > 0,
    ;
    assert(left.len() == right.len());
    assert forall|i: int| 0 <= i < left.len() implies left[i] == right[i] by {
        let base = (index * width) as int;
        // (base d + i) / d == base + i / d
        vstd::arithmetic::div_mod::lemma_hoist_over_denominator(i, base, d);
        vstd::arithmetic::div_mod::lemma_mod_multiples_vanish(base, i, d as int);
        assert(base * d + i == d * base + i) by (nonlinear_arith);
        vstd::arithmetic::div_mod::lemma_div_pos_is_pos(i, d as int);
        vstd::arithmetic::div_mod::lemma_fundamental_div_mod(i, d as int);
        vstd::arithmetic::div_mod::lemma_mod_bound(i, d as int);
        assert(i / (d as int) < width) by (nonlinear_arith)
            requires
                i < width * d,
                i == d * (i / d as int) + i % d as int,
                i % d as int >= 0,
                d > 0,
        ;
        assert(left[i] == flat[base * d + i]);
        assert(part[i / d as int] == values[base + i / d as int]);
    }
    assert(left =~= right);
}

/// Elements are determined by their coordinates.
proof fn lemma_flattened_back<F: Field, EF: ExtensionField<F>>(a: Seq<EF>, b: Seq<EF>)
    requires
        a.len() == b.len(),
        forall|i: int|
            0 <= i < b.len() ==> #[trigger] b[i] == EF::from_coeffs(
                flattened::<F, EF>(a).subrange(i * EF::degree(), i * EF::degree() + EF::degree()),
            ),
    ensures
        a == b,
{
    let d = EF::degree();
    assert forall|i: int| 0 <= i < a.len() implies a[i] == b[i] by {
        EF::law_coeffs(a[i], Seq::empty());
        assert(i * d + d <= a.len() * d && 0 <= i * d) by (nonlinear_arith)
            requires
                0 <= i < a.len(),
                d > 0,
        ;
        let part = flattened::<F, EF>(a).subrange(i * d, i * d + d);
        assert forall|c: int| 0 <= c < d implies part[c] == a[i].base_coeffs()[c] by {
            vstd::arithmetic::div_mod::lemma_fundamental_div_mod_converse(
                i * d + c,
                d as int,
                i,
                c,
            );
        }
        assert(part =~= a[i].base_coeffs());
    }
    assert(a =~= b);
}

/// Opens a row of a committed matrix over the extension.
pub(crate) fn open_row<F: MerkleField, EF: ExtensionField<F>>(
    p: &F::Permutation,
    index: usize,
    tree: &F::Tree,
    width: usize,
    Ghost(values): Ghost<Seq<EF>>,
    Ghost(height): Ghost<nat>,
) -> (r: (Vec<EF>, Vec<Vec<F>>))
    requires
        width > 0,
        values.len() == height * width,
        bits::power_of_two(height),
        index < height,
        field::all_valid(values),
        F::tree_rounds(*tree) == F::rounds_of(*p),
        F::tree_matrices(*tree) == seq![ext_matrix::<F, EF>(values, width as nat)],
    ensures
        r.0@ == values.subrange((index * width) as int, (index * width + width) as int),
        accepts_row::<F, EF>(
            F::rounds_of(*p),
            F::root(F::rounds_of(*p), seq![ext_matrix::<F, EF>(values, width as nat)]),
            height,
            index as nat,
            r.0@,
            mmcs::rows_of(r.1@),
        ),
        mmcs::are_digests(mmcs::rows_of(r.1@)),
        mmcs::rows_of(r.1@) == F::path(
            F::rounds_of(*p),
            seq![ext_matrix::<F, EF>(values, width as nat)],
            index as nat,
        ),
{
    let ghost m = ext_matrix::<F, EF>(values, width as nat);
    proof {
        lemma_ext_matrix::<F, EF>(values, width as nat, height);
        lemma_single_height(m);
    }
    let (mut rows, proof) = F::open_batch(p, index, tree);
    proof {
        lemma_ext_row::<F, EF>(values, width as nat, height, index as nat);
        lemma_single_rows(m, index as nat);
        assert(mmcs::rows_of(rows@).len() == 1);
        assert(rows@.len() == mmcs::rows_of(rows@).len());
        assert(mmcs::rows_of(rows@)[0] == rows@[0]@);
    }
    let ghost part = values.subrange((index * width) as int, (index * width + width) as int);
    let flat: Vec<F> = rows.swap_remove(0);
    let row: Vec<EF> = unflatten(&flat, width);
    proof {
        lemma_flattened_back::<F, EF>(part, row@);
        assert(mmcs::heights_of(seq![m]) =~= seq![height]);
        assert(mmcs::opened_rows(seq![m], index as nat) =~= seq![flattened::<F, EF>(row@)]);
    }
    (row, proof)
}

proof fn lemma_single_height<F: Field>(m: MatrixModel<F>)
    ensures
        mmcs::max_height(mmcs::heights_of(seq![m])) == m.height(),
{
    let h = mmcs::heights_of(seq![m]);
    assert(h.len() == 1 && h[0] == m.height());
    assert(h.drop_last().len() == 0);
    reveal_with_fuel(mmcs::max_height, 2);
}

proof fn lemma_single_rows<F: Field>(m: MatrixModel<F>, index: nat)
    ensures
        mmcs::opened_rows(seq![m], index) == seq![m.row(index)],
{
    lemma_single_height(m);
    assert(pow2(0) == 1) by {
        lemma2_to64();
    }
    vstd::arithmetic::div_mod::lemma_div_basics(index as int);
    assert(mmcs::opened_rows(seq![m], index) =~= seq![m.row(index)]);
}

/// Opens several rows of a committed matrix over the extension, each once and in ascending order of
/// their indices.
pub(crate) fn open_rows<F: MerkleField, EF: ExtensionField<F>>(
    p: &F::Permutation,
    indices: &Vec<usize>,
    tree: &F::Tree,
    width: usize,
    Ghost(values): Ghost<Seq<EF>>,
    Ghost(height): Ghost<nat>,
) -> (r: (Vec<Vec<EF>>, PrunedProof<F>))
    requires
        width > 0,
        values.len() == height * width,
        bits::power_of_two(height),
        indices@.len() > 0,
        forall|i: int|
            0 <= i < indices@.len() ==> (#[trigger] indices@[i]) < height && indices@[i]
                < 0x1_0000_0000,
        field::all_valid(values),
        F::tree_rounds(*tree) == F::rounds_of(*p),
        F::tree_matrices(*tree) == seq![ext_matrix::<F, EF>(values, width as nat)],
    ensures
        ({
            let u = pruned::unique_indices(indices@);
            &&& mmcs::rows_of(r.0@) == Seq::new(
                u.len(),
                |k: int|
                    values.subrange((u[k] * width) as int, (u[k] * width + width) as int),
            )
            &&& accepts_rows::<F, EF>(
                F::rounds_of(*p),
                F::root(F::rounds_of(*p), seq![ext_matrix::<F, EF>(values, width as nat)]),
                height,
                mmcs::rows_of(r.0@),
                r.1@,
            )
            &&& mmcs::are_digests(r.1@.siblings)
            &&& mmcs::same_indices(r.1@.sorted_indices, u)
            &&& r.1@ == F::pruned_path(
                F::rounds_of(*p),
                seq![ext_matrix::<F, EF>(values, width as nat)],
                r.1@.sorted_indices,
            )
        }),
{
    let ghost m = ext_matrix::<F, EF>(values, width as nat);
    let ghost u = pruned::unique_indices(indices@);
    proof {
        lemma_ext_matrix::<F, EF>(values, width as nat, height);
        lemma_single_height(m);
    }
    let (sets, proof) = F::open_batch_pruned(p, indices, tree);
    let n: usize = sets.len();
    proof {
        let s = choose|s: Seq<usize>|
            mmcs::sorted_unique(s, indices@) && mmcs::same_indices(proof@.sorted_indices, s);
        pruned::law_unique_indices(indices@);
        pruned::lemma_sorted_unique_same(s, u, indices@);
        assert(n == u.len());
    }
    let mut rows: Vec<Vec<EF>> = Vec::new();
    let mut i: usize = 0;
    while i < n
        invariant
            i <= n,
            n == sets@.len(),
            n == u.len(),
            u == pruned::unique_indices(indices@),
            mmcs::same_indices(proof@.sorted_indices, u),
            width > 0,
            values.len() == height * width,
            m == ext_matrix::<F, EF>(values, width as nat),
            F::tree_matrices(*tree) == seq![m],
            forall|j: int|
                0 <= j < indices@.len() ==> (#[trigger] indices@[j]) < height,
            forall|j: int|
                0 <= j < sets@.len() ==> #[trigger] mmcs::row_sets_of(sets@)[j]
                    == mmcs::opened_rows(seq![m], proof@.sorted_indices[j] as nat),
            rows@.len() == i,
            forall|k: int|
                0 <= k < i ==> (#[trigger] rows@[k])@ == values.subrange(
                    (u[k] * width) as int,
                    (u[k] * width + width) as int,
                ),
            forall|k: int|
                0 <= k < i ==> flattened::<F, EF>((#[trigger] rows@[k])@) == m.row(u[k] as nat),
        decreases n - i,
    {
        let ghost x = u[i as int] as nat;
        proof {
            pruned::law_unique_indices(indices@);
            assert(u.contains(u[i as int]));
            assert(indices@.contains(u[i as int]));
            let q = indices@.index_of(u[i as int]);
            assert(indices@[q] < height);
            assert(proof@.sorted_indices[i as int] as int == u[i as int] as int);
            lemma_ext_row::<F, EF>(values, width as nat, height, x);
            lemma_single_rows(m, x);
            assert(mmcs::row_sets_of(sets@)[i as int] == seq![m.row(x)]);
            assert(mmcs::row_sets_of(sets@)[i as int] == mmcs::rows_of(sets@[i as int]@));
            assert(mmcs::rows_of(sets@[i as int]@).len() == sets@[i as int]@.len());
            assert(mmcs::rows_of(sets@[i as int]@)[0] == sets@[i as int]@[0]@);
        }
        let ghost part = values.subrange((x * width) as int, (x * width + width) as int);
        let row: Vec<EF> = unflatten(&sets[i][0], width);
        proof {
            lemma_flattened_back::<F, EF>(part, row@);
        }
        rows.push(row);
        i += 1;
    }
    proof {
        let expected = Seq::new(
            u.len(),
            |k: int| values.subrange((u[k] * width) as int, (u[k] * width + width) as int),
        );
        assert(mmcs::rows_of(rows@) =~= expected);
        let flat = flattened_sets::<F, EF>(mmcs::rows_of(rows@));
        assert forall|k: int| 0 <= k < n implies mmcs::row_sets_of(sets@)[k] == flat[k] by {
            lemma_single_rows(m, u[k] as nat);
            assert(proof@.sorted_indices[k] as int == u[k] as int);
            assert(flattened::<F, EF>(rows@[k]@) == m.row(u[k] as nat));
        }
        assert(mmcs::row_sets_of(sets@) =~= flat);
        assert(mmcs::heights_of(seq![m]) =~= seq![height]);
    }
    (rows, proof)
}

} // verus!
