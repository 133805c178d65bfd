//! The openings of the committed matrices at the queries.
use vstd::prelude::*;
use vstd::arithmetic::power2::*;
use crate::basefold::answers;
use crate::basefold::answers::find_slots;
use crate::basefold::batch;
use crate::basefold::linear;
use crate::basefold::mmcs;
use crate::basefold::mmcs::{MatrixModel, MerkleField, PrunedProof};
use crate::basefold::openings::{BatchOpening, PrunedQueryOpenings};
use crate::basefold::pcs::BaseFoldPcs;
use crate::basefold::prover;
use crate::basefold::pruned;
use crate::basefold::query;
use crate::basefold::verdict;
use crate::bits;
use crate::field;
use crate::field::Field;

verus! {

/// The heights of the matrices of each batch.
pub open spec fn all_heights<F: Field>(matrices: Seq<Seq<MatrixModel<F>>>) -> Seq<Seq<nat>> {
    Seq::new(matrices.len(), |b: int| mmcs::heights_of(matrices[b]))
}

/// The codewords under each tree.
pub open spec fn all_codes<F: MerkleField>(trees: Seq<F::Tree>) -> Seq<Seq<MatrixModel<F>>> {
    Seq::new(trees.len(), |b: int| F::tree_matrices(trees[b]))
}

/// The row of the tallest matrix of a batch that a query falls into.
pub open spec fn leaf_index(heights: Seq<nat>, num_vars: nat, query: nat) -> nat {
    query / pow2((num_vars - batch::max_log_height(heights)) as nat)
}

/// The rows of all queries in the tallest matrix of a batch.
pub open spec fn leaf_indices(heights: Seq<nat>, num_vars: nat, queries: Seq<usize>) -> Seq<usize> {
    Seq::new(
        queries.len(),
        |q: int| leaf_index(heights, num_vars, queries[q] as nat) as usize,
    )
}

impl<F: MerkleField> BaseFoldPcs<F> {
    /// The matrices of a batch can be encoded, and the tree commits to their codewords.
    pub open spec fn batch_committed(
        self,
        matrices: Seq<MatrixModel<F>>,
        tree: F::Tree,
        num_vars: nat,
    ) -> bool {
        &&& matrices.len() > 0
        &&& forall|m: int|
            0 <= m < matrices.len() ==> prover::encodable(
                #[trigger] matrices[m],
                self.fri.log_blowup as nat,
            ) && bits::log2(matrices[m].height()) <= num_vars
        &&& F::tree_rounds(tree) == self.rounds()
        &&& prover::are_codes_of(F::tree_matrices(tree), matrices, self.fri.log_blowup as nat)
    }

    /// Every batch of matrices has its tree.
    pub open spec fn all_committed(
        self,
        matrices: Seq<Seq<MatrixModel<F>>>,
        trees: Seq<F::Tree>,
        num_vars: nat,
    ) -> bool {
        &&& matrices.len() == trees.len()
        &&& forall|b: int|
            0 <= b < trees.len() ==> self.batch_committed(
                matrices[b],
                #[trigger] trees[b],
                num_vars,
            )
    }

    /// The opening of a batch at a query holds the rows of the codewords, and their Merkle path.
    pub open spec fn leaf_opened(
        self,
        heights: Seq<nat>,
        tree: F::Tree,
        num_vars: nat,
        query: nat,
        opening: BatchOpening<F>,
    ) -> bool {
        let index = leaf_index(heights, num_vars, query);
        let codes = F::tree_matrices(tree);
        &&& mmcs::rows_of(opening.opened_values@) == mmcs::opened_rows(codes, index)
        &&& mmcs::rows_of(opening.opening_proof@) == F::path(self.rounds(), codes, index)
        &&& batch::leaf_accepted(
            self.rounds(),
            self.fri.log_blowup as nat,
            num_vars,
            F::root(self.rounds(), codes),
            heights,
            opening,
            query,
        )
        &&& mmcs::are_digests(mmcs::rows_of(opening.opening_proof@))
        &&& mmcs::rows_valid(mmcs::rows_of(opening.opened_values@))
    }

    /// The openings of all batches at a query.
    pub open spec fn leaves_opened(
        self,
        heights: Seq<Seq<nat>>,
        trees: Seq<F::Tree>,
        num_vars: nat,
        query: nat,
        openings: Seq<BatchOpening<F>>,
    ) -> bool {
        &&& openings.len() == trees.len()
        &&& forall|b: int|
            0 <= b < trees.len() ==> self.leaf_opened(
                heights[b],
                trees[b],
                num_vars,
                query,
                #[trigger] openings[b],
            )
    }

    /// The openings of a batch at all queries, each row once.
    pub open spec fn leaves_shared(
        self,
        heights: Seq<nat>,
        tree: F::Tree,
        num_vars: nat,
        queries: Seq<usize>,
        opened: Seq<Seq<Seq<F>>>,
        slots: Seq<u32>,
        proof: mmcs::PrunedModel<F>,
    ) -> bool {
        let codes = F::tree_matrices(tree);
        let indices = leaf_indices(heights, num_vars, queries);
        let u = pruned::unique_indices(indices);
        &&& opened == Seq::new(u.len(), |k: int| mmcs::opened_rows(codes, u[k] as nat))
        &&& answers::are_slots(slots, indices)
        &&& mmcs::same_indices(proof.sorted_indices, u)
        &&& proof == F::pruned_path(self.rounds(), codes, proof.sorted_indices)
        &&& F::accepts_pruned(
            self.rounds(),
            F::root(self.rounds(), codes),
            batch::blown_up(heights, self.fri.log_blowup as nat),
            opened,
            proof,
        )
        &&& mmcs::are_digests(proof.siblings)
        &&& mmcs::row_sets_valid(opened)
    }

    /// The openings of all batches at all queries, each row once.
    pub open spec fn all_leaves_shared(
        self,
        heights: Seq<Seq<nat>>,
        trees: Seq<F::Tree>,
        num_vars: nat,
        queries: Seq<usize>,
        r: PrunedQueryOpenings<F>,
    ) -> bool {
        &&& verdict::input_lens_match(r, trees.len())
        &&& forall|b: int|
            0 <= b < trees.len() ==> self.leaves_shared(
                heights[b],
                #[trigger] trees[b],
                num_vars,
                queries,
                mmcs::row_sets_of(r.round_opened_values@[b]@),
                r.query_to_unique_slot@[b]@,
                r.round_pruned@[b]@,
            )
    }
}

/// The greatest height of codewords.
proof fn lemma_max_blown(heights: Seq<nat>, log_blowup: nat, num_vars: nat)
    requires
        heights.len() > 0,
        batch::heights_wf(heights, num_vars),
    ensures
        mmcs::max_height(batch::blown_up(heights, log_blowup)) == pow2(
            batch::max_log_height(heights) + log_blowup,
        ),
    decreases heights.len(),
{
    let all = batch::blown_up(heights, log_blowup);
    let front = heights.drop_last();
    let h = bits::log2(heights.last());
    assert(bits::power_of_two(heights[heights.len() - 1]));
    lemma_pow2_adds(h, log_blowup);
    assert(all.last() == pow2(h + log_blowup));
    assert(all.drop_last() =~= batch::blown_up(front, log_blowup));
    if front.len() > 0 {
        lemma_max_blown(front, log_blowup, num_vars);
        let m = batch::max_log_height(front);
        if h > m {
            lemma_pow2_strictly_increases(m + log_blowup, h + log_blowup);
        } else if h < m {
            lemma_pow2_strictly_increases(h + log_blowup, m + log_blowup);
        }
    } else {
        assert(mmcs::max_height(all.drop_last()) == 0);
        assert(batch::max_log_height(front) == 0);
        lemma_pow2_pos(h + log_blowup);
    }
}

/// The codewords of a batch, and the rows that a query opens.
pub proof fn lemma_batch<F: MerkleField>(
    pcs: BaseFoldPcs<F>,
    matrices: Seq<MatrixModel<F>>,
    tree: F::Tree,
    num_vars: nat,
    query: nat,
)
    requires
        pcs.batch_committed(matrices, tree, num_vars),
        query < pow2(num_vars + pcs.fri.log_blowup as nat),
    ensures
        ({
            let heights = mmcs::heights_of(matrices);
            let codes = F::tree_matrices(tree);
            let lb = pcs.fri.log_blowup as nat;
            let index = leaf_index(heights, num_vars, query);
            &&& batch::heights_wf(heights, num_vars)
            &&& batch::max_log_height(heights) <= num_vars
            &&& mmcs::heights_of(codes) == batch::blown_up(heights, lb)
            &&& index < mmcs::max_height(mmcs::heights_of(codes))
            &&& index < pow2(batch::max_log_height(heights) + lb)
            &&& mmcs::opened_rows(codes, index).len() == matrices.len()
            &&& mmcs::rows_valid(mmcs::opened_rows(codes, index))
            &&& forall|m: int|
                0 <= m < codes.len() ==> #[trigger] mmcs::opened_rows(codes, index)[m]
                    == codes[m].row(
                    query / pow2((num_vars - bits::log2(matrices[m].height())) as nat),
                ) && mmcs::opened_rows(codes, index)[m].len() == matrices[m].width
        }),
{
    let heights = mmcs::heights_of(matrices);
    let codes = F::tree_matrices(tree);
    let lb = pcs.fri.log_blowup as nat;
    assert forall|i: int| 0 <= i < heights.len() implies bits::power_of_two(#[trigger] heights[i])
        && bits::log2(heights[i]) <= num_vars by {
        assert(prover::encodable(matrices[i], lb));
    }
    batch::lemma_max_log_height(heights, num_vars);
    lemma_max_blown(heights, lb, num_vars);
    let top = batch::max_log_height(heights);
    assert forall|m: int| 0 <= m < codes.len() implies (#[trigger] codes[m]).wf()
        && codes[m].height() == heights[m] * pow2(lb) && bits::log2(codes[m].height())
        == bits::log2(heights[m]) + lb && codes[m].height() == pow2(bits::log2(heights[m]) + lb) by {
        assert(linear::is_code_of(codes[m], matrices[m], lb));
        assert(prover::encodable(matrices[m], lb));
        prover::lemma_code_matrix(codes[m], matrices[m], lb);
    }
    assert(mmcs::heights_of(codes) =~= batch::blown_up(heights, lb));
    query::lemma_shifted(query, num_vars + lb, (num_vars - top) as nat);
    bits::lemma_log2_pow2(top + lb);
    let index = leaf_index(heights, num_vars, query);
    let rows = mmcs::opened_rows(codes, index);
    assert forall|m: int| 0 <= m < codes.len() implies #[trigger] rows[m] == codes[m].row(
        query / pow2((num_vars - bits::log2(matrices[m].height())) as nat),
    ) && rows[m].len() == matrices[m].width && field::all_valid(rows[m]) by {
        let h = bits::log2(heights[m]);
        assert(codes[m].wf());
        assert(linear::is_code_of(codes[m], matrices[m], lb));
        assert(bits::log2(heights[m]) <= top);
        lemma_pow2_pos((num_vars - top) as nat);
        lemma_pow2_pos((top - h) as nat);
        lemma_pow2_adds((num_vars - top) as nat, (top - h) as nat);
        vstd::arithmetic::div_mod::lemma_div_denominator(
            query as int,
            pow2((num_vars - top) as nat) as int,
            pow2((top - h) as nat) as int,
        );
        let i = query / pow2((num_vars - h) as nat);
        query::lemma_shifted(query, num_vars + lb, (num_vars - h) as nat);
        let w = codes[m].width;
        let height = codes[m].height();
        assert(i * w + w <= height * w) by (nonlinear_arith)
            requires
                i < height,
        ;
        let row = codes[m].row(i);
        assert forall|j: int| 0 <= j < row.len() implies (#[trigger] row[j]).valid() by {
            assert(row[j] == codes[m].values[i * w + j]);
        }
    }
}

impl<F: MerkleField> BaseFoldPcs<F> {
    /// Opens every batch at a query.
    pub(crate) fn open_leaves(
        &self,
        trees: &Vec<F::Tree>,
        tops: &Vec<usize>,
        num_vars: usize,
        query: usize,
        Ghost(matrices): Ghost<Seq<Seq<MatrixModel<F>>>>,
    ) -> (r: Vec<BatchOpening<F>>)
        requires
            self.all_committed(matrices, trees@, num_vars as nat),
            tops@.len() == trees@.len(),
            forall|b: int|
                0 <= b < tops@.len() ==> (#[trigger] tops@[b]) as nat == batch::max_log_height(
                    mmcs::heights_of(matrices[b]),
                ),
            num_vars < usize::BITS,
            query < pow2(num_vars as nat + self.fri.log_blowup as nat),
        ensures
            self.leaves_opened(all_heights(matrices), trees@, num_vars as nat, query as nat, r@),
    {
        let n: usize = trees.len();
        let mut r: Vec<BatchOpening<F>> = Vec::new();
        let mut b: usize = 0;
        while b < n
            invariant
                b <= n,
                n == trees@.len(),
                self.all_committed(matrices, trees@, num_vars as nat),
                tops@.len() == trees@.len(),
                forall|b: int|
                    0 <= b < tops@.len() ==> (#[trigger] tops@[b]) as nat == batch::max_log_height(
                        mmcs::heights_of(matrices[b]),
                    ),
                num_vars < usize::BITS,
                query < pow2(num_vars as nat + self.fri.log_blowup as nat),
                r@.len() == b,
                forall|j: int|
                    0 <= j < b ==> self.leaf_opened(
                        all_heights(matrices)[j],
                        trees@[j],
                        num_vars as nat,
                        query as nat,
                        #[trigger] r@[j],
                    ),
            decreases n - b,
        {
            proof {
                assert(self.batch_committed(matrices[b as int], trees@[b as int], num_vars as nat));
                lemma_batch(
                    *self,
                    matrices[b as int],
                    trees@[b as int],
                    num_vars as nat,
                    query as nat,
                );
                assert(tops@[b as int] as nat == batch::max_log_height(
                    mmcs::heights_of(matrices[b as int]),
                ));
            }
            let index: usize = bits::shift_right(query, num_vars - tops[b]);
            let (opened_values, opening_proof) = F::open_batch(&self.permutation, index, &trees[b]);
            r.push(BatchOpening { opened_values, opening_proof });
            b += 1;
        }
        r
    }

    /// Opens a batch at all queries, each row once.
    fn open_batch_leaves(
        &self,
        tree: &F::Tree,
        top: usize,
        num_vars: usize,
        queries: &Vec<usize>,
        Ghost(matrices): Ghost<Seq<MatrixModel<F>>>,
    ) -> (r: (Vec<Vec<Vec<F>>>, Vec<u32>, PrunedProof<F>))
        requires
            self.batch_committed(matrices, *tree, num_vars as nat),
            top as nat == batch::max_log_height(mmcs::heights_of(matrices)),
            num_vars < usize::BITS,
            num_vars + self.fri.log_blowup <= 32,
            queries@.len() > 0,
            forall|q: int|
                0 <= q < queries@.len() ==> (#[trigger] queries@[q]) < pow2(
                    num_vars as nat + self.fri.log_blowup as nat,
                ),
        ensures
            self.leaves_shared(
                mmcs::heights_of(matrices),
                *tree,
                num_vars as nat,
                queries@,
                mmcs::row_sets_of(r.0@),
                r.1@,
                r.2@,
            ),
    {
        let ghost heights = mmcs::heights_of(matrices);
        let ghost codes = F::tree_matrices(*tree);
        let ghost lb = self.fri.log_blowup as nat;
        let n: usize = queries.len();
        proof {
            assert(queries@[0] < pow2(num_vars as nat + lb));
            lemma_batch(*self, matrices, *tree, num_vars as nat, queries@[0] as nat);
        }
        let mut indices: Vec<usize> = Vec::new();
        let mut q: usize = 0;
        while q < n
            invariant
                q <= n,
                n == queries@.len(),
                num_vars < usize::BITS,
                top <= num_vars,
                top as nat == batch::max_log_height(heights),
                indices@.len() == q,
                forall|j: int|
                    0 <= j < q ==> (#[trigger] indices@[j]) as nat == leaf_index(
                        heights,
                        num_vars as nat,
                        queries@[j] as nat,
                    ),
            decreases n - q,
        {
            indices.push(bits::shift_right(queries[q], num_vars - top));
            q += 1;
        }
        let ghost u = pruned::unique_indices(indices@);
        proof {
            assert(indices@ =~= leaf_indices(heights, num_vars as nat, queries@));
            assert(pow2(32) == 0x1_0000_0000) by {
                lemma2_to64();
            }
            if top + lb < 32 {
                lemma_pow2_strictly_increases((top + lb) as nat, 32);
            }
            assert forall|j: int| 0 <= j < indices@.len() implies (
            #[trigger] indices@[j]) < mmcs::max_height(mmcs::heights_of(codes)) && indices@[j]
                < 0x1_0000_0000 && mmcs::rows_valid(
                mmcs::opened_rows(codes, indices@[j] as nat),
            ) by {
                assert(queries@[j] < pow2(num_vars as nat + lb));
                lemma_batch(*self, matrices, *tree, num_vars as nat, queries@[j] as nat);
            }
        }
        let slots = find_slots(&indices);
        let (sets, proof) = F::open_batch_pruned(&self.permutation, &indices, tree);
        proof {
            let s = choose|s: Seq<usize>|
                mmcs::sorted_unique(s, indices@) && mmcs::same_indices(proof@.sorted_indices, s);
            pruned::law_unique_indices(indices@);
            pruned::lemma_sorted_unique_same(s, u, indices@);
            let opened = mmcs::row_sets_of(sets@);
            let expected = Seq::new(u.len(), |k: int| mmcs::opened_rows(codes, u[k] as nat));
            assert forall|k: int| 0 <= k < u.len() implies #[trigger] opened[k] == expected[k]
                && mmcs::rows_valid(opened[k]) by {
                assert(proof@.sorted_indices[k] as int == u[k] as int);
                assert(u.contains(u[k]));
                assert(indices@.contains(u[k]));
                let j = indices@.index_of(u[k]);
                assert(indices@[j] as nat == u[k] as nat);
            }
            assert(opened =~= expected);
        }
        (sets, slots, proof)
    }

    /// Opens every batch at all queries, each row once.
    pub(crate) fn open_leaves_pruned(
        &self,
        trees: &Vec<F::Tree>,
        tops: &Vec<usize>,
        num_vars: usize,
        queries: &Vec<usize>,
        Ghost(matrices): Ghost<Seq<Seq<MatrixModel<F>>>>,
    ) -> (r: PrunedQueryOpenings<F>)
        requires
            self.all_committed(matrices, trees@, num_vars as nat),
            tops@.len() == trees@.len(),
            forall|b: int|
                0 <= b < tops@.len() ==> (#[trigger] tops@[b]) as nat == batch::max_log_height(
                    mmcs::heights_of(matrices[b]),
                ),
            num_vars < usize::BITS,
            num_vars + self.fri.log_blowup <= 32,
            queries@.len() > 0,
            forall|q: int|
                0 <= q < queries@.len() ==> (#[trigger] queries@[q]) < pow2(
                    num_vars as nat + self.fri.log_blowup as nat,
                ),
        ensures
            self.all_leaves_shared(
                all_heights(matrices),
                trees@,
                num_vars as nat,
                queries@,
                r,
            ),
    {
        let n: usize = trees.len();
        let ghost heights = all_heights(matrices);
        let mut opened: Vec<Vec<Vec<Vec<F>>>> = Vec::new();
        let mut slots: Vec<Vec<u32>> = Vec::new();
        let mut proofs: Vec<PrunedProof<F>> = Vec::new();
        let mut b: usize = 0;
        while b < n
            invariant
                b <= n,
                n == trees@.len(),
                heights == all_heights(matrices),
                self.all_committed(matrices, trees@, num_vars as nat),
                tops@.len() == trees@.len(),
                forall|b: int|
                    0 <= b < tops@.len() ==> (#[trigger] tops@[b]) as nat == batch::max_log_height(
                        mmcs::heights_of(matrices[b]),
                    ),
                num_vars < usize::BITS,
                num_vars + self.fri.log_blowup <= 32,
                queries@.len() > 0,
                forall|q: int|
                    0 <= q < queries@.len() ==> (#[trigger] queries@[q]) < pow2(
                        num_vars as nat + self.fri.log_blowup as nat,
                    ),
                opened@.len() == b,
                slots@.len() == b,
                proofs@.len() == b,
                forall|j: int|
                    0 <= j < b ==> self.leaves_shared(
                        heights[j],
                        #[trigger] trees@[j],
                        num_vars as nat,
                        queries@,
                        mmcs::row_sets_of(opened@[j]@),
                        slots@[j]@,
                        proofs@[j]@,
                    ),
            decreases n - b,
        {
            proof {
                assert(self.batch_committed(matrices[b as int], trees@[b as int], num_vars as nat));
                assert(tops@[b as int] as nat == batch::max_log_height(
                    mmcs::heights_of(matrices[b as int]),
                ));
            }
            let (sets, places, proof) = self.open_batch_leaves(
                &trees[b],
                tops[b],
                num_vars,
                queries,
                Ghost(matrices[b as int]),
            );
            opened.push(sets);
            slots.push(places);
            proofs.push(proof);
            b += 1;
        }
        PrunedQueryOpenings {
            round_pruned: proofs,
            round_opened_values: opened,
            query_to_unique_slot: slots,
        }
    }
}

} // verus!
