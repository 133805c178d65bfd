//! Commitments to the rows of matrices, by Merkle trees over the Poseidon2 permutation.
use vstd::prelude::*;
use core::array::from_fn;
use vstd::arithmetic::power2::*;
use p3_commit::Mmcs as OuterMmcs;
use p3_field::AbstractField;
use p3_field::PrimeField32 as OuterPrimeField32;
use p3_koala_bear::KoalaBear as OuterKoalaBear;
use p3_matrix::dense::DenseMatrix;
use p3_matrix::Dimensions as OuterDimensions;
use p3_merkle_tree::pruned::PrunedBatchProof;
use p3_merkle_tree::FieldMerkleTree;
use p3_merkle_tree::FieldMerkleTreeMmcs;
use p3_symmetric::PaddingFreeSponge;
use p3_symmetric::TruncatedPermutation;
use crate::basefold::challenger::SpongeField;
use crate::basefold::encode::DftField;
use crate::basefold::poseidon;
use crate::basefold::poseidon::{KoalaBearPermutation, Rounds};
use crate::bits;
use crate::field;
use crate::field::koala_bear::KoalaBear;
use crate::field::{Field, PrimeField32};

verus! {

/// The number of elements of a digest.
pub const DIGEST_ELEMS: usize = 8;

/// The size of a matrix.
#[derive(Debug, Clone, Copy, PartialEq, Eq)]
pub struct Dimensions {
    pub width: usize,
    pub height: usize,
}

/// A matrix, row by row.
#[derive(Debug, Clone)]
pub struct Matrix<F> {
    pub values: Vec<F>,
    pub width: usize,
}

/// A matrix, mathematically.
#[verifier::ext_equal]
pub struct MatrixModel<F> {
    pub values: Seq<F>,
    pub width: nat,
}

impl<F> View for Matrix<F> {
    type V = MatrixModel<F>;

    open spec fn view(&self) -> MatrixModel<F> {
        MatrixModel { values: self.values@, width: self.width as nat }
    }
}

impl<F: Field> MatrixModel<F> {
    pub open spec fn height(self) -> nat {
        self.values.len() / self.width
    }

    /// A power of two of nonempty rows of canonical elements.
    pub open spec fn wf(self) -> bool {
        &&& self.width > 0
        &&& self.values.len() == self.height() * self.width
        &&& bits::power_of_two(self.height())
        &&& field::all_valid(self.values)
    }

    pub open spec fn row(self, i: nat) -> Seq<F> {
        self.values.subrange((i * self.width) as int, (i * self.width + self.width) as int)
    }
}

/// The models of the matrices.
pub open spec fn models<F>(matrices: Seq<Matrix<F>>) -> Seq<MatrixModel<F>> {
    Seq::new(matrices.len(), |i: int| matrices[i]@)
}

/// The rows, mathematically.
pub open spec fn rows_of<T>(rows: Seq<Vec<T>>) -> Seq<Seq<T>> {
    Seq::new(rows.len(), |i: int| rows[i]@)
}

/// The rows of each matrix for each index, mathematically.
pub open spec fn row_sets_of<T>(sets: Seq<Vec<Vec<T>>>) -> Seq<Seq<Seq<T>>> {
    Seq::new(sets.len(), |i: int| rows_of(sets[i]@))
}

/// The heights of the matrices.
pub open spec fn heights_of<F: Field>(matrices: Seq<MatrixModel<F>>) -> Seq<nat> {
    Seq::new(matrices.len(), |i: int| matrices[i].height())
}

/// The heights.
pub open spec fn dim_heights(dims: Seq<Dimensions>) -> Seq<nat> {
    Seq::new(dims.len(), |i: int| dims[i].height as nat)
}

/// A digest of canonical elements.
pub open spec fn is_digest<F: Field>(d: Seq<F>) -> bool {
    d.len() == DIGEST_ELEMS && field::all_valid(d)
}

/// Each entry is a digest.
pub open spec fn are_digests<F: Field>(s: Seq<Seq<F>>) -> bool {
    forall|i: int| 0 <= i < s.len() ==> is_digest(#[trigger] s[i])
}

/// Each row holds canonical elements.
pub open spec fn rows_valid<F: Field>(s: Seq<Seq<F>>) -> bool {
    forall|i: int| 0 <= i < s.len() ==> field::all_valid(#[trigger] s[i])
}

/// Each set holds `n` rows.
pub open spec fn sets_have<F>(s: Seq<Seq<Seq<F>>>, n: nat) -> bool {
    forall|i: int| 0 <= i < s.len() ==> (#[trigger] s[i]).len() == n
}

/// Each row of each set holds canonical elements.
pub open spec fn row_sets_valid<F: Field>(s: Seq<Seq<Seq<F>>>) -> bool {
    forall|i: int| 0 <= i < s.len() ==> rows_valid(#[trigger] s[i])
}

/// The heights leave room to be rounded up to a power of two.
pub open spec fn heights_fit(heights: Seq<nat>) -> bool {
    forall|i: int|
        0 <= i < heights.len() ==> (#[trigger] heights[i]) <= pow2((usize::BITS - 1) as nat)
}

/// The greatest height.
pub open spec fn max_height(heights: Seq<nat>) -> nat
    decreases heights.len(),
{
    if heights.len() == 0 {
        0
    } else {
        let m = max_height(heights.drop_last());
        if heights.last() > m {
            heights.last()
        } else {
            m
        }
    }
}

/// The rows that belong to the row `index` of the tallest matrix: of a matrix of half its height
/// the row of half the index, and so on.
pub open spec fn opened_rows<F: Field>(matrices: Seq<MatrixModel<F>>, index: nat) -> Seq<Seq<F>> {
    Seq::new(
        matrices.len(),
        |i: int|
            matrices[i].row(
                index / pow2(
                    (bits::log2(max_height(heights_of(matrices))) - bits::log2(
                        matrices[i].height(),
                    )) as nat,
                ),
            ),
    )
}

/// A Merkle opening of several rows at once.
#[derive(Debug, Clone)]
pub struct PrunedProof<F> {
    /// The indices of the opened rows, in ascending order and without repetition.
    pub sorted_indices: Vec<u32>,
    /// The digests that the opened rows do not determine, layer by layer.
    pub siblings: Vec<Vec<F>>,
    /// The number of those digests in each layer.
    pub layer_widths: Vec<u32>,
}

/// A Merkle opening of several rows, mathematically.
#[verifier::ext_equal]
pub struct PrunedModel<F> {
    pub sorted_indices: Seq<u32>,
    pub siblings: Seq<Seq<F>>,
    pub layer_widths: Seq<u32>,
}

impl<F> View for PrunedProof<F> {
    type V = PrunedModel<F>;

    open spec fn view(&self) -> PrunedModel<F> {
        PrunedModel {
            sorted_indices: self.sorted_indices@,
            siblings: rows_of(self.siblings@),
            layer_widths: self.layer_widths@,
        }
    }
}

/// `s` holds the elements of `all` in ascending order and without repetition.
pub open spec fn sorted_unique(s: Seq<usize>, all: Seq<usize>) -> bool {
    &&& forall|i: int, j: int| 0 <= i < j < s.len() ==> (#[trigger] s[i]) < (#[trigger] s[j])
    &&& forall|x: usize| s.contains(x) <==> all.contains(x)
}

/// The 32-bit integers are the given ones.
pub open spec fn same_indices(narrow: Seq<u32>, wide: Seq<usize>) -> bool {
    &&& narrow.len() == wide.len()
    &&& forall|i: int| 0 <= i < wide.len() ==> #[trigger] narrow[i] as int == wide[i] as int
}

/// A field with commitments to the rows of matrices.
pub trait MerkleField: SpongeField + DftField {
    /// A Merkle tree with the matrices whose rows are its leaves.
    type Tree: Sized;

    spec fn tree_rounds(t: Self::Tree) -> Rounds<Self>;

    spec fn tree_matrices(t: Self::Tree) -> Seq<MatrixModel<Self>>;

    /// The root of the tree over the matrices.
    spec fn root(rounds: Rounds<Self>, matrices: Seq<MatrixModel<Self>>) -> Seq<Self>;

    /// The opening of the rows at an index.
    spec fn path(
        rounds: Rounds<Self>,
        matrices: Seq<MatrixModel<Self>>,
        index: nat,
    ) -> Seq<Seq<Self>>;

    /// An opening is accepted.
    spec fn accepts(
        rounds: Rounds<Self>,
        root: Seq<Self>,
        heights: Seq<nat>,
        index: nat,
        opened: Seq<Seq<Self>>,
        proof: Seq<Seq<Self>>,
    ) -> bool;

    /// The opening of the rows at several indices.
    spec fn pruned_path(
        rounds: Rounds<Self>,
        matrices: Seq<MatrixModel<Self>>,
        indices: Seq<u32>,
    ) -> PrunedModel<Self>;

    /// An opening of several indices is accepted.
    spec fn accepts_pruned(
        rounds: Rounds<Self>,
        root: Seq<Self>,
        heights: Seq<nat>,
        opened: Seq<Seq<Seq<Self>>>,
        proof: PrunedModel<Self>,
    ) -> bool;

    proof fn law_root(rounds: Rounds<Self>, matrices: Seq<MatrixModel<Self>>)
        ensures
            is_digest(Self::root(rounds, matrices)),
    ;

    fn commit(p: &Self::Permutation, matrices: Vec<Matrix<Self>>) -> (r: (Vec<Self>, Self::Tree))
        requires
            matrices@.len() > 0,
            forall|i: int| 0 <= i < matrices@.len() ==> (#[trigger] matrices@[i])@.wf(),
            heights_fit(heights_of(models(matrices@))),
        ensures
            r.0@ == Self::root(Self::rounds_of(*p), models(matrices@)),
            Self::tree_rounds(r.1) == Self::rounds_of(*p),
            Self::tree_matrices(r.1) == models(matrices@),
    ;

    fn open_batch(p: &Self::Permutation, index: usize, tree: &Self::Tree) -> (r: (
        Vec<Vec<Self>>,
        Vec<Vec<Self>>,
    ))
        requires
            Self::tree_rounds(*tree) == Self::rounds_of(*p),
            index < max_height(heights_of(Self::tree_matrices(*tree))),
        ensures
            rows_of(r.0@) == opened_rows(Self::tree_matrices(*tree), index as nat),
            rows_of(r.1@) == Self::path(
                Self::rounds_of(*p),
                Self::tree_matrices(*tree),
                index as nat,
            ),
            are_digests(rows_of(r.1@)),
            Self::accepts(
                Self::rounds_of(*p),
                Self::root(Self::rounds_of(*p), Self::tree_matrices(*tree)),
                heights_of(Self::tree_matrices(*tree)),
                index as nat,
                rows_of(r.0@),
                rows_of(r.1@),
            ),
    ;

    fn verify_batch(
        p: &Self::Permutation,
        root: &Vec<Self>,
        dims: &Vec<Dimensions>,
        index: usize,
        opened: &Vec<Vec<Self>>,
        proof: &Vec<Vec<Self>>,
    ) -> (r: bool)
        requires
            is_digest(root@),
            dims@.len() > 0,
            heights_fit(dim_heights(dims@)),
            opened@.len() >= dims@.len(),
            rows_valid(rows_of(opened@)),
            are_digests(rows_of(proof@)),
        ensures
            r == Self::accepts(
                Self::rounds_of(*p),
                root@,
                dim_heights(dims@),
                index as nat,
                rows_of(opened@),
                rows_of(proof@),
            ),
    ;

    fn open_batch_pruned(
        p: &Self::Permutation,
        indices: &Vec<usize>,
        tree: &Self::Tree,
    ) -> (r: (Vec<Vec<Vec<Self>>>, PrunedProof<Self>))
        requires
            Self::tree_rounds(*tree) == Self::rounds_of(*p),
            indices@.len() > 0,
            forall|i: int|
                0 <= i < indices@.len() ==> (#[trigger] indices@[i]) < max_height(
                    heights_of(Self::tree_matrices(*tree)),
                ) && indices@[i] < 0x1_0000_0000,
        ensures
            exists|s: Seq<usize>|
                sorted_unique(s, indices@) && same_indices(r.1@.sorted_indices, s),
            r.0@.len() == r.1@.sorted_indices.len(),
            forall|i: int|
                0 <= i < r.0@.len() ==> #[trigger] row_sets_of(r.0@)[i] == opened_rows(
                    Self::tree_matrices(*tree),
                    r.1@.sorted_indices[i] as nat,
                ),
            r.1@ == Self::pruned_path(
                Self::rounds_of(*p),
                Self::tree_matrices(*tree),
                r.1@.sorted_indices,
            ),
            are_digests(r.1@.siblings),
            Self::accepts_pruned(
                Self::rounds_of(*p),
                Self::root(Self::rounds_of(*p), Self::tree_matrices(*tree)),
                heights_of(Self::tree_matrices(*tree)),
                row_sets_of(r.0@),
                r.1@,
            ),
    ;

    fn verify_batch_pruned(
        p: &Self::Permutation,
        root: &Vec<Self>,
        dims: &Vec<Dimensions>,
        opened: &Vec<Vec<Vec<Self>>>,
        proof: &PrunedProof<Self>,
    ) -> (r: bool)
        requires
            is_digest(root@),
            heights_fit(dim_heights(dims@)),
            row_sets_valid(row_sets_of(opened@)),
            are_digests(proof@.siblings),
        ensures
            r == Self::accepts_pruned(
                Self::rounds_of(*p),
                root@,
                dim_heights(dims@),
                row_sets_of(opened@),
                proof@,
            ),
            r ==> sets_have(row_sets_of(opened@), dims@.len()),
    ;
}

#[verifier::external_type_specification]
#[verifier::external_body]
#[verifier::reject_recursive_types(T)]
#[verifier::reject_recursive_types(V)]
pub struct ExDenseMatrix<T, V>(DenseMatrix<T, V>);

#[verifier::external_type_specification]
#[verifier::external_body]
#[verifier::reject_recursive_types(F)]
#[verifier::reject_recursive_types(W)]
#[verifier::reject_recursive_types(M)]
pub struct ExFieldMerkleTree<F, W, M, const N: usize>(FieldMerkleTree<F, W, M, N>);

/// A Merkle tree over the KoalaBear field.
pub type KoalaBearTree = FieldMerkleTree<
    OuterKoalaBear,
    OuterKoalaBear,
    DenseMatrix<OuterKoalaBear, Vec<OuterKoalaBear>>,
    8,
>;

type KoalaBearMmcs = FieldMerkleTreeMmcs<
    OuterKoalaBear,
    OuterKoalaBear,
    PaddingFreeSponge<KoalaBearPermutation, 16, 8, 8>,
    TruncatedPermutation<KoalaBearPermutation, 2, 8, 16>,
    8,
>;

/// The round constants that a tree was made with.
pub uninterp spec fn koala_bear_tree_rounds(t: KoalaBearTree) -> Rounds<KoalaBear>;

/// The matrices that a tree holds.
pub uninterp spec fn koala_bear_tree_matrices(t: KoalaBearTree) -> Seq<MatrixModel<KoalaBear>>;

/// The root that `commit` of `p3_merkle_tree`'s `FieldMerkleTreeMmcs` returns.
pub uninterp spec fn koala_bear_root(
    rounds: Rounds<KoalaBear>,
    matrices: Seq<MatrixModel<KoalaBear>>,
) -> Seq<KoalaBear>;

/// The opening that `open_batch` of `p3_merkle_tree`'s `FieldMerkleTreeMmcs` returns.
pub uninterp spec fn koala_bear_path(
    rounds: Rounds<KoalaBear>,
    matrices: Seq<MatrixModel<KoalaBear>>,
    index: nat,
) -> Seq<Seq<KoalaBear>>;

/// Whether `verify_batch` of `p3_merkle_tree`'s `FieldMerkleTreeMmcs` returns `Ok`.
pub uninterp spec fn koala_bear_accepts(
    rounds: Rounds<KoalaBear>,
    root: Seq<KoalaBear>,
    heights: Seq<nat>,
    index: nat,
    opened: Seq<Seq<KoalaBear>>,
    proof: Seq<Seq<KoalaBear>>,
) -> bool;

/// The opening that `open_batch_pruned` of `p3_merkle_tree`'s `FieldMerkleTreeMmcs` returns.
pub uninterp spec fn koala_bear_pruned_path(
    rounds: Rounds<KoalaBear>,
    matrices: Seq<MatrixModel<KoalaBear>>,
    indices: Seq<u32>,
) -> PrunedModel<KoalaBear>;

/// Whether `verify_batch_pruned` of `p3_merkle_tree`'s `FieldMerkleTreeMmcs` returns `Ok`.
pub uninterp spec fn koala_bear_accepts_pruned(
    rounds: Rounds<KoalaBear>,
    root: Seq<KoalaBear>,
    heights: Seq<nat>,
    opened: Seq<Seq<Seq<KoalaBear>>>,
    proof: PrunedModel<KoalaBear>,
) -> bool;

/// The index is one of the tallest matrix of the tree, which was made with the permutation.
pub open spec fn koala_bear_opens(p: KoalaBearPermutation, t: KoalaBearTree, index: nat) -> bool {
    &&& koala_bear_tree_rounds(t) == poseidon::koala_bear_rounds(p)
    &&& index < max_height(heights_of(koala_bear_tree_matrices(t)))
}

/// The rows are those of the tree, and the opening is accepted.
pub open spec fn koala_bear_opened(
    t: KoalaBearTree,
    index: nat,
    rows: Seq<Seq<KoalaBear>>,
    proof: Seq<Seq<KoalaBear>>,
) -> bool {
    let c = koala_bear_tree_rounds(t);
    let m = koala_bear_tree_matrices(t);
    &&& rows == opened_rows(m, index)
    &&& are_digests(proof)
    &&& koala_bear_accepts(c, KoalaBear::root(c, m), heights_of(m), index, rows, proof)
}

/// The rows are those of the tree, and the opening is accepted.
pub open spec fn koala_bear_opened_pruned(
    t: KoalaBearTree,
    indices: Seq<usize>,
    rows: Seq<Seq<Seq<KoalaBear>>>,
    proof: PrunedModel<KoalaBear>,
) -> bool {
    let c = koala_bear_tree_rounds(t);
    let m = koala_bear_tree_matrices(t);
    &&& exists|s: Seq<usize>| sorted_unique(s, indices) && same_indices(proof.sorted_indices, s)
    &&& rows.len() == proof.sorted_indices.len()
    &&& forall|i: int|
        0 <= i < rows.len() ==> #[trigger] rows[i] == opened_rows(
            m,
            proof.sorted_indices[i] as nat,
        )
    &&& are_digests(proof.siblings)
    &&& koala_bear_accepts_pruned(c, KoalaBear::root(c, m), heights_of(m), rows, proof)
}

#[verifier::external_type_specification]
pub struct ExOuterDimensions(OuterDimensions);

/// The heights.
pub open spec fn outer_heights(dims: Seq<OuterDimensions>) -> Seq<nat> {
    Seq::new(dims.len(), |i: int| dims[i].height as nat)
}

/// `commit` of `p3_merkle_tree`'s `FieldMerkleTreeMmcs`, with a sponge of the permutation for the
/// rows and its truncation for pairs of digests: a digest of canonical elements that the round
/// constants and the matrices determine, and the tree that holds the matrices.
#[verifier::external_body]
fn koala_bear_commit(p: &KoalaBearPermutation, matrices: Vec<Matrix<KoalaBear>>) -> (r: (
    Vec<KoalaBear>,
    KoalaBearTree,
))
    requires
        matrices@.len() > 0,
        forall|i: int| 0 <= i < matrices@.len() ==> (#[trigger] matrices@[i])@.wf(),
        heights_fit(heights_of(models(matrices@))),
    ensures
        r.0@ == koala_bear_root(poseidon::koala_bear_rounds(*p), models(matrices@)),
        is_digest(r.0@),
        koala_bear_tree_rounds(r.1) == poseidon::koala_bear_rounds(*p),
        koala_bear_tree_matrices(r.1) == models(matrices@),
{
    let (hash, pair) = (PaddingFreeSponge::new(p.clone()), TruncatedPermutation::new(p.clone()));
    let outer = |x: KoalaBear| OuterKoalaBear::from_canonical_u32(x.as_canonical_u32());
    let leaves = matrices.into_iter().map(|m| {
        DenseMatrix::new(m.values.into_iter().map(outer).collect::<Vec<_>>(), m.width)
    });
    let (root, tree) = KoalaBearMmcs::new(hash, pair).commit(leaves.collect());
    let inner = |x: OuterKoalaBear| KoalaBear::from_canonical_u32(x.as_canonical_u32());
    (root.into_iter().map(inner).collect(), tree)
}

/// `open_batch` of `p3_merkle_tree`'s `FieldMerkleTreeMmcs`: the rows of the tree's matrices that
/// belong to the index, and digests of canonical elements with which `verify_batch` accepts them
/// for the tree's root.
#[verifier::external_body]
fn koala_bear_open(p: &KoalaBearPermutation, index: usize, tree: &KoalaBearTree) -> (r: (
    Vec<Vec<KoalaBear>>,
    Vec<Vec<KoalaBear>>,
))
    requires
        koala_bear_opens(*p, *tree, index as nat),
    ensures
        rows_of(r.1@) == koala_bear_path(
            koala_bear_tree_rounds(*tree),
            koala_bear_tree_matrices(*tree),
            index as nat,
        ),
        koala_bear_opened(*tree, index as nat, rows_of(r.0@), rows_of(r.1@)),
{
    let (hash, pair) = (PaddingFreeSponge::new(p.clone()), TruncatedPermutation::new(p.clone()));
    let (rows, proof) = KoalaBearMmcs::new(hash, pair).open_batch(index, tree);
    let inner = |x: OuterKoalaBear| KoalaBear::from_canonical_u32(x.as_canonical_u32());
    let opened = rows.into_iter().map(|r| r.into_iter().map(inner).collect()).collect();
    (opened, proof.into_iter().map(|d| d.into_iter().map(inner).collect()).collect())
}

/// `verify_batch` of `p3_merkle_tree`'s `FieldMerkleTreeMmcs`, which looks at the heights alone of
/// the dimensions.
#[verifier::external_body]
fn koala_bear_verify(
    p: &KoalaBearPermutation,
    root: &Vec<KoalaBear>,
    dims: &Vec<OuterDimensions>,
    index: usize,
    opened: &Vec<Vec<KoalaBear>>,
    proof: &Vec<Vec<KoalaBear>>,
) -> (r: bool)
    requires
        is_digest(root@),
        dims@.len() > 0,
        heights_fit(outer_heights(dims@)),
        opened@.len() >= dims@.len(),
        rows_valid(rows_of(opened@)),
        are_digests(rows_of(proof@)),
    ensures
        r == koala_bear_accepts(
            poseidon::koala_bear_rounds(*p),
            root@,
            outer_heights(dims@),
            index as nat,
            rows_of(opened@),
            rows_of(proof@),
        ),
{
    let mmcs =
        KoalaBearMmcs::new(PaddingFreeSponge::new(p.clone()), TruncatedPermutation::new(p.clone()));
    let outer = |x: &KoalaBear| OuterKoalaBear::from_canonical_u32(x.as_canonical_u32());
    let digest = |d: &Vec<KoalaBear>| from_fn(|i| outer(&d[i]));
    let rows: Vec<_> = opened.iter().map(|r| r.iter().map(outer).collect()).collect();
    let path = proof.iter().map(digest).collect();
    mmcs.verify_batch(&digest(root).into(), dims, index, &rows, &path).is_ok()
}

/// `open_batch_pruned` of `p3_merkle_tree`'s `FieldMerkleTreeMmcs`: for each index once, in
/// ascending order, the rows of the tree's matrices that belong to it, and digests of canonical
/// elements with which `verify_batch_pruned` accepts them for the tree's root.
#[verifier::external_body]
fn koala_bear_open_pruned(
    p: &KoalaBearPermutation,
    indices: &Vec<usize>,
    tree: &KoalaBearTree,
) -> (r: (Vec<Vec<Vec<KoalaBear>>>, PrunedProof<KoalaBear>))
    requires
        indices@.len() > 0,
        forall|i: int|
            0 <= i < indices@.len() ==> koala_bear_opens(
                *p,
                *tree,
                (#[trigger] indices@[i]) as nat,
            ) && indices@[i] < 0x1_0000_0000,
    ensures
        r.1@ == koala_bear_pruned_path(
            koala_bear_tree_rounds(*tree),
            koala_bear_tree_matrices(*tree),
            r.1@.sorted_indices,
        ),
        koala_bear_opened_pruned(*tree, indices@, row_sets_of(r.0@), r.1@),
{
    let mmcs =
        KoalaBearMmcs::new(PaddingFreeSponge::new(p.clone()), TruncatedPermutation::new(p.clone()));
    let (rows, proof) = mmcs.open_batch_pruned(indices, tree);
    let inner = |x: OuterKoalaBear| KoalaBear::from_canonical_u32(x.as_canonical_u32());
    let row = |r: Vec<OuterKoalaBear>| r.into_iter().map(inner).collect();
    let opened = rows.into_iter().map(|s| s.into_iter().map(row).collect()).collect();
    let siblings = proof.siblings.into_iter().map(|d| d.into_iter().map(inner).collect()).collect();
    (opened, PrunedProof {
        sorted_indices: proof.sorted_indices,
        siblings,
        layer_widths: proof.layer_widths,
    })
}

/// `verify_batch_pruned` of `p3_merkle_tree`'s `FieldMerkleTreeMmcs`, which looks at the heights
/// alone of the dimensions, and refuses openings that do not hold one row for each of them.
#[verifier::external_body]
fn koala_bear_verify_pruned(
    p: &KoalaBearPermutation,
    root: &Vec<KoalaBear>,
    dims: &Vec<OuterDimensions>,
    opened: &Vec<Vec<Vec<KoalaBear>>>,
    sorted_indices: Vec<u32>,
    siblings: &Vec<Vec<KoalaBear>>,
    layer_widths: Vec<u32>,
) -> (r: bool)
    requires
        is_digest(root@),
        row_sets_valid(row_sets_of(opened@)),
        are_digests(rows_of(siblings@)),
        heights_fit(outer_heights(dims@)),
    ensures
        r == koala_bear_accepts_pruned(
            poseidon::koala_bear_rounds(*p),
            root@,
            outer_heights(dims@),
            row_sets_of(opened@),
            (PrunedModel {
                sorted_indices: sorted_indices@,
                siblings: rows_of(siblings@),
                layer_widths: layer_widths@,
            }),
        ),
        r ==> sets_have(row_sets_of(opened@), dims@.len()),
{
    let mmcs =
        KoalaBearMmcs::new(PaddingFreeSponge::new(p.clone()), TruncatedPermutation::new(p.clone()));
    let outer = |x: &KoalaBear| OuterKoalaBear::from_canonical_u32(x.as_canonical_u32());
    let digest = |d: &Vec<KoalaBear>| from_fn(|i| outer(&d[i]));
    let row = |r: &Vec<KoalaBear>| r.iter().map(outer).collect();
    let rows: Vec<_> = opened.iter().map(|s| s.iter().map(row).collect()).collect();
    let siblings = siblings.iter().map(digest).collect();
    let path = PrunedBatchProof { sorted_indices, siblings, layer_widths };
    mmcs.verify_batch_pruned(&digest(root).into(), dims, &rows, &path).is_ok()
}

fn copy_numbers(v: &Vec<u32>) -> (r: Vec<u32>)
    ensures
        r@ == v@,
{
    let n: usize = v.len();
    let mut r: Vec<u32> = Vec::new();
    let mut i: usize = 0;
    while i < n
        invariant
            i <= n,
            n == v@.len(),
            r@ == v@.subrange(0, i as int),
        decreases n - i,
    {
        r.push(v[i]);
        i += 1;
        assert(r@ =~= v@.subrange(0, i as int));
    }
    assert(r@ =~= v@);
    r
}

/// The sizes as the outside library takes them.
fn outer_dimensions(dims: &Vec<Dimensions>) -> (r: Vec<OuterDimensions>)
    ensures
        outer_heights(r@) == dim_heights(dims@),
        r@.len() == dims@.len(),
{
    let mut r: Vec<OuterDimensions> = Vec::new();
    let mut i: usize = 0;
    while i < dims.len()
        invariant
            i <= dims@.len(),
            r@.len() == i,
            forall|j: int| 0 <= j < i ==> (#[trigger] r@[j]).height == dims@[j].height,
        decreases dims@.len() - i,
    {
        r.push(OuterDimensions { width: dims[i].width, height: dims[i].height });
        i += 1;
    }
    proof {
        assert(outer_heights(r@) =~= dim_heights(dims@));
    }
    r
}

impl MerkleField for KoalaBear {
    type Tree = KoalaBearTree;

    open spec fn tree_rounds(t: KoalaBearTree) -> Rounds<KoalaBear> {
        koala_bear_tree_rounds(t)
    }

    open spec fn tree_matrices(t: KoalaBearTree) -> Seq<MatrixModel<KoalaBear>> {
        koala_bear_tree_matrices(t)
    }

    open spec fn root(
        rounds: Rounds<KoalaBear>,
        matrices: Seq<MatrixModel<KoalaBear>>,
    ) -> Seq<KoalaBear> {
        Seq::new(
            DIGEST_ELEMS as nat,
            |i: int| poseidon::canonical(koala_bear_root(rounds, matrices)[i]),
        )
    }

    open spec fn path(
        rounds: Rounds<KoalaBear>,
        matrices: Seq<MatrixModel<KoalaBear>>,
        index: nat,
    ) -> Seq<Seq<KoalaBear>> {
        koala_bear_path(rounds, matrices, index)
    }

    open spec fn accepts(
        rounds: Rounds<KoalaBear>,
        root: Seq<KoalaBear>,
        heights: Seq<nat>,
        index: nat,
        opened: Seq<Seq<KoalaBear>>,
        proof: Seq<Seq<KoalaBear>>,
    ) -> bool {
        koala_bear_accepts(rounds, root, heights, index, opened, proof)
    }

    open spec fn pruned_path(
        rounds: Rounds<KoalaBear>,
        matrices: Seq<MatrixModel<KoalaBear>>,
        indices: Seq<u32>,
    ) -> PrunedModel<KoalaBear> {
        koala_bear_pruned_path(rounds, matrices, indices)
    }

    open spec fn accepts_pruned(
        rounds: Rounds<KoalaBear>,
        root: Seq<KoalaBear>,
        heights: Seq<nat>,
        opened: Seq<Seq<Seq<KoalaBear>>>,
        proof: PrunedModel<KoalaBear>,
    ) -> bool {
        koala_bear_accepts_pruned(rounds, root, heights, opened, proof)
    }

    proof fn law_root(rounds: Rounds<KoalaBear>, matrices: Seq<MatrixModel<KoalaBear>>) {
        KoalaBear::law_constants();
    }

    fn commit(p: &KoalaBearPermutation, matrices: Vec<Matrix<KoalaBear>>) -> (r: (
        Vec<KoalaBear>,
        KoalaBearTree,
    )) {
        let ghost m = models(matrices@);
        let r: (Vec<KoalaBear>, KoalaBearTree) = koala_bear_commit(p, matrices);
        proof {
            assert(r.0@ =~= Self::root(poseidon::koala_bear_rounds(*p), m));
        }
        r
    }

    fn open_batch(p: &KoalaBearPermutation, index: usize, tree: &KoalaBearTree) -> (r: (
        Vec<Vec<KoalaBear>>,
        Vec<Vec<KoalaBear>>,
    )) {
        koala_bear_open(p, index, tree)
    }

    fn verify_batch(
        p: &KoalaBearPermutation,
        root: &Vec<KoalaBear>,
        dims: &Vec<Dimensions>,
        index: usize,
        opened: &Vec<Vec<KoalaBear>>,
        proof: &Vec<Vec<KoalaBear>>,
    ) -> (r: bool) {
        let sizes: Vec<OuterDimensions> = outer_dimensions(dims);
        koala_bear_verify(p, root, &sizes, index, opened, proof)
    }

    fn open_batch_pruned(
        p: &KoalaBearPermutation,
        indices: &Vec<usize>,
        tree: &KoalaBearTree,
    ) -> (r: (Vec<Vec<Vec<KoalaBear>>>, PrunedProof<KoalaBear>)) {
        koala_bear_open_pruned(p, indices, tree)
    }

    fn verify_batch_pruned(
        p: &KoalaBearPermutation,
        root: &Vec<KoalaBear>,
        dims: &Vec<Dimensions>,
        opened: &Vec<Vec<Vec<KoalaBear>>>,
        proof: &PrunedProof<KoalaBear>,
    ) -> (r: bool) {
        let sizes: Vec<OuterDimensions> = outer_dimensions(dims);
        koala_bear_verify_pruned(
            p,
            root,
            &sizes,
            opened,
            copy_numbers(&proof.sorted_indices),
            &proof.siblings,
            copy_numbers(&proof.layer_widths),
        )
    }
}

} // verus!
