//! The configuration of the commitment scheme.
use vstd::prelude::*;
use crate::basefold::mmcs::MerkleField;
use crate::basefold::poseidon::{RoundConstants, Rounds};
use crate::basefold::query::Iopp;

verus! {

/// The parameters of the folded codewords and their queries.
#[derive(Debug, Clone, Copy)]
pub struct FriConfig {
    /// The logarithm of the inverse rate of the code.
    pub log_blowup: usize,
    pub num_queries: usize,
    /// The bits of the proof of work for the queries.
    pub grinding_bits_query: usize,
    /// The bits of the proof of work for the batching challenge.
    pub grinding_bits_batching: usize,
    /// The number of variables at which the folding stops.
    pub log_final_poly_len: usize,
}

/// The commitment scheme for multilinear polynomials.
pub struct BaseFoldPcs<F: MerkleField> {
    pub permutation: F::Permutation,
    pub fri: FriConfig,
    /// All queries share their Merkle paths.
    pub use_path_pruning: bool,
    /// Consecutive rounds with no new height between them share one commitment.
    pub use_cross_round: bool,
    /// The largest number of rounds that share a commitment, where it is not the default.
    pub max_fold_override: Option<usize>,
}

impl<F: MerkleField> BaseFoldPcs<F> {
    pub open spec fn rounds(self) -> Rounds<F> {
        F::rounds_of(self.permutation)
    }

    /// The scheme with one commitment for each round and one Merkle path for each query.
    pub fn new(constants: &RoundConstants<F>, fri: FriConfig) -> (r: Self)
        requires
            constants@.wf(),
        ensures
            r.rounds() == constants@,
            r.fri == fri,
            !r.use_path_pruning && !r.use_cross_round,
            r.max_fold_override is None,
    {
        BaseFoldPcs {
            permutation: F::new_permutation(constants),
            fri,
            use_path_pruning: false,
            use_cross_round: false,
            max_fold_override: None,
        }
    }

    /// The scheme whose queries share their Merkle paths.
    pub fn new_with_path_pruning(constants: &RoundConstants<F>, fri: FriConfig) -> (r: Self)
        requires
            constants@.wf(),
        ensures
            r.rounds() == constants@,
            r.fri == fri,
            r.use_path_pruning && !r.use_cross_round,
            r.max_fold_override is None,
    {
        BaseFoldPcs {
            permutation: F::new_permutation(constants),
            fri,
            use_path_pruning: true,
            use_cross_round: false,
            max_fold_override: None,
        }
    }

    /// The scheme whose consecutive rounds share their commitments.
    pub fn new_with_cross_round(constants: &RoundConstants<F>, fri: FriConfig) -> (r: Self)
        requires
            constants@.wf(),
        ensures
            r.rounds() == constants@,
            r.fri == fri,
            !r.use_path_pruning && r.use_cross_round,
            r.max_fold_override is None,
    {
        BaseFoldPcs {
            permutation: F::new_permutation(constants),
            fri,
            use_path_pruning: false,
            use_cross_round: true,
            max_fold_override: None,
        }
    }

    /// What all queries are checked against.
    pub open spec fn iopp<EF>(
        self,
        oracles: Seq<Vec<F>>,
        challenges: Seq<EF>,
        betas: Seq<EF>,
        point: Seq<EF>,
        expected: EF,
        final_codeword: Option<Vec<EF>>,
    ) -> Iopp<F, EF> {
        Iopp {
            rounds: self.rounds(),
            log_blowup: self.fri.log_blowup as nat,
            oracles: crate::basefold::mmcs::rows_of(oracles),
            challenges,
            betas,
            point,
            expected,
            final_codeword: match final_codeword {
                Some(v) => Some(v@),
                None => None,
            },
        }
    }
}

} // verus!
