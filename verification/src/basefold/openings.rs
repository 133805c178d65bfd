//! The proofs of the commitment scheme and the reasons to refuse one.
use vstd::prelude::*;
use crate::basefold::mmcs::PrunedProof;
use crate::basefold::unipoly::UniPoly;

verus! {

/// Why an opening cannot be made or is refused.
#[derive(Debug, Clone, Copy, PartialEq, Eq, Structural)]
pub enum BaseFoldError {
    /// The Merkle opening of a folded codeword is refused.
    CommitPhaseMmcsError,
    /// A commitment is not the expected one.
    CommitmentCheckFailed,
    /// A round of the sumcheck does not add up.
    SumcheckPhaseError,
    /// A query does not fold to the claimed value.
    FinalPolyMismatch,
    /// No proof of work exists.
    CannotFindPowWitness,
    /// A proof of work is refused.
    InvalidPowWitness,
    /// The sizes of the inputs do not match.
    InvalidInputError,
    /// A query is refused.
    FriFinalStepMisMatch,
    /// The equality polynomial vanishes at the challenges, so that the claim has no quotient.
    VanishingEqSum,
}

/// One round of a query: the other entry of the pair, and the opening of the pair.
#[derive(Debug, Clone)]
pub struct CommitPhaseProofStep<F, EF> {
    pub sibling_value: EF,
    pub opening_proof: Vec<Vec<F>>,
}

/// The openings of one query, round by round.
#[derive(Debug, Clone)]
pub struct QueryProof<F, EF> {
    pub commit_phase_openings: Vec<CommitPhaseProofStep<F, EF>>,
}

/// The openings of all queries with shared Merkle paths, round by round.
#[derive(Debug, Clone)]
pub struct PrunedFriQueryProof<F, EF> {
    pub round_pruned_proofs: Vec<PrunedProof<F>>,
    /// For each query the other entry of the pair in each round.
    pub sibling_values: Vec<Vec<EF>>,
    /// For each round the place of each query's row among the opened rows.
    pub query_to_unique_slot: Vec<Vec<u32>>,
}

/// One group of rounds of a query: a whole row of the folded codeword, and its opening.
#[derive(Debug, Clone)]
pub struct CrossRoundProofStep<F, EF> {
    /// The `2^log_folding` codeword entries of the row.
    pub row_values: Vec<EF>,
    pub opening_proof: Vec<Vec<F>>,
}

/// The openings of one query, group by group.
#[derive(Debug, Clone)]
pub struct CrossRoundQueryProof<F, EF> {
    pub group_openings: Vec<CrossRoundProofStep<F, EF>>,
}

/// The openings of all queries with shared Merkle paths, group by group.
#[derive(Debug, Clone)]
pub struct CrossRoundPrunedOpenings<F, EF> {
    pub group_pruned: Vec<PrunedProof<F>>,
    /// For each group the opened rows in ascending order of their indices.
    pub group_opened_rows: Vec<Vec<Vec<EF>>>,
    /// For each group the place of each query's row among the opened rows.
    pub query_to_unique_slot: Vec<Vec<u32>>,
}

/// The opened rows of one batch of matrices, and their opening.
#[derive(Debug, Clone)]
pub struct BatchOpening<F> {
    pub opened_values: Vec<Vec<F>>,
    pub opening_proof: Vec<Vec<F>>,
}

/// The openings of the committed matrices for all queries with shared Merkle paths.
#[derive(Debug, Clone)]
pub struct PrunedQueryOpenings<F> {
    pub round_pruned: Vec<PrunedProof<F>>,
    /// For each batch and each opened index the rows of the matrices of the batch.
    pub round_opened_values: Vec<Vec<Vec<Vec<F>>>>,
    /// For each batch the place of each query's rows among the opened rows.
    pub query_to_unique_slot: Vec<Vec<u32>>,
}

/// The openings of the committed matrices, query by query or with shared Merkle paths.
#[derive(Debug, Clone)]
pub struct BasefoldInputProof<F> {
    /// For each query and each batch the opened rows.
    pub per_query: Vec<Vec<BatchOpening<F>>>,
    pub pruned: Option<PrunedQueryOpenings<F>>,
}

impl<F> BasefoldInputProof<F> {
    /// The openings query by query.
    pub fn from_per_query(per_query: Vec<Vec<BatchOpening<F>>>) -> (r: Self)
        ensures
            r.per_query == per_query,
            r.pruned is None,
    {
        BasefoldInputProof { per_query, pruned: None }
    }
}

/// The polynomials of the sumcheck, round by round.
#[derive(Debug, Clone)]
pub struct SumcheckInstanceProof<EF> {
    pub uni_polys: Vec<UniPoly<EF>>,
}

impl<EF> SumcheckInstanceProof<EF> {
    pub fn new(uni_polys: Vec<UniPoly<EF>>) -> (r: Self)
        ensures
            r.uni_polys == uni_polys,
    {
        SumcheckInstanceProof { uni_polys }
    }
}

/// An opening of committed polynomials at a point.
#[derive(Debug, Clone)]
pub struct BasefoldProof<F, EF> {
    pub sumcheck_transcript: SumcheckInstanceProof<EF>,
    /// The roots of the folded codewords.
    pub iopp_oracles: Vec<Vec<F>>,
    pub iopp_queries: Vec<QueryProof<F, EF>>,
    pub query_openings: BasefoldInputProof<F>,
    /// The nonce and the witness of the proof of work for the batching challenge.
    pub grinding_batching_witness: Vec<F>,
    /// The nonce and the witness of the proof of work for the queries.
    pub grinding_query_witness: Vec<F>,
    /// The out-of-domain values, where the scheme samples out of the domain.
    pub out_of_domain_responses: Option<Vec<EF>>,
    /// The table that remains where the folding stops early.
    pub final_poly: Vec<EF>,
    pub iopp_pruned: Option<PrunedFriQueryProof<F, EF>>,
    pub iopp_cross_round: Vec<CrossRoundQueryProof<F, EF>>,
    pub iopp_cross_round_pruned: Option<CrossRoundPrunedOpenings<F, EF>>,
}

} // verus!
