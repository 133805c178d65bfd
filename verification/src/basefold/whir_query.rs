//! The checks of one query where the heights are joined by interpolation.
use vstd::prelude::*;
use vstd::arithmetic::power2::*;
use crate::basefold::batch;
use crate::basefold::batch::{GroupModel, HeightGroup};
use crate::basefold::ext_mmcs;
use crate::basefold::ext_mmcs::verify_row;
use crate::basefold::fold;
use crate::basefold::fold::fold_pair;
use crate::basefold::mlpoly;
use crate::basefold::mmcs;
use crate::basefold::mmcs::{Dimensions, MerkleField};
use crate::basefold::openings::{BaseFoldError, BatchOpening, CommitPhaseProofStep, QueryProof};
use crate::basefold::pcs::BaseFoldPcs;
use crate::basefold::query;
use crate::basefold::query::{Iopp, QueryState};
use crate::bits;
use crate::field;
use crate::field::algebra;
use crate::field::{Field, TwoAdicExtension, TwoAdicField};

verus! {

/// The challenge with which the height number `i` is joined: one for the first.
pub open spec fn join_challenge<EF: Field>(challenges: Seq<EF>, i: int) -> EF {
    if i == 0 {
        EF::one_elem()
    } else {
        challenges[i - 1]
    }
}

/// The state after the height whose codewords have length `2^log_len` was joined, where there is
/// one.
pub open spec fn joined<EF: Field>(
    s: QueryState<EF>,
    sums: Seq<(usize, EF)>,
    challenges: Seq<EF>,
    log_len: nat,
) -> QueryState<EF> {
    if s.merges < sums.len() && sums[s.merges as int].0 == log_len {
        QueryState {
            folded: mlpoly::lerp(
                s.folded,
                sums[s.merges as int].1,
                join_challenge(challenges, s.merges as int),
            ),
            merges: (s.merges + 1) as usize,
            ..s
        }
    } else {
        s
    }
}

/// The state after the pair of the query in a codeword of length `2^log_len` was folded.
pub open spec fn folded_pair<EF: TwoAdicField>(
    s: QueryState<EF>,
    row: Seq<EF>,
    log_len: nat,
    challenge: EF,
) -> QueryState<EF> {
    QueryState {
        folded: fold::line_at(
            row[0],
            row[1],
            fold::point(log_len, s.query as nat / 2),
            challenge,
        ),
        query: (s.query / 2) as usize,
        ..s
    }
}

/// The rounds from `round` on.
pub open spec fn query_rounds<F: MerkleField, EF: TwoAdicExtension<F>>(
    c: Iopp<F, EF>,
    sums: Seq<(usize, EF)>,
    openings: Seq<CommitPhaseProofStep<F, EF>>,
    s: QueryState<EF>,
    round: nat,
) -> Result<QueryState<EF>, BaseFoldError>
    decreases query::committed(c, openings.len()) - round,
{
    if round >= query::committed(c, openings.len()) {
        Ok(s)
    } else {
        let m = joined(s, sums, c.betas, c.log_len(round));
        let step = openings[round as int];
        let row = query::pair_row(m, step.sibling_value);
        if !ext_mmcs::accepts_row::<F, EF>(
            c.rounds,
            c.oracles[round as int],
            pow2((c.log_len(round) - 1) as nat),
            m.query as nat / 2,
            row,
            mmcs::rows_of(step.opening_proof@),
        ) {
            Err(BaseFoldError::CommitPhaseMmcsError)
        } else {
            query_rounds(
                c,
                sums,
                openings,
                folded_pair(m, row, c.log_len(round), c.challenges[round as int]),
                round + 1,
            )
        }
    }
}

/// The verdict on a query, which is folded through all rounds.
pub open spec fn query_verdict<F: MerkleField, EF: TwoAdicExtension<F>>(
    c: Iopp<F, EF>,
    sums: Seq<(usize, EF)>,
    openings: Seq<CommitPhaseProofStep<F, EF>>,
    query: usize,
) -> Result<(), BaseFoldError> {
    match query_rounds(c, sums, openings, query::started(query), 0) {
        Err(e) => Err(e),
        Ok(s) => if s.folded != c.expected || query::committed(c, openings.len())
            < c.num_vars() {
            Err(BaseFoldError::FinalPolyMismatch)
        } else {
            Ok(())
        },
    }
}

/// The verdict on a query with the rows of the committed matrices.
pub open spec fn batch_verdict<F: MerkleField, EF: TwoAdicExtension<F>>(
    c: Iopp<F, EF>,
    roots: Seq<Seq<F>>,
    sizes: Seq<Seq<nat>>,
    groups: Seq<GroupModel<EF>>,
    query_proof: QueryProof<F, EF>,
    leaf_openings: Seq<BatchOpening<F>>,
    query_point: usize,
) -> Result<(), BaseFoldError> {
    if !batch::leaves_accepted(
        c.rounds,
        c.log_blowup,
        c.num_vars(),
        roots,
        sizes,
        leaf_openings,
        query_point as nat,
    ) {
        Err(BaseFoldError::CommitmentCheckFailed)
    } else if !batch::rows_fit(groups, batch::opening_rows(leaf_openings)) {
        Err(BaseFoldError::InvalidInputError)
    } else {
        query_verdict(
            c,
            batch::leaf_sums(groups, batch::opening_rows(leaf_openings), c.log_blowup),
            query_proof.commit_phase_openings@,
            query_point,
        )
    }
}

/// Joins the height whose codewords have length `2^log_len`, where there is one.
fn join_height<EF: Field>(
    s: QueryState<EF>,
    sums: &Vec<(usize, EF)>,
    challenges: &Vec<EF>,
    log_len: usize,
) -> (r: QueryState<EF>)
    requires
        query::sums_wf(sums@, challenges@),
        s.folded.valid(),
    ensures
        r == joined(s, sums@, challenges@, log_len as nat),
        r.query == s.query,
        r.folded.valid(),
{
    broadcast use algebra::group_valid;

    if s.merges < sums.len() {
        let (height, sum) = sums[s.merges];
        if height == log_len {
            let challenge: EF = if s.merges == 0 {
                EF::one()
            } else {
                challenges[s.merges - 1]
            };
            let folded: EF = s.folded.add(challenge.mul(sum.sub(s.folded)));
            return QueryState { folded, merges: s.merges + 1, eq: s.eq, query: s.query };
        }
    }
    s
}

/// What the queries are checked against fits the field and the machine.
pub open spec fn iopp_fits<F: MerkleField, EF: TwoAdicExtension<F>>(c: Iopp<F, EF>) -> bool {
    &&& c.num_vars() + c.log_blowup <= EF::two_adicity()
    &&& c.num_vars() + c.log_blowup < usize::BITS
    &&& mmcs::are_digests(c.oracles)
    &&& field::all_valid(c.challenges)
}

impl<F: MerkleField> BaseFoldPcs<F> {
    /// What the queries are checked against where the heights are joined by interpolation.
    pub open spec fn joined_iopp<EF>(
        self,
        oracles: Seq<Vec<F>>,
        challenges: Seq<EF>,
        merging: Seq<EF>,
        expected: EF,
    ) -> Iopp<F, EF> {
        self.iopp(oracles, challenges, merging, Seq::empty(), expected, None)
    }

    /// Checks a query: joins each height where it enters, checks the opening of the pair of
    /// codeword entries, and folds the pair.
    pub fn verify_iopp_query_p3<EF: TwoAdicExtension<F>>(
        &self,
        iopp_commitments: &Vec<Vec<F>>,
        query_point: usize,
        leaf_sums: &Vec<(usize, EF)>,
        query_proof: &QueryProof<F, EF>,
        folding_challenges: &Vec<EF>,
        merging_challenges: &Vec<EF>,
        expected_final_value: &EF,
    ) -> (r: Result<(), BaseFoldError>)
        requires
            iopp_fits(
                self.joined_iopp(
                    iopp_commitments@,
                    folding_challenges@,
                    merging_challenges@,
                    *expected_final_value,
                ),
            ),
            query::sums_wf(leaf_sums@, merging_challenges@),
            query::steps_wf(query_proof.commit_phase_openings@),
            query_point < pow2(folding_challenges@.len() + self.fri.log_blowup as nat),
            2 * EF::degree() <= usize::MAX,
        ensures
            r == query_verdict(
                self.joined_iopp(
                    iopp_commitments@,
                    folding_challenges@,
                    merging_challenges@,
                    *expected_final_value,
                ),
                leaf_sums@,
                query_proof.commit_phase_openings@,
                query_point,
            ),
    {
        let ghost c = self.joined_iopp(
            iopp_commitments@,
            folding_challenges@,
            merging_challenges@,
            *expected_final_value,
        );
        let openings: &Vec<CommitPhaseProofStep<F, EF>> = &query_proof.commit_phase_openings;
        let num_vars: usize = folding_challenges.len();
        let log_blowup: usize = self.fri.log_blowup;
        let mut limit: usize = num_vars;
        if iopp_commitments.len() < limit {
            limit = iopp_commitments.len();
        }
        if openings.len() < limit {
            limit = openings.len();
        }
        let mut s: QueryState<EF> = QueryState {
            folded: EF::zero(),
            merges: 0,
            eq: EF::one(),
            query: query_point,
        };
        let ghost goal = query_rounds(c, leaf_sums@, openings@, query::started(query_point), 0);
        let mut round: usize = 0;
        proof {
            lemma2_to64();
            EF::law_constants();
        }
        while round < limit
            invariant
                round <= limit,
                limit == query::committed(c, openings@.len()),
                c == self.joined_iopp(
                    iopp_commitments@,
                    folding_challenges@,
                    merging_challenges@,
                    *expected_final_value,
                ),
                iopp_fits(c),
                num_vars == folding_challenges@.len(),
                log_blowup == self.fri.log_blowup,
                openings@ == query_proof.commit_phase_openings@,
                query::steps_wf(openings@),
                query::sums_wf(leaf_sums@, merging_challenges@),
                2 * EF::degree() <= usize::MAX,
                goal == query_rounds(c, leaf_sums@, openings@, s, round as nat),
                goal == query_rounds(c, leaf_sums@, openings@, query::started(query_point), 0),
                s.folded.valid(),
                s.query < pow2(c.log_len(round as nat)),
            decreases limit - round,
        {
            let log_len: usize = num_vars + log_blowup - round;
            let m: QueryState<EF> = join_height(s, leaf_sums, merging_challenges, log_len);
            let step: &CommitPhaseProofStep<F, EF> = &openings[round];
            let row: Vec<EF> = if m.query % 2 == 0 {
                vec![m.folded, step.sibling_value]
            } else {
                vec![step.sibling_value, m.folded]
            };
            proof {
                assert(row@ =~= query::pair_row(m, step.sibling_value));
                assert(openings@[round as int].sibling_value.valid());
                query::lemma_halved(s.query as nat, log_len as nat);
                if log_len - 1 < usize::BITS - 1 {
                    lemma_pow2_strictly_increases(
                        (log_len - 1) as nat,
                        (usize::BITS - 1) as nat,
                    );
                }
                assert(c.oracles[round as int] == iopp_commitments@[round as int]@);
                assert(mmcs::is_digest(c.oracles[round as int]));
            }
            let height: usize = bits::two_to_the(log_len - 1);
            if !verify_row(
                &self.permutation,
                &iopp_commitments[round],
                height,
                m.query / 2,
                &row,
                &step.opening_proof,
            ) {
                return Err(BaseFoldError::CommitPhaseMmcsError);
            }
            let folded: EF = fold_pair(
                row[0],
                row[1],
                m.query / 2,
                log_len - 1,
                folding_challenges[round],
            );
            s = QueryState { folded, merges: m.merges, eq: m.eq, query: m.query / 2 };
            proof {
                broadcast use algebra::group_valid;

                assert(s == folded_pair(
                    m,
                    row@,
                    log_len as nat,
                    folding_challenges@[round as int],
                ));
            }
            round += 1;
        }
        if !s.folded.is_equal(expected_final_value) || limit < num_vars {
            return Err(BaseFoldError::FinalPolyMismatch);
        }
        Ok(())
    }

    /// Checks a query: the opened rows of each batch, and the folding of their combinations.
    pub fn verify_query_p3_batch<EF: TwoAdicExtension<F>>(
        &self,
        commitments: &Vec<Vec<F>>,
        iopp_commitments: &Vec<Vec<F>>,
        query_point: usize,
        matrices_size_batch: &Vec<Vec<Dimensions>>,
        query_proof: &QueryProof<F, EF>,
        leaf_openings: &Vec<BatchOpening<F>>,
        groups: &Vec<HeightGroup<EF>>,
        folding_challenges: &Vec<EF>,
        merging_challenges: &Vec<EF>,
        expected_final_value: &EF,
    ) -> (r: Result<(), BaseFoldError>)
        requires
            mmcs::are_digests(mmcs::rows_of(commitments@)),
            batch::sizes_wf(batch::size_heights(matrices_size_batch@), folding_challenges@.len()),
            batch::openings_canonical(leaf_openings@),
            batch::groups_wf(
                batch::group_models(groups@),
                folding_challenges@.len(),
                merging_challenges@.len(),
            ),
            iopp_fits(
                self.joined_iopp(
                    iopp_commitments@,
                    folding_challenges@,
                    merging_challenges@,
                    *expected_final_value,
                ),
            ),
            query::steps_wf(query_proof.commit_phase_openings@),
            query_point < pow2(folding_challenges@.len() + self.fri.log_blowup as nat),
            2 * EF::degree() <= usize::MAX,
        ensures
            r == batch_verdict(
                self.joined_iopp(
                    iopp_commitments@,
                    folding_challenges@,
                    merging_challenges@,
                    *expected_final_value,
                ),
                mmcs::rows_of(commitments@),
                batch::size_heights(matrices_size_batch@),
                batch::group_models(groups@),
                *query_proof,
                leaf_openings@,
                query_point,
            ),
    {
        if !self.verify_leaf_openings(
            commitments,
            query_point,
            matrices_size_batch,
            folding_challenges.len(),
            leaf_openings,
        ) {
            return Err(BaseFoldError::CommitmentCheckFailed);
        }
        let sums: Vec<(usize, EF)> = match self.opening_sums(
            groups,
            leaf_openings,
            folding_challenges.len(),
            merging_challenges,
        ) {
            None => {
                return Err(BaseFoldError::InvalidInputError);
            },
            Some(sums) => sums,
        };
        self.verify_iopp_query_p3(
            iopp_commitments,
            query_point,
            &sums,
            query_proof,
            folding_challenges,
            merging_challenges,
            expected_final_value,
        )
    }
}

} // verus!
