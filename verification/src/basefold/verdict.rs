//! The verdict on an opening of committed polynomials.
use vstd::prelude::*;
use vstd::arithmetic::power2::*;
use crate::basefold::batch;
use crate::basefold::batch::GroupModel;
use crate::basefold::challenger::Transcript;
use crate::basefold::encode;
use crate::basefold::eqpoly;
use crate::basefold::ext_mmcs;
use crate::basefold::groups;
use crate::basefold::mmcs;
use crate::basefold::mmcs::{Dimensions, MerkleField};
use crate::basefold::openings::{BaseFoldError, BasefoldProof, PrunedQueryOpenings};
use crate::basefold::pcs::BaseFoldPcs;
use crate::basefold::poseidon::Rounds;
use crate::basefold::pruned;
use crate::basefold::pruned_groups;
use crate::basefold::query;
use crate::basefold::query::Iopp;
use crate::basefold::rounds;
use crate::basefold::rounds::Plan;
use crate::basefold::schedule;
use crate::basefold::schedule::CommitGroup;
use crate::bits;
use crate::field;
use crate::field::{ExtensionField, Field, TwoAdicExtension};

verus! {

/// The opened rows of the committed matrices that belong to a query.
pub open spec fn rows_for_query<F>(opened: PrunedQueryOpenings<F>, q: int) -> Seq<Seq<Seq<F>>> {
    Seq::new(
        opened.round_opened_values@.len(),
        |b: int|
            mmcs::rows_of(
                opened.round_opened_values@[b]@[opened.query_to_unique_slot@[b]@[q] as int]@,
            ),
    )
}

/// The opened rows of one batch are accepted, and every query has its place among them.
pub open spec fn input_accepted<F: MerkleField>(
    rounds: Rounds<F>,
    log_blowup: nat,
    roots: Seq<Seq<F>>,
    sizes: Seq<Seq<nat>>,
    queries: nat,
    opened: PrunedQueryOpenings<F>,
    b: int,
) -> bool {
    let slots = opened.query_to_unique_slot@[b]@;
    let rows = opened.round_opened_values@[b]@;
    &&& slots.len() == queries
    &&& forall|q: int| 0 <= q < slots.len() ==> (#[trigger] slots[q]) < rows.len()
    &&& F::accepts_pruned(
        rounds,
        roots[b],
        batch::blown_up(sizes[b], log_blowup),
        mmcs::row_sets_of(rows),
        opened.round_pruned@[b]@,
    )
}

/// The opened rows of every batch are accepted.
pub open spec fn inputs_accepted<F: MerkleField>(
    rounds: Rounds<F>,
    log_blowup: nat,
    roots: Seq<Seq<F>>,
    sizes: Seq<Seq<nat>>,
    queries: nat,
    opened: PrunedQueryOpenings<F>,
) -> bool {
    forall|b: int|
        0 <= b < sizes.len() ==> #[trigger] input_accepted(
            rounds,
            log_blowup,
            roots,
            sizes,
            queries,
            opened,
            b,
        )
}

/// There are openings for every batch.
pub open spec fn input_lens_match<F>(opened: PrunedQueryOpenings<F>, batches: nat) -> bool {
    &&& opened.round_pruned@.len() == batches
    &&& opened.round_opened_values@.len() == batches
    &&& opened.query_to_unique_slot@.len() == batches
}

/// The linear combinations of the opened rows of all queries.
pub open spec fn pruned_sums<F: Field, EF: ExtensionField<F>>(
    groups: Seq<GroupModel<EF>>,
    opened: PrunedQueryOpenings<F>,
    queries: nat,
    log_blowup: nat,
) -> Seq<Seq<(usize, EF)>> {
    Seq::new(
        queries,
        |q: int| batch::leaf_sums(groups, rows_for_query(opened, q), log_blowup),
    )
}

/// The opened rows of every query are there for the groups.
pub open spec fn pruned_rows_fit<F: Field, EF: ExtensionField<F>>(
    groups: Seq<GroupModel<EF>>,
    opened: PrunedQueryOpenings<F>,
    queries: nat,
) -> bool {
    forall|q: int|
        0 <= q < queries ==> batch::rows_fit(groups, #[trigger] rows_for_query(opened, q))
}

/// The matrix whose entries are all the same.
pub open spec fn constant_matrix<F: MerkleField, EF: TwoAdicExtension<F>>(
    value: EF,
    log_blowup: nat,
) -> mmcs::MatrixModel<F> {
    ext_mmcs::ext_matrix::<F, EF>(Seq::new(pow2(log_blowup), |i: int| value), 2)
}

/// The row lengths fit the numbers of values: one element or one set of coordinates for each.
pub open spec fn widths_fit<F, EF>(
    degree: nat,
    rows: Seq<Seq<Seq<F>>>,
    values: Seq<Seq<Seq<EF>>>,
) -> bool {
    forall|b: int, m: int|
        0 <= b < rows.len() && b < values.len() && 0 <= m < rows[b].len() && m < values[b].len()
            ==> (#[trigger] rows[b][m]).len() == values[b][m].len() || rows[b][m].len()
            == values[b][m].len() * degree
}

impl<F: MerkleField> BaseFoldPcs<F> {
    /// The parts of the proof that are there are those that the scheme makes.
    pub open spec fn modes_match<EF>(self, p: BasefoldProof<F, EF>) -> bool {
        let both = p.iopp_cross_round_pruned is Some;
        let cross = p.iopp_cross_round@.len() > 0;
        let paths = p.iopp_pruned is Some;
        let inputs = p.query_openings.pruned is Some;
        &&& (paths || both) == inputs
        &&& !(both && cross) && !(both && paths) && !(cross && paths)
        &&& if both {
            self.use_cross_round && self.use_path_pruning
        } else {
            !(cross && inputs) && cross == self.use_cross_round
        }
    }

    /// The number of variables at which the folding stops.
    pub open spec fn stop(self, heights: Seq<nat>) -> nat {
        let low = heights.last();
        if self.fri.log_final_poly_len <= low {
            self.fri.log_final_poly_len as nat
        } else {
            low
        }
    }

    /// The groups of rounds that share a commitment.
    pub open spec fn schedule_of<EF>(
        self,
        heights: Seq<nat>,
        num_vars: nat,
        p: BasefoldProof<F, EF>,
    ) -> Seq<CommitGroup> {
        schedule::commit_schedule(
            Seq::new(heights.len(), |i: int| heights[i] as usize),
            num_vars,
            self.stop(heights),
            p.iopp_cross_round@.len() > 0 || p.iopp_cross_round_pruned is Some,
            schedule::max_log_folding_of(self.max_fold_override) as nat,
        )
    }

    /// Where the openings are given query by query, there is one for each query.
    pub open spec fn every_query_opened<EF>(self, p: BasefoldProof<F, EF>) -> bool {
        let answers = if p.iopp_cross_round@.len() > 0 {
            p.iopp_cross_round@.len()
        } else {
            p.iopp_queries@.len()
        };
        &&& p.query_openings.per_query@.len() == self.fri.num_queries
        &&& answers == self.fri.num_queries
    }

    /// There is a root for each group of rounds; where the folding stops early, the rounds before
    /// are opened.
    pub open spec fn openings_reach<EF>(
        self,
        oracles: nat,
        num_vars: nat,
        k: nat,
        schedule: nat,
        p: BasefoldProof<F, EF>,
    ) -> bool {
        if p.iopp_cross_round@.len() > 0 || p.iopp_cross_round_pruned is Some {
            oracles >= schedule
        } else if k == 0 {
            true
        } else if p.iopp_pruned is Some {
            oracles + k >= num_vars
        } else {
            forall|q: int|
                0 <= q < p.iopp_queries@.len() ==> enough_openings(
                    (#[trigger] p.iopp_queries@[q]).commit_phase_openings@.len(),
                    oracles,
                    num_vars,
                    k,
                )
        }
    }

    /// The verdict on the queries, where the folding stops at `k` variables.
    pub open spec fn queries_verdict<EF: TwoAdicExtension<F>>(
        self,
        c: Iopp<F, EF>,
        roots: Seq<Seq<F>>,
        sizes: Seq<Seq<nat>>,
        groups: Seq<GroupModel<EF>>,
        k: nat,
        schedule: Seq<CommitGroup>,
        p: BasefoldProof<F, EF>,
        queries: Seq<usize>,
    ) -> Result<(), BaseFoldError> {
        let refused: Result<(), BaseFoldError> = Err(BaseFoldError::FriFinalStepMisMatch);
        if p.iopp_cross_round_pruned is Some || p.iopp_pruned is Some {
            let opened = p.query_openings.pruned->0;
            if !input_lens_match(opened, sizes.len()) {
                Err(BaseFoldError::InvalidInputError)
            } else if !inputs_accepted(
                c.rounds,
                c.log_blowup,
                roots,
                sizes,
                queries.len(),
                opened,
            ) {
                refused
            } else if !pruned_rows_fit(groups, opened, queries.len()) || !self.openings_reach(
                c.oracles.len(),
                c.num_vars(),
                k,
                schedule.len(),
                p,
            ) {
                refused
            } else {
                let sums = pruned_sums(groups, opened, queries.len(), c.log_blowup);
                let verdict = if p.iopp_cross_round_pruned is Some {
                    pruned_groups::pruned_groups_verdict(
                        c,
                        queries,
                        sums,
                        schedule,
                        p.iopp_cross_round_pruned->0,
                    )
                } else {
                    pruned::pruned_verdict(c, queries, sums, p.iopp_pruned->0)
                };
                if verdict is Ok {
                    Ok(())
                } else {
                    refused
                }
            }
        } else if !self.every_query_opened(p) || !self.openings_reach(
            c.oracles.len(),
            c.num_vars(),
            k,
            schedule.len(),
            p,
        ) {
            Err(BaseFoldError::InvalidInputError)
        } else if p.iopp_cross_round@.len() > 0 {
            if forall|q: int|
                0 <= q < queries.len() ==> (#[trigger] cross_verdict_at(
                    c,
                    roots,
                    sizes,
                    groups,
                    schedule,
                    p,
                    queries,
                    q,
                )) is Ok {
                Ok(())
            } else {
                refused
            }
        } else {
            if forall|q: int|
                0 <= q < queries.len() ==> (#[trigger] batch_verdict_at(
                    c,
                    roots,
                    sizes,
                    groups,
                    p,
                    queries,
                    q,
                )) is Ok {
                Ok(())
            } else {
                refused
            }
        }
    }

    /// The verdict after the rounds of the sumcheck, and the transcript then.
    pub open spec fn finish_outcome<EF: TwoAdicExtension<F>>(
        self,
        roots: Seq<Seq<F>>,
        sizes: Seq<Seq<nat>>,
        point: Seq<EF>,
        groups: Seq<GroupModel<EF>>,
        heights: Seq<nat>,
        p: BasefoldProof<F, EF>,
        s: rounds::RoundState<F, EF>,
    ) -> (Result<(), BaseFoldError>, Transcript<F>) {
        let t = s.transcript;
        let k = self.stop(heights);
        let low = heights.last() as int;
        let eq_sum = eqpoly::eq_eval(point.take(low), s.challenges.reverse().take(low));
        let value = field::quotient(s.claim, eq_sum);
        let log_blowup = self.fri.log_blowup as nat;
        let root = F::root(self.rounds(), seq![constant_matrix::<F, EF>(value, log_blowup)]);
        let oracles = mmcs::rows_of(p.iopp_oracles@);
        let t2 = t.observed(p.grinding_query_witness@[0]);
        let t3 = t2.checked_witness(p.grinding_query_witness@[1]);
        if eq_sum == EF::zero_elem() {
            (Err(BaseFoldError::VanishingEqSum), t)
        } else if k == 0 && !(oracles.len() > 0 && oracles.last() == root) {
            (Err(BaseFoldError::CommitmentCheckFailed), t)
        } else if !t2.accepts_witness(
            self.fri.grinding_bits_query as nat,
            p.grinding_query_witness@[1],
        ) {
            (Err(BaseFoldError::InvalidPowWitness), t3)
        } else {
            let bits = s.challenges.len() + log_blowup;
            let queries = t3.next_bits_n(bits, self.fri.num_queries as nat);
            let c = Iopp {
                rounds: self.rounds(),
                log_blowup,
                oracles,
                challenges: s.challenges,
                betas: s.betas,
                point,
                expected: value,
                final_codeword: if k > 0 {
                    Some(encode::encoded(p.final_poly@, log_blowup))
                } else {
                    None
                },
            };
            (
                self.queries_verdict(
                    c,
                    roots,
                    sizes,
                    groups,
                    k,
                    self.schedule_of(heights, s.challenges.len(), p),
                    p,
                    queries,
                ),
                t3.sampled_n(self.fri.num_queries as nat),
            )
        }
    }

    /// What the rounds of the sumcheck are checked against.
    pub open spec fn plan_of<EF: TwoAdicExtension<F>>(
        self,
        num_vars: nat,
        heights: Seq<nat>,
        groups: Seq<GroupModel<EF>>,
        p: BasefoldProof<F, EF>,
    ) -> Plan<F, EF> {
        Plan {
            num_vars,
            k: self.stop(heights),
            schedule: self.schedule_of(heights, num_vars, p),
            oracles: mmcs::rows_of(p.iopp_oracles@),
            final_poly: p.final_poly@,
            polys: rounds::poly_coeffs(p.sumcheck_transcript.uni_polys@),
            groups,
        }
    }

    /// The openings of the groups of rounds are as many as the groups.
    pub open spec fn group_lens_match<EF>(self, schedule: nat, p: BasefoldProof<F, EF>) -> bool {
        &&& forall|q: int|
            0 <= q < p.iopp_cross_round@.len() ==> (
            #[trigger] p.iopp_cross_round@[q]).group_openings@.len() == schedule
        &&& (p.iopp_cross_round_pruned matches Some(x) ==> x.group_pruned@.len() == schedule
            && x.group_opened_rows@.len() == schedule)
    }

    /// The verdict after the batching challenge, and the transcript then.
    pub open spec fn rounds_outcome<EF: TwoAdicExtension<F>>(
        self,
        roots: Seq<Seq<F>>,
        sizes: Seq<Seq<nat>>,
        point: Seq<EF>,
        groups: Seq<GroupModel<EF>>,
        p: BasefoldProof<F, EF>,
        t: Transcript<F>,
    ) -> (Result<(), BaseFoldError>, Transcript<F>) {
        let num_vars = point.len();
        let heights = groups::group_heights(sizes, num_vars + 1);
        let k = self.stop(heights);
        let plan = self.plan_of(num_vars, heights, groups, p);
        if heights.len() == 0 || heights[0] != num_vars {
            (Err(BaseFoldError::SumcheckPhaseError), t)
        } else if k > 0 && p.final_poly@.len() != pow2(k) {
            (Err(BaseFoldError::InvalidInputError), t)
        } else if !self.group_lens_match(plan.schedule.len(), p) {
            (Err(BaseFoldError::InvalidInputError), t)
        } else {
            let (s, error) = rounds::rounds_from(plan, rounds::first_state(plan, t), num_vars);
            match error {
                Some(e) => (Err(e), s.transcript),
                None => self.finish_outcome(roots, sizes, point, groups, heights, p, s),
            }
        }
    }

    /// The verdict on a proof, and the transcript then.
    pub open spec fn verify_outcome<EF: TwoAdicExtension<F>>(
        self,
        roots: Seq<Seq<F>>,
        dims: Seq<Vec<Dimensions>>,
        point: Seq<EF>,
        values: Seq<Vec<Vec<EF>>>,
        p: BasefoldProof<F, EF>,
        t: Transcript<F>,
    ) -> (Result<(), BaseFoldError>, Transcript<F>) {
        let sizes = batch::size_heights(dims);
        let vals = mmcs::row_sets_of(values);
        let t1 = t.sampled_ext::<EF>();
        let t2 = t1.observed(p.grinding_batching_witness@[0]);
        let t3 = t2.checked_witness(p.grinding_batching_witness@[1]);
        if !groups::inputs_match(
            EF::degree(),
            roots.len(),
            groups::all_widths(dims),
            groups::value_lens(values),
        ) || !self.modes_match(p) || p.grinding_batching_witness@.len() != 2
            || p.grinding_query_witness@.len() != 2 {
            (Err(BaseFoldError::InvalidInputError), t)
        } else if !t2.accepts_witness(
            self.fri.grinding_bits_batching as nat,
            p.grinding_batching_witness@[1],
        ) {
            (Err(BaseFoldError::InvalidPowWitness), t3)
        } else {
            self.rounds_outcome(
                roots,
                sizes,
                point,
                groups::groups_below(sizes, vals, t.next_ext::<EF>(), 0, point.len() + 1),
                p,
                t3,
            )
        }
    }

    /// The numbers in the proof are canonical.
    pub open spec fn proof_canonical<EF: TwoAdicExtension<F>>(self, p: BasefoldProof<F, EF>) -> bool {
        &&& rounds::polys_wf(rounds::poly_coeffs(p.sumcheck_transcript.uni_polys@))
        &&& mmcs::are_digests(mmcs::rows_of(p.iopp_oracles@))
        &&& field::all_valid(p.grinding_batching_witness@)
        &&& field::all_valid(p.grinding_query_witness@)
        &&& field::all_valid(p.final_poly@)
        &&& forall|q: int|
            0 <= q < p.iopp_queries@.len() ==> query::steps_wf(
                (#[trigger] p.iopp_queries@[q]).commit_phase_openings@,
            )
        &&& forall|q: int|
            0 <= q < p.iopp_cross_round@.len() ==> query::group_steps_wf(
                (#[trigger] p.iopp_cross_round@[q]).group_openings@,
            )
        &&& forall|q: int|
            0 <= q < p.query_openings.per_query@.len() ==> batch::openings_canonical(
                (#[trigger] p.query_openings.per_query@[q])@,
            )
        &&& (p.out_of_domain_responses matches Some(x) ==> field::all_valid(x@))
        &&& (p.iopp_pruned matches Some(x) ==> pruned::proofs_wf(x.round_pruned_proofs@)
            && mmcs::rows_valid(mmcs::rows_of(x.sibling_values@)))
        &&& (p.iopp_cross_round_pruned matches Some(x) ==> pruned::proofs_wf(x.group_pruned@)
            && mmcs::row_sets_valid(mmcs::row_sets_of(x.group_opened_rows@)))
        &&& (p.query_openings.pruned matches Some(x) ==> pruned::proofs_wf(x.round_pruned@)
            && forall|b: int|
            0 <= b < x.round_opened_values@.len() ==> mmcs::row_sets_valid(
                mmcs::row_sets_of((#[trigger] x.round_opened_values@[b])@),
            ))
    }

    /// Where the folding stops early, the last polynomial can be encoded.
    pub open spec fn stop_fits<EF: TwoAdicExtension<F>>(
        self,
        sizes: Seq<Seq<nat>>,
        num_vars: nat,
    ) -> bool {
        let heights = groups::group_heights(sizes, num_vars + 1);
        let k = self.stop(heights);
        heights.len() > 0 && k > 0 ==> k + self.fri.log_blowup <= F::two_adicity()
    }
}

/// The rounds before the last `k` are opened, or all are.
pub open spec fn enough_openings(openings: nat, oracles: nat, num_vars: nat, k: nat) -> bool {
    openings >= num_vars || (openings + k >= num_vars && oracles + k >= num_vars)
}

pub open spec fn batch_verdict_at<F: MerkleField, EF: TwoAdicExtension<F>>(
    c: Iopp<F, EF>,
    roots: Seq<Seq<F>>,
    sizes: Seq<Seq<nat>>,
    groups: Seq<GroupModel<EF>>,
    p: BasefoldProof<F, EF>,
    queries: Seq<usize>,
    q: int,
) -> Result<(), BaseFoldError> {
    batch::batch_query_verdict(
        c,
        roots,
        sizes,
        groups,
        p.iopp_queries@[q],
        p.query_openings.per_query@[q]@,
        queries[q],
    )
}

pub open spec fn cross_verdict_at<F: MerkleField, EF: TwoAdicExtension<F>>(
    c: Iopp<F, EF>,
    roots: Seq<Seq<F>>,
    sizes: Seq<Seq<nat>>,
    groups: Seq<GroupModel<EF>>,
    schedule: Seq<CommitGroup>,
    p: BasefoldProof<F, EF>,
    queries: Seq<usize>,
    q: int,
) -> Result<(), BaseFoldError> {
    batch::cross_query_verdict(
        c,
        roots,
        sizes,
        groups,
        schedule,
        p.iopp_cross_round@[q],
        p.query_openings.per_query@[q]@,
        queries[q],
    )
}

} // verus!
