//! The verifier of the scheme with values out of the domain.
use vstd::prelude::*;
use vstd::arithmetic::power2::*;
use crate::basefold::batch;
use crate::basefold::batch::{GroupModel, HeightGroup};
use crate::basefold::challenger::{DuplexChallenger, Transcript};
use crate::basefold::ext_mmcs::commit_matrix;
use crate::basefold::groups;
use crate::basefold::groups::{group_by_height, validate_verify_inputs};
use crate::basefold::mmcs;
use crate::basefold::mmcs::{Dimensions, MerkleField};
use crate::basefold::openings::{BaseFoldError, BasefoldProof};
use crate::basefold::pcs::BaseFoldPcs;
use crate::basefold::query;
use crate::basefold::query::Iopp;
use crate::basefold::rounds;
use crate::basefold::verdict;
use crate::basefold::verification::same_digest;
use crate::basefold::whir_query;
use crate::basefold::whir_rounds;
use crate::basefold::whir_rounds::{combine_eq, verify_whir_rounds, WhirPlan, WhirResult, WhirState};
use crate::bits;
use crate::field;
use crate::field::algebra;
use crate::field::TwoAdicExtension;

verus! {

/// The verdict on the query number `q`.
pub open spec fn verdict_at<F: MerkleField, EF: TwoAdicExtension<F>>(
    c: Iopp<F, EF>,
    roots: Seq<Seq<F>>,
    sizes: Seq<Seq<nat>>,
    groups: Seq<GroupModel<EF>>,
    p: BasefoldProof<F, EF>,
    queries: Seq<usize>,
    q: int,
) -> Result<(), BaseFoldError> {
    whir_query::batch_verdict(
        c,
        roots,
        sizes,
        groups,
        p.iopp_queries@[q],
        p.query_openings.per_query@[q]@,
        queries[q],
    )
}

/// Every query is accepted.
pub open spec fn queries_accepted<F: MerkleField, EF: TwoAdicExtension<F>>(
    c: Iopp<F, EF>,
    roots: Seq<Seq<F>>,
    sizes: Seq<Seq<nat>>,
    groups: Seq<GroupModel<EF>>,
    p: BasefoldProof<F, EF>,
    queries: Seq<usize>,
) -> bool {
    forall|q: int|
        0 <= q < queries.len() ==> (#[trigger] verdict_at(c, roots, sizes, groups, p, queries, q))
            is Ok
}

/// The values out of the domain.
pub open spec fn responses_of<F, EF>(p: BasefoldProof<F, EF>) -> Seq<EF> {
    match p.out_of_domain_responses {
        Some(v) => v@,
        None => Seq::empty(),
    }
}

impl<F: MerkleField> BaseFoldPcs<F> {
    /// What the rounds of the sumcheck are checked against.
    pub open spec fn whir_plan<EF: TwoAdicExtension<F>>(
        self,
        num_vars: nat,
        groups: Seq<GroupModel<EF>>,
        p: BasefoldProof<F, EF>,
    ) -> WhirPlan<F, EF> {
        WhirPlan {
            num_vars,
            oracles: mmcs::rows_of(p.iopp_oracles@),
            responses: responses_of(p),
            polys: rounds::poly_coeffs(p.sumcheck_transcript.uni_polys@),
            groups,
        }
    }

    /// The verdict after the rounds of the sumcheck, and the transcript then.
    pub open spec fn whir_finish<EF: TwoAdicExtension<F>>(
        self,
        roots: Seq<Seq<F>>,
        sizes: Seq<Seq<nat>>,
        point: Seq<EF>,
        groups: Seq<GroupModel<EF>>,
        p: BasefoldProof<F, EF>,
        s: WhirState<F, EF>,
    ) -> (Result<(), BaseFoldError>, Transcript<F>) {
        let t = s.transcript;
        let eq_sum = whir_rounds::combined_eq(point, groups, s, point.len());
        let value = field::quotient(s.claim, eq_sum);
        let log_blowup = self.fri.log_blowup as nat;
        let root = F::root(
            self.rounds(),
            seq![verdict::constant_matrix::<F, EF>(value, log_blowup)],
        );
        let oracles = mmcs::rows_of(p.iopp_oracles@);
        let t2 = t.observed(p.grinding_query_witness@[0]);
        let t3 = t2.checked_witness(p.grinding_query_witness@[1]);
        if eq_sum == EF::zero_elem() {
            (Err(BaseFoldError::VanishingEqSum), t)
        } else if oracles.last() != root {
            (Err(BaseFoldError::CommitmentCheckFailed), t)
        } else if !t2.accepts_witness(
            self.fri.grinding_bits_query as nat,
            p.grinding_query_witness@[1],
        ) {
            (Err(BaseFoldError::InvalidPowWitness), t3)
        } else {
            let queries = t3.next_bits_n(point.len() + log_blowup, self.fri.num_queries as nat);
            let c = self.joined_iopp(p.iopp_oracles@, s.challenges, s.merging, value);
            (
                if p.iopp_queries@.len() != self.fri.num_queries
                    || p.query_openings.per_query@.len() != self.fri.num_queries {
                    Err(BaseFoldError::InvalidInputError)
                } else if queries_accepted(c, roots, sizes, groups, p, queries) {
                    Ok(())
                } else {
                    Err(BaseFoldError::FriFinalStepMisMatch)
                },
                t3.sampled_n(self.fri.num_queries as nat),
            )
        }
    }

    /// The verdict on a proof, and the transcript then.
    pub open spec fn whir_outcome<EF: TwoAdicExtension<F>>(
        self,
        roots: Seq<Seq<F>>,
        dims: Seq<Vec<Dimensions>>,
        point: Seq<EF>,
        values: Seq<Vec<Vec<EF>>>,
        p: BasefoldProof<F, EF>,
        t: Transcript<F>,
    ) -> (Result<(), BaseFoldError>, Transcript<F>) {
        let sizes = batch::size_heights(dims);
        let vals = mmcs::row_sets_of(values);
        let num_vars = point.len();
        let groups = groups::groups_below(sizes, vals, t.next_ext::<EF>(), 0, num_vars + 1);
        let t1 = t.sampled_ext::<EF>();
        let t2 = t1.observed(p.grinding_batching_witness@[0]);
        let t3 = t2.checked_witness(p.grinding_batching_witness@[1]);
        let plan = self.whir_plan(num_vars, groups, p);
        if !groups::inputs_match(
            EF::degree(),
            roots.len(),
            groups::all_widths(dims),
            groups::value_lens(values),
        ) || p.query_openings.pruned is Some || p.out_of_domain_responses is None
            || p.grinding_batching_witness@.len() != 2 || p.grinding_query_witness@.len() != 2 {
            (Err(BaseFoldError::InvalidInputError), t)
        } else if !t2.accepts_witness(
            self.fri.grinding_bits_batching as nat,
            p.grinding_batching_witness@[1],
        ) {
            (Err(BaseFoldError::InvalidPowWitness), t3)
        } else if groups.len() == 0 || groups[0].log_height != num_vars {
            (Err(BaseFoldError::SumcheckPhaseError), t3)
        } else if p.iopp_oracles@.len() == 0 {
            (Err(BaseFoldError::InvalidInputError), t3)
        } else {
            let (s, error) = whir_rounds::rounds_from(
                plan,
                whir_rounds::first_state(plan, t3),
                num_vars,
            );
            match error {
                Some(e) => (Err(e), s.transcript),
                None => self.whir_finish(roots, sizes, point, groups, p, s),
            }
        }
    }

    /// Checks the queries.
    fn verify_whir_queries<EF: TwoAdicExtension<F>>(
        &self,
        commitments: &Vec<Vec<F>>,
        dims: &Vec<Vec<Dimensions>>,
        Ghost(values): Ghost<Seq<Seq<Seq<EF>>>>,
        Ghost(alpha): Ghost<EF>,
        groups: &Vec<HeightGroup<EF>>,
        p: &BasefoldProof<F, EF>,
        query_points: &Vec<usize>,
        challenges: &Vec<EF>,
        merging: &Vec<EF>,
        expected: &EF,
    ) -> (r: bool)
        requires
            whir_query::iopp_fits(
                self.joined_iopp(p.iopp_oracles@, challenges@, merging@, *expected),
            ),
            mmcs::are_digests(mmcs::rows_of(commitments@)),
            batch::sizes_wf(batch::size_heights(dims@), challenges@.len()),
            groups::values_shape(values, batch::size_heights(dims@)),
            batch::group_models(groups@) == groups::groups_below(
                batch::size_heights(dims@),
                values,
                alpha,
                0,
                challenges@.len() + 1,
            ),
            groups@.len() <= merging@.len() + 1,
            self.proof_canonical(*p),
            p.iopp_queries@.len() == query_points@.len(),
            p.query_openings.per_query@.len() == query_points@.len(),
            forall|q: int|
                0 <= q < query_points@.len() ==> (#[trigger] query_points@[q]) < pow2(
                    challenges@.len() + self.fri.log_blowup as nat,
                ),
            2 * EF::degree() <= usize::MAX,
        ensures
            r == queries_accepted(
                self.joined_iopp(p.iopp_oracles@, challenges@, merging@, *expected),
                mmcs::rows_of(commitments@),
                batch::size_heights(dims@),
                batch::group_models(groups@),
                *p,
                query_points@,
            ),
    {
        let ghost c = self.joined_iopp(p.iopp_oracles@, challenges@, merging@, *expected);
        let ghost roots = mmcs::rows_of(commitments@);
        let ghost sizes = batch::size_heights(dims@);
        let ghost models = batch::group_models(groups@);
        let num_vars: usize = challenges.len();
        proof {
            rounds::lemma_groups_below(sizes, values, alpha, 0, (num_vars + 1) as nat);
            assert(batch::groups_wf(models, num_vars as nat, merging@.len()));
        }
        let mut q: usize = 0;
        while q < query_points.len()
            invariant
                q <= query_points@.len(),
                p.iopp_queries@.len() == query_points@.len(),
                p.query_openings.per_query@.len() == query_points@.len(),
                c == self.joined_iopp(p.iopp_oracles@, challenges@, merging@, *expected),
                whir_query::iopp_fits(c),
                num_vars == challenges@.len(),
                roots == mmcs::rows_of(commitments@),
                sizes == batch::size_heights(dims@),
                models == batch::group_models(groups@),
                models == groups::groups_below(sizes, values, alpha, 0, (num_vars + 1) as nat),
                batch::groups_wf(models, num_vars as nat, merging@.len()),
                mmcs::are_digests(roots),
                batch::sizes_wf(sizes, num_vars as nat),
                groups::values_shape(values, sizes),
                self.proof_canonical(*p),
                forall|q: int|
                    0 <= q < query_points@.len() ==> (#[trigger] query_points@[q]) < pow2(
                        num_vars as nat + self.fri.log_blowup as nat,
                    ),
                2 * EF::degree() <= usize::MAX,
                forall|j: int|
                    0 <= j < q ==> (#[trigger] verdict_at(
                        c,
                        roots,
                        sizes,
                        models,
                        *p,
                        query_points@,
                        j,
                    )) is Ok,
            decreases query_points@.len() - q,
        {
            proof {
                let leaves = p.query_openings.per_query@[q as int]@;
                assert(batch::openings_canonical(leaves));
                assert(query::steps_wf(p.iopp_queries@[q as int].commit_phase_openings@));
                assert(query_points@[q as int] < pow2(
                    num_vars as nat + self.fri.log_blowup as nat,
                ));
            }
            let verdict: Result<(), BaseFoldError> = self.verify_query_p3_batch(
                commitments,
                &p.iopp_oracles,
                query_points[q],
                dims,
                &p.iopp_queries[q],
                &p.query_openings.per_query[q],
                groups,
                challenges,
                merging,
                expected,
            );
            assert(verdict == verdict_at(
                c,
                roots,
                sizes,
                models,
                *p,
                query_points@,
                q as int,
            ));
            if verdict.is_err() {
                return false;
            }
            q += 1;
        }
        true
    }

    /// Checks what follows the rounds of the sumcheck.
    fn finish_whir<EF: TwoAdicExtension<F>>(
        &self,
        commitments: &Vec<Vec<F>>,
        dims: &Vec<Vec<Dimensions>>,
        Ghost(values): Ghost<Seq<Seq<Seq<EF>>>>,
        Ghost(alpha): Ghost<EF>,
        Ghost(s): Ghost<WhirState<F, EF>>,
        groups: &Vec<HeightGroup<EF>>,
        p: &BasefoldProof<F, EF>,
        result: &WhirResult<EF>,
        point: &Vec<EF>,
        challenger: &mut DuplexChallenger<F>,
    ) -> (r: Result<(), BaseFoldError>)
        requires
            old(challenger)@.wf(),
            old(challenger)@ == s.transcript,
            whir_rounds::holds(*result, s),
            result.claim.valid(),
            field::all_valid(result.challenges@),
            result.challenges@.len() == point@.len(),
            result.alphas@.len() == point@.len(),
            result.gammas@.len() == point@.len(),
            groups@.len() == result.merging@.len() + 1,
            self.fits::<EF>(point@.len()),
            mmcs::are_digests(mmcs::rows_of(commitments@)),
            batch::sizes_wf(batch::size_heights(dims@), point@.len()),
            groups::values_shape(values, batch::size_heights(dims@)),
            batch::group_models(groups@) == groups::groups_below(
                batch::size_heights(dims@),
                values,
                alpha,
                0,
                point@.len() + 1,
            ),
            self.proof_canonical(*p),
            p.iopp_oracles@.len() > 0,
            p.grinding_query_witness@.len() == 2,
        ensures
            (r, final(challenger)@) == self.whir_finish(
                mmcs::rows_of(commitments@),
                batch::size_heights(dims@),
                point@,
                batch::group_models(groups@),
                *p,
                s,
            ),
            final(challenger)@.wf(),
    {
        let log_blowup: usize = self.fri.log_blowup;
        let num_vars: usize = point.len();
        let eq_sum: EF = combine_eq(point, groups, result, Ghost(s));
        let zero: EF = EF::zero();
        if eq_sum.is_equal(&zero) {
            return Err(BaseFoldError::VanishingEqSum);
        }
        let value: EF = field::divide(result.claim, eq_sum);
        proof {
            algebra::lemma_times_valid(result.claim, field::inverse(eq_sum));
        }
        let size: usize = bits::two_to_the(log_blowup);
        let mut word: Vec<EF> = Vec::new();
        let mut i: usize = 0;
        while i < size
            invariant
                i <= size,
                word@.len() == i,
                value.valid(),
                forall|j: int| 0 <= j < i ==> word@[j] == value,
            decreases size - i,
        {
            word.push(value);
            i += 1;
        }
        proof {
            let n = num_vars as nat;
            let b = log_blowup as nat;
            assert(word@ =~= Seq::new(pow2(b), |i: int| value));
            lemma_pow2_unfold(b);
            bits::lemma_log2_pow2((b - 1) as nat);
            if b - 1 < usize::BITS - 1 {
                lemma_pow2_strictly_increases((b - 1) as nat, (usize::BITS - 1) as nat);
            }
            if b < n + b {
                lemma_pow2_strictly_increases(b, n + b);
            }
            assert(pow2(b) * EF::degree() <= pow2(n + b) * EF::degree()) by (nonlinear_arith)
                requires
                    pow2(b) <= pow2(n + b),
            ;
            lemma_pow2_unfold(n + b);
            lemma_pow2_pos((n + b - 1) as nat);
            assert(2 * EF::degree() <= pow2(n + b) * EF::degree()) by (nonlinear_arith)
                requires
                    2 <= pow2(n + b),
            ;
        }
        let (root, _tree): (Vec<F>, F::Tree) = commit_matrix(
            &self.permutation,
            &word,
            2,
            Ghost(pow2((log_blowup - 1) as nat)),
        );
        let count: usize = p.iopp_oracles.len();
        if !same_digest(&p.iopp_oracles[count - 1], &root) {
            return Err(BaseFoldError::CommitmentCheckFailed);
        }
        proof {
            assert(p.grinding_query_witness@[0].valid() && p.grinding_query_witness@[1].valid());
        }
        challenger.observe(p.grinding_query_witness[0]);
        if !challenger.check_witness(self.fri.grinding_bits_query, p.grinding_query_witness[1]) {
            return Err(BaseFoldError::InvalidPowWitness);
        }
        let query_points: Vec<usize> = challenger.sample_bits_vec(
            num_vars + log_blowup,
            self.fri.num_queries,
        );
        if p.iopp_queries.len() != self.fri.num_queries || p.query_openings.per_query.len()
            != self.fri.num_queries {
            return Err(BaseFoldError::InvalidInputError);
        }
        if self.verify_whir_queries(
            commitments,
            dims,
            Ghost(values),
            Ghost(alpha),
            groups,
            p,
            &query_points,
            &result.challenges,
            &result.merging,
            &value,
        ) {
            Ok(())
        } else {
            Err(BaseFoldError::FriFinalStepMisMatch)
        }
    }

    /// Checks an opening with values out of the domain: that the polynomials that were committed
    /// to take the given values at the point.
    pub fn verify_whir<EF: TwoAdicExtension<F>>(
        &self,
        commitment_batch: &Vec<Vec<F>>,
        matrices_size_batch: &Vec<Vec<Dimensions>>,
        opening_point: &Vec<EF>,
        opened_values_batch: &Vec<Vec<Vec<EF>>>,
        opening: &BasefoldProof<F, EF>,
        challenger: &mut DuplexChallenger<F>,
    ) -> (r: Result<(), BaseFoldError>)
        requires
            old(challenger)@.wf(),
            self.fits::<EF>(opening_point@.len()),
            mmcs::are_digests(mmcs::rows_of(commitment_batch@)),
            batch::sizes_wf(batch::size_heights(matrices_size_batch@), opening_point@.len()),
            self.proof_canonical(*opening),
        ensures
            (r, final(challenger)@) == self.whir_outcome(
                mmcs::rows_of(commitment_batch@),
                matrices_size_batch@,
                opening_point@,
                opened_values_batch@,
                *opening,
                old(challenger)@,
            ),
            final(challenger)@.wf(),
    {
        let degree: usize = EF::extension_degree();
        proof {
            EF::law_coeffs(EF::zero_elem(), Seq::empty());
        }
        match validate_verify_inputs(
            degree,
            commitment_batch.len(),
            matrices_size_batch,
            opened_values_batch,
        ) {
            Err(e) => {
                return Err(e);
            },
            Ok(_) => {},
        }
        if opening.query_openings.pruned.is_some() {
            return Err(BaseFoldError::InvalidInputError);
        }
        let responses: &Vec<EF> = match &opening.out_of_domain_responses {
            None => {
                return Err(BaseFoldError::InvalidInputError);
            },
            Some(v) => v,
        };
        if opening.grinding_batching_witness.len() != 2
            || opening.grinding_query_witness.len() != 2 {
            return Err(BaseFoldError::InvalidInputError);
        }
        let num_vars: usize = opening_point.len();
        let ghost sizes = batch::size_heights(matrices_size_batch@);
        let ghost vals = mmcs::row_sets_of(opened_values_batch@);
        let ghost end = (num_vars + 1) as nat;
        let alpha: EF = challenger.sample_ext_element();
        proof {
            assert(groups::values_shape(vals, sizes)) by {
                assert forall|b: int| 0 <= b < sizes.len() implies (#[trigger] vals[b]).len()
                    == sizes[b].len() by {
                    assert(groups::values_fit(
                        degree as nat,
                        groups::all_widths(matrices_size_batch@)[b],
                        groups::value_lens(opened_values_batch@)[b],
                    ));
                }
            }
            assert forall|b: int, m: int|
                0 <= b < matrices_size_batch@.len() && 0 <= m < matrices_size_batch@[b]@.len()
                implies bits::power_of_two(
                (#[trigger] matrices_size_batch@[b]@[m]).height as nat,
            ) by {
                assert(batch::heights_wf(sizes[b], num_vars as nat));
                assert(bits::power_of_two(sizes[b][m]));
            }
        }
        let groups: Vec<HeightGroup<EF>> = group_by_height(
            matrices_size_batch,
            opened_values_batch,
            alpha,
            num_vars,
        );
        let ghost models = batch::group_models(groups@);
        proof {
            assert(opening.grinding_batching_witness@[0].valid()
                && opening.grinding_batching_witness@[1].valid());
            rounds::lemma_groups_below(sizes, vals, alpha, 0, end);
        }
        challenger.observe(opening.grinding_batching_witness[0]);
        if !challenger.check_witness(
            self.fri.grinding_bits_batching,
            opening.grinding_batching_witness[1],
        ) {
            return Err(BaseFoldError::InvalidPowWitness);
        }
        if groups.len() == 0 || groups[0].log_height != num_vars {
            return Err(BaseFoldError::SumcheckPhaseError);
        }
        if opening.iopp_oracles.len() == 0 {
            return Err(BaseFoldError::InvalidInputError);
        }
        let ghost before = challenger@;
        let ghost plan = self.whir_plan(num_vars as nat, models, *opening);
        proof {
            assert forall|i: int| 0 <= i < groups@.len() implies (
            #[trigger] groups@[i]).claim.valid() by {
                assert(models[i].claim.valid());
            }
        }
        let result: WhirResult<EF> = match verify_whir_rounds(
            num_vars,
            &opening.iopp_oracles,
            responses,
            &opening.sumcheck_transcript.uni_polys,
            &groups,
            challenger,
        ) {
            Err(e) => {
                return Err(e);
            },
            Ok(x) => x,
        };
        let ghost s = whir_rounds::rounds_from(
            plan,
            whir_rounds::first_state(plan, before),
            num_vars as nat,
        ).0;
        self.finish_whir(
            commitment_batch,
            matrices_size_batch,
            Ghost(vals),
            Ghost(alpha),
            Ghost(s),
            &groups,
            opening,
            &result,
            opening_point,
            challenger,
        )
    }
}

} // verus!
