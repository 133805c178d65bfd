//! The openings of the scheme with values out of the domain.
use vstd::prelude::*;
use vstd::arithmetic::power2::*;
use crate::basefold::batch;
use crate::basefold::batch::HeightGroup;
use crate::basefold::challenger::{DuplexChallenger, Transcript};
use crate::basefold::groups;
use crate::basefold::groups::{group_by_height, validate_verify_inputs};
use crate::basefold::linear;
use crate::basefold::mmcs;
use crate::basefold::mmcs::MerkleField;
use crate::basefold::openings::{
    BaseFoldError,
    BasefoldInputProof,
    BasefoldProof,
    QueryProof,
    SumcheckInstanceProof,
};
use crate::basefold::opening;
use crate::basefold::opening::{decompress_batches, greatest_heights, sizes_of, Request};
use crate::basefold::pcs::BaseFoldPcs;
use crate::basefold::prover;
use crate::basefold::prover::{combine_tables, true_claims};
use crate::basefold::rounds;
use crate::basefold::whir;
use crate::basefold::whir_honest::WhirRun;
use crate::basefold::whir_prover;
use crate::basefold::whir_rounds;
use crate::basefold::whir_rounds::WhirPlan;
use crate::bits;
use crate::field;
use crate::field::TwoAdicExtension;
use crate::stark::trace::CompressedMatrix;

verus! {

impl<F: MerkleField> BaseFoldPcs<F> {
    /// The run of an opening without what the rounds make, from the given transcript on.
    pub open spec fn whir_base<EF: TwoAdicExtension<F>>(
        self,
        q: Request<F, EF>,
        transcript: Transcript<F>,
    ) -> WhirRun<F, EF> {
        WhirRun {
            plan: WhirPlan {
                num_vars: q.num_vars(),
                oracles: Seq::empty(),
                responses: Seq::empty(),
                polys: Seq::empty(),
                groups: prover::true_groups(q.groups(), q.tables(), q.point),
            },
            tables: q.tables(),
            point: q.point,
            transcript,
            log_blowup: self.fri.log_blowup as nat,
        }
    }

    /// The transcript after the proof of work for the batching challenge.
    pub open spec fn batched<EF: TwoAdicExtension<F>>(
        self,
        q: Request<F, EF>,
        work: Seq<F>,
    ) -> Transcript<F> {
        q.transcript.sampled_ext::<EF>().observed(work[0]).checked_witness(work[1])
    }

    /// The rounds of an opening.
    pub open spec fn whir_run<EF: TwoAdicExtension<F>>(
        self,
        q: Request<F, EF>,
        p: BasefoldProof<F, EF>,
    ) -> WhirRun<F, EF> {
        whir_prover::with_parts(
            self.whir_base(q, self.batched(q, p.grinding_batching_witness@)),
            p.iopp_oracles@,
            whir::responses_of(p),
            p.sumcheck_transcript.uni_polys@,
        )
    }

    /// The rounds were made as the protocol says, and the roots are those of the folded codewords.
    pub open spec fn whir_rounds_made<EF: TwoAdicExtension<F>>(self, run: WhirRun<F, EF>) -> bool {
        &&& run.sound()
        &&& forall|i: int|
            0 <= i < run.plan.oracles.len() ==> #[trigger] run.plan.oracles[i] == self.word_root(
                run.word(i as nat),
                2,
            )
    }

    /// The transcript before the proof of work for the queries.
    pub open spec fn after_whir_rounds<EF: TwoAdicExtension<F>>(self, run: WhirRun<F, EF>) ->
        Transcript<F> {
        whir_rounds::announced(run.plan, run.at(run.num_vars()).s, 0).transcript
    }

    /// The answers to the queries are those of the run.
    pub open spec fn whir_answers_made<EF: TwoAdicExtension<F>>(
        self,
        q: Request<F, EF>,
        run: WhirRun<F, EF>,
        queries: Seq<usize>,
        p: BasefoldProof<F, EF>,
    ) -> bool {
        &&& p.query_openings.pruned is None
        &&& p.query_openings.per_query@.len() == queries.len()
        &&& forall|i: int|
            0 <= i < queries.len() ==> self.leaves_opened(
                q.sizes(),
                q.trees,
                q.num_vars(),
                queries[i] as nat,
                (#[trigger] p.query_openings.per_query@[i])@,
            )
        &&& if self.use_path_pruning {
            &&& p.iopp_queries@.len() == 0
            &&& p.iopp_pruned matches Some(x) && run.words().all_shared(self.rounds(), queries, x)
        } else {
            &&& p.iopp_pruned is None
            &&& p.iopp_queries@.len() == queries.len()
            &&& forall|i: int|
                0 <= i < queries.len() ==> run.words().all_answered(
                    self.rounds(),
                    queries[i] as nat,
                    #[trigger] p.iopp_queries@[i],
                )
        }
    }

    /// The opening is the one that the protocol makes, and the transcript is the one after it.
    pub open spec fn whir_made<EF: TwoAdicExtension<F>>(
        self,
        q: Request<F, EF>,
        p: BasefoldProof<F, EF>,
        end: Transcript<F>,
    ) -> bool {
        let run = self.whir_run(q, p);
        let t = self.after_whir_rounds(run);
        let batching = p.grinding_batching_witness@;
        let work = p.grinding_query_witness@;
        let queried = t.observed(work[0]).checked_witness(work[1]);
        let queries = queried.next_bits_n(
            q.num_vars() + self.fri.log_blowup as nat,
            self.fri.num_queries as nat,
        );
        &&& batching.len() == 2
        &&& prover::is_work(
            q.transcript.sampled_ext::<EF>(),
            self.fri.grinding_bits_batching as nat,
            batching[0],
            batching[1],
        )
        &&& p.out_of_domain_responses is Some
        &&& self.whir_rounds_made(run)
        &&& work.len() == 2
        &&& prover::is_work(t, self.fri.grinding_bits_query as nat, work[0], work[1])
        &&& self.whir_answers_made(q, run, queries, p)
        &&& p.final_poly@.len() == 0
        &&& p.iopp_cross_round@.len() == 0
        &&& p.iopp_cross_round_pruned is None
        &&& end == queried.sampled_n(self.fri.num_queries as nat)
    }

    /// The rounds were made, and then there is no proof of work for the queries.
    pub open spec fn whir_rounds_before_missing<EF: TwoAdicExtension<F>>(
        self,
        q: Request<F, EF>,
        batching: Seq<F>,
        run: WhirRun<F, EF>,
        end: Transcript<F>,
    ) -> bool {
        &&& batching.len() == 2
        &&& prover::is_work(
            q.transcript.sampled_ext::<EF>(),
            self.fri.grinding_bits_batching as nat,
            batching[0],
            batching[1],
        )
        &&& whir_prover::goes_on(self.whir_base(q, self.batched(q, batching)), run)
        &&& self.whir_rounds_made(run)
        &&& end == self.after_whir_rounds(run)
        &&& prover::no_work(end, self.fri.grinding_bits_query as nat)
    }

    /// There is no proof of work for the batching challenge, or none for the queries.
    pub open spec fn whir_work_missing<EF: TwoAdicExtension<F>>(
        self,
        q: Request<F, EF>,
        end: Transcript<F>,
    ) -> bool {
        let t = q.transcript.sampled_ext::<EF>();
        ||| (end == t && prover::no_work(t, self.fri.grinding_bits_batching as nat))
        ||| exists|batching: Seq<F>, run: WhirRun<F, EF>| #[trigger]
            self.whir_rounds_before_missing(q, batching, run, end)
    }
}

/// The run of a request that matches is ready.
pub proof fn lemma_ready<F: MerkleField, EF: TwoAdicExtension<F>>(
    pcs: BaseFoldPcs<F>,
    q: Request<F, EF>,
    transcript: Transcript<F>,
)
    requires
        pcs.can_open(q),
        q.matches(),
        transcript.wf(),
    ensures
        pcs.whir_base(q, transcript).ready(),
{
    opening::lemma_request(pcs, q);
    let gs = q.groups();
    let run = pcs.whir_base(q, transcript);
    let p = run.plan;
    assert forall|i: int, j: int| 0 <= i < j < p.groups.len() implies (
    #[trigger] p.groups[i]).log_height > (#[trigger] p.groups[j]).log_height by {
        assert(gs[i].log_height > gs[j].log_height);
    }
    assert(gs[0].log_height == q.heights()[0]);
    assert forall|g: int| 0 <= g < run.tables.len() implies (#[trigger] run.tables[g]).len()
        == pow2(p.groups[g].log_height) && field::all_valid(run.tables[g]) by {
        assert forall|k: int| 0 <= k < run.tables[g].len() implies (
        #[trigger] run.tables[g][k]).valid() by {
            linear::lemma_leaf_sum_valid(
                gs[g].entries,
                linear::rows_at(q.matrices, k as nat),
            );
        }
    }
}

impl<F: MerkleField> BaseFoldPcs<F> {
    /// Opens committed matrices at a point with values out of the domain: makes the proof that
    /// their columns take the given values there.
    ///
    /// The opening fails where the sizes of the inputs do not match, and where no proof of work
    /// exists.
    #[verifier::spinoff_prover]
    #[verifier::rlimit(80)]
    pub fn open_whir<EF: TwoAdicExtension<F>>(
        &self,
        polynomials_batch: &Vec<Vec<CompressedMatrix<F>>>,
        prover_data_batch: &Vec<F::Tree>,
        opening_point: &Vec<EF>,
        opened_values: &Vec<Vec<Vec<EF>>>,
        challenger: &mut DuplexChallenger<F>,
    ) -> (r: Result<BasefoldProof<F, EF>, BaseFoldError>)
        requires
            opening::batches_complete(polynomials_batch@),
            self.can_open(
                self.request(
                    polynomials_batch@,
                    prover_data_batch@,
                    opening_point@,
                    opened_values@,
                    old(challenger)@,
                ),
            ),
        ensures
            final(challenger)@.wf(),
            ({
                let q = self.request(
                    polynomials_batch@,
                    prover_data_batch@,
                    opening_point@,
                    opened_values@,
                    old(challenger)@,
                );
                match r {
                    Ok(p) => q.matches() && self.whir_made(q, p, final(challenger)@),
                    Err(e) => if !q.matches() {
                        e == BaseFoldError::InvalidInputError && final(challenger)@ == old(
                            challenger,
                        )@
                    } else {
                        e == BaseFoldError::CannotFindPowWitness && self.whir_work_missing(
                            q,
                            final(challenger)@,
                        )
                    },
                }
            }),
    {
        let ghost q = self.request(
            polynomials_batch@,
            prover_data_batch@,
            opening_point@,
            opened_values@,
            challenger@,
        );
        let degree: usize = EF::extension_degree();
        proof {
            EF::law_coeffs(EF::zero_elem(), Seq::empty());
        }
        let matrices = decompress_batches(polynomials_batch);
        proof {
            assert(prover::batch_models(matrices@) == q.matrices);
            assert forall|b: int, m: int|
                0 <= b < matrices@.len() && 0 <= m < matrices@[b]@.len() implies (
            #[trigger] matrices@[b]@[m]).width > 0 by {
                assert(q.matrices[b] == mmcs::models(matrices@[b]@));
                assert(q.matrices[b][m] == matrices@[b]@[m]@);
                assert(q.matrices[b][m].width > 0);
            }
        }
        let sizes = sizes_of(&matrices);
        proof {
            assert(groups::value_lens(opened_values@) =~= opening::lens(q.values)) by {
                assert forall|b: int| 0 <= b < opened_values@.len() implies groups::value_lens(
                    opened_values@,
                )[b] == opening::lens(q.values)[b] by {
                    assert(groups::value_lens(opened_values@)[b] =~= opening::lens(q.values)[b]);
                }
            }
        }
        match validate_verify_inputs(degree, prover_data_batch.len(), &sizes, opened_values) {
            Err(e) => {
                return Err(e);
            },
            Ok(_) => {},
        }
        proof {
            opening::lemma_request(*self, q);
        }
        let num_vars: usize = opening_point.len();
        let alpha: EF = challenger.sample_ext_element();
        proof {
            assert forall|b: int, m: int|
                0 <= b < sizes@.len() && 0 <= m < sizes@[b]@.len() implies bits::power_of_two(
                (#[trigger] sizes@[b]@[m]).height as nat,
            ) by {
                assert(q.sizes()[b][m] == sizes@[b]@[m].height as nat);
            }
        }
        let tops = greatest_heights(&sizes);
        let groups: Vec<HeightGroup<EF>> = group_by_height(&sizes, opened_values, alpha, num_vars);
        let ghost models = batch::group_models(groups@);
        proof {
            assert(models == q.groups());
            assert forall|g: int| 0 <= g < groups@.len() implies (
            #[trigger] groups@[g]).log_height < usize::BITS && groups@[g].log_height <= num_vars by {
                assert(models[g].log_height == groups@[g].log_height as nat);
            }
        }
        let tables: Vec<Vec<EF>> = combine_tables(&groups, &matrices);
        proof {
            assert(prover::table_views(tables@) == q.tables());
            assert forall|g: int| 0 <= g < groups@.len() implies (#[trigger] tables@[g])@.len()
                == pow2(groups@[g].log_height as nat) by {
                assert(prover::table_views(tables@)[g] == q.tables()[g]);
                assert(models[g].log_height == groups@[g].log_height as nat);
            }
        }
        let batching_witness: Vec<F> = match self.find_pow_witness(
            challenger,
            self.fri.grinding_bits_batching,
        ) {
            Err(e) => {
                return Err(e);
            },
            Ok(v) => v,
        };
        let ghost before = challenger@;
        let claims: Vec<EF> = true_claims(&groups, &tables, opening_point);
        let ghost base = self.whir_base(q, before);
        proof {
            lemma_ready(*self, q, before);
            assert forall|g: int| 0 <= g < groups@.len() implies {
                &&& (#[trigger] base.plan.groups[g]).log_height == groups@[g].log_height
                &&& base.plan.groups[g].claim == claims@[g]
                &&& claims@[g].valid()
            } by {
                assert(models[g].log_height == groups@[g].log_height as nat);
                assert(claims@[g] == prover::true_groups(
                    models,
                    prover::table_views(tables@),
                    opening_point@,
                )[g].claim);
            }
        }
        let made = self.prove_whir_rounds(
            &groups,
            &tables,
            &claims,
            opening_point,
            challenger,
            Ghost(base),
        );
        let ghost run = made.run(base);
        proof {
            assert forall|i: int| 0 <= i < run.plan.oracles.len() implies #[trigger]
                run.plan.oracles[i] == self.word_root(run.word(i as nat), 2) by {
                assert(self.commits_to(
                    run.words().roots[i],
                    made.trees@[i],
                    run.words().words[i],
                    2,
                ));
            }
        }
        let query_witness: Vec<F> = match self.find_pow_witness(
            challenger,
            self.fri.grinding_bits_query,
        ) {
            Err(e) => {
                proof {
                    assert(self.whir_rounds_before_missing(
                        q,
                        batching_witness@,
                        run,
                        challenger@,
                    ));
                }
                return Err(e);
            },
            Ok(v) => v,
        };
        let queries: Vec<usize> = challenger.sample_bits_vec(
            num_vars + self.fri.log_blowup,
            self.fri.num_queries,
        );
        proof {
            assert forall|b: int| 0 <= b < tops@.len() implies (#[trigger] tops@[b]) as nat
                == batch::max_log_height(mmcs::heights_of(q.matrices[b])) by {
                assert(batch::size_heights(sizes@)[b] == q.sizes()[b]);
            }
        }
        let per_query = self.open_each_input(
            prover_data_batch,
            &tops,
            num_vars,
            &queries,
            Ghost(q.matrices),
        );
        let mut iopp_queries: Vec<QueryProof<F, EF>> = Vec::new();
        let mut iopp_pruned = None;
        if self.use_path_pruning {
            iopp_pruned = Some(self.share_word_queries(&made.trees, &queries, Ghost(run.words())));
        } else {
            iopp_queries = self.answer_word_queries(&made.trees, &queries, Ghost(run.words()));
        }
        let p = BasefoldProof {
            sumcheck_transcript: SumcheckInstanceProof::new(made.polys),
            iopp_oracles: made.oracles,
            iopp_queries,
            query_openings: BasefoldInputProof::from_per_query(per_query),
            grinding_batching_witness: batching_witness,
            grinding_query_witness: query_witness,
            out_of_domain_responses: Some(made.responses),
            final_poly: Vec::new(),
            iopp_pruned,
            iopp_cross_round: Vec::new(),
            iopp_cross_round_pruned: None,
        };
        proof {
            assert(self.whir_run(q, p) == run);
        }
        Ok(p)
    }
}

} // verus!
