//! The openings of the commitment scheme.
use vstd::prelude::*;
use vstd::arithmetic::power2::*;
use crate::basefold::answers;
use crate::basefold::batch;
use crate::basefold::batch::{compute_max_log_height, GroupModel, HeightGroup};
use crate::basefold::challenger;
use crate::basefold::challenger::{DuplexChallenger, Transcript};
use crate::basefold::groups;
use crate::basefold::groups::{group_by_height, validate_verify_inputs};
use crate::basefold::honest_pruned;
use crate::basefold::honest_queries;
use crate::basefold::honest_queries::Run;
use crate::basefold::input_openings;
use crate::basefold::linear;
use crate::basefold::mmcs;
use crate::basefold::mmcs::{Dimensions, Matrix, MatrixModel, MerkleField};
use crate::basefold::openings::{
    BaseFoldError,
    BasefoldInputProof,
    BasefoldProof,
    BatchOpening,
    CrossRoundQueryProof,
    QueryProof,
    SumcheckInstanceProof,
};
use crate::basefold::pcs::BaseFoldPcs;
use crate::basefold::prove_rounds;
use crate::basefold::prover;
use crate::basefold::prover::{combine_tables, decompress_all, true_claims};
use crate::basefold::query;
use crate::basefold::rounds;
use crate::basefold::rounds::Plan;
use crate::basefold::schedule;
use crate::basefold::schedule::{compute_commit_schedule_cross_round, CommitGroup};
use crate::bits;
use crate::field;
use crate::field::{Field, TwoAdicExtension};
use crate::stark::trace;
use crate::stark::trace::CompressedMatrix;

verus! {

/// The matrices with their padding written out, batch by batch.
pub open spec fn batches_written_out<F: Field>(s: Seq<Vec<CompressedMatrix<F>>>) -> Seq<
    Seq<MatrixModel<F>>,
> {
    Seq::new(s.len(), |b: int| prover::written_out(s[b]@))
}

/// The padding of all matrices can be written out.
pub open spec fn batches_complete<F: Field>(s: Seq<Vec<CompressedMatrix<F>>>) -> bool {
    forall|b: int, m: int|
        0 <= b < s.len() && 0 <= m < s[b]@.len() ==> trace::complete(#[trigger] s[b]@[m])
}

/// Some matrix has the height `2^h`.
pub open spec fn reaches<F: Field>(matrices: Seq<Seq<MatrixModel<F>>>, h: nat) -> bool {
    exists|b: int, m: int|
        0 <= b < matrices.len() && 0 <= m < matrices[b].len() && bits::log2(
            (#[trigger] matrices[b][m]).height(),
        ) == h
}

/// The widths of the matrices of each batch.
pub open spec fn matrix_widths<F>(matrices: Seq<Seq<MatrixModel<F>>>) -> Seq<Seq<nat>> {
    Seq::new(
        matrices.len(),
        |b: int| Seq::new(matrices[b].len(), |m: int| matrices[b][m].width),
    )
}

pub(crate) fn decompress_batches<F: MerkleField>(s: &Vec<Vec<CompressedMatrix<F>>>) -> (r: Vec<
    Vec<Matrix<F>>,
>)
    requires
        batches_complete(s@),
    ensures
        prover::batch_models(r@) == batches_written_out(s@),
        r@.len() == s@.len(),
{
    let n: usize = s.len();
    let mut r: Vec<Vec<Matrix<F>>> = Vec::new();
    let mut b: usize = 0;
    while b < n
        invariant
            b <= n,
            n == s@.len(),
            batches_complete(s@),
            r@.len() == b,
            forall|j: int|
                0 <= j < b ==> mmcs::models((#[trigger] r@[j])@) == prover::written_out(s@[j]@),
        decreases n - b,
    {
        proof {
            assert forall|m: int| 0 <= m < s@[b as int]@.len() implies trace::complete(
                #[trigger] s@[b as int]@[m],
            ) by {}
        }
        let batch = decompress_all(&s[b]);
        r.push(batch);
        b += 1;
    }
    assert(prover::batch_models(r@) =~= batches_written_out(s@));
    r
}

/// The sizes of the matrices.
pub(crate) fn sizes_of<F: MerkleField>(matrices: &Vec<Vec<Matrix<F>>>) -> (r: Vec<Vec<Dimensions>>)
    requires
        forall|b: int, m: int|
            0 <= b < matrices@.len() && 0 <= m < matrices@[b]@.len() ==> (
            #[trigger] matrices@[b]@[m]).width > 0,
    ensures
        batch::size_heights(r@) == input_openings::all_heights(prover::batch_models(matrices@)),
        groups::all_widths(r@) == matrix_widths(prover::batch_models(matrices@)),
        r@.len() == matrices@.len(),
{
    let n: usize = matrices.len();
    let ghost models = prover::batch_models(matrices@);
    let mut r: Vec<Vec<Dimensions>> = Vec::new();
    let mut b: usize = 0;
    while b < n
        invariant
            b <= n,
            n == matrices@.len(),
            models == prover::batch_models(matrices@),
            forall|b: int, m: int|
                0 <= b < matrices@.len() && 0 <= m < matrices@[b]@.len() ==> (
                #[trigger] matrices@[b]@[m]).width > 0,
            r@.len() == b,
            forall|j: int|
                0 <= j < b ==> mmcs::dim_heights((#[trigger] r@[j])@) == mmcs::heights_of(models[j])
                    && groups::widths_of(r@[j]@) == matrix_widths(models)[j],
        decreases n - b,
    {
        let batch: &Vec<Matrix<F>> = &matrices[b];
        let count: usize = batch.len();
        let mut dims: Vec<Dimensions> = Vec::new();
        let mut m: usize = 0;
        while m < count
            invariant
                m <= count,
                count == batch@.len(),
                b < matrices@.len(),
                *batch == matrices@[b as int],
                forall|b: int, m: int|
                    0 <= b < matrices@.len() && 0 <= m < matrices@[b]@.len() ==> (
                    #[trigger] matrices@[b]@[m]).width > 0,
                dims@.len() == m,
                forall|j: int|
                    0 <= j < m ==> (#[trigger] dims@[j]).height as nat == batch@[j]@.height()
                        && dims@[j].width as nat == batch@[j]@.width,
            decreases count - m,
        {
            assert(matrices@[b as int]@[m as int].width > 0);
            dims.push(
                Dimensions { width: batch[m].width, height: batch[m].values.len() / batch[m].width },
            );
            m += 1;
        }
        r.push(dims);
        proof {
            assert(models[b as int] == mmcs::models(batch@));
            assert(mmcs::dim_heights(dims@) =~= mmcs::heights_of(models[b as int]));
            assert(groups::widths_of(dims@) =~= matrix_widths(models)[b as int]);
        }
        b += 1;
    }
    assert(batch::size_heights(r@) =~= input_openings::all_heights(models));
    assert(groups::all_widths(r@) =~= matrix_widths(models));
    r
}

/// The logarithms of the greatest heights of the batches.
pub(crate) fn greatest_heights(sizes: &Vec<Vec<Dimensions>>) -> (r: Vec<usize>)
    requires
        forall|b: int, m: int|
            0 <= b < sizes@.len() && 0 <= m < sizes@[b]@.len() ==> bits::power_of_two(
                (#[trigger] sizes@[b]@[m]).height as nat,
            ),
    ensures
        r@.len() == sizes@.len(),
        forall|b: int|
            0 <= b < r@.len() ==> (#[trigger] r@[b]) as nat == batch::max_log_height(
                batch::size_heights(sizes@)[b],
            ),
{
    let n: usize = sizes.len();
    let mut r: Vec<usize> = Vec::new();
    let mut b: usize = 0;
    while b < n
        invariant
            b <= n,
            n == sizes@.len(),
            forall|b: int, m: int|
                0 <= b < sizes@.len() && 0 <= m < sizes@[b]@.len() ==> bits::power_of_two(
                    (#[trigger] sizes@[b]@[m]).height as nat,
                ),
            r@.len() == b,
            forall|j: int|
                0 <= j < b ==> (#[trigger] r@[j]) as nat == batch::max_log_height(
                    batch::size_heights(sizes@)[j],
                ),
        decreases n - b,
    {
        proof {
            assert forall|m: int| 0 <= m < sizes@[b as int]@.len() implies bits::power_of_two(
                (#[trigger] sizes@[b as int]@[m]).height as nat,
            ) by {}
        }
        r.push(compute_max_log_height(&sizes[b]));
        b += 1;
    }
    r
}

/// What an opening is made of: the matrices and their trees, the opening point, the opened values,
/// and the transcript before.
#[verifier::ext_equal]
pub struct Request<F: MerkleField, EF> {
    pub matrices: Seq<Seq<MatrixModel<F>>>,
    pub trees: Seq<F::Tree>,
    pub point: Seq<EF>,
    pub values: Seq<Seq<Seq<EF>>>,
    pub transcript: Transcript<F>,
}

impl<F: MerkleField, EF: TwoAdicExtension<F>> Request<F, EF> {
    pub open spec fn num_vars(self) -> nat {
        self.point.len()
    }

    pub open spec fn sizes(self) -> Seq<Seq<nat>> {
        input_openings::all_heights(self.matrices)
    }

    /// The heights of the matrices, each once.
    pub open spec fn heights(self) -> Seq<nat> {
        groups::group_heights(self.sizes(), self.num_vars() + 1)
    }

    /// The groups of the heights, with the claims of the opened values.
    pub open spec fn groups(self) -> Seq<GroupModel<EF>> {
        groups::groups_below(
            self.sizes(),
            self.values,
            self.transcript.next_ext::<EF>(),
            0,
            self.num_vars() + 1,
        )
    }

    pub open spec fn tables(self) -> Seq<Seq<EF>> {
        prover::tables_of(self.groups(), self.matrices)
    }

    /// The opened values fit the matrices.
    pub open spec fn matches(self) -> bool {
        groups::inputs_match(
            EF::degree(),
            self.trees.len(),
            matrix_widths(self.matrices),
            lens(self.values),
        )
    }
}

/// The lengths of the rows.
pub open spec fn lens<T>(s: Seq<Seq<Seq<T>>>) -> Seq<Seq<nat>> {
    Seq::new(s.len(), |b: int| Seq::new(s[b].len(), |m: int| s[b][m].len()))
}

impl<F: MerkleField> BaseFoldPcs<F> {
    /// The groups of rounds that share a commitment, as the scheme makes them.
    pub open spec fn made_schedule(self, heights: Seq<nat>, num_vars: nat) -> Seq<CommitGroup> {
        schedule::commit_schedule(
            Seq::new(heights.len(), |i: int| heights[i] as usize),
            num_vars,
            self.stop(heights),
            self.use_cross_round,
            schedule::max_log_folding_of(self.max_fold_override) as nat,
        )
    }

    /// The plan of the rounds without what they make.
    pub open spec fn base_plan<EF: TwoAdicExtension<F>>(self, q: Request<F, EF>) -> Plan<F, EF> {
        Plan {
            num_vars: q.num_vars(),
            k: self.stop(q.heights()),
            schedule: self.made_schedule(q.heights(), q.num_vars()),
            oracles: Seq::empty(),
            final_poly: Seq::empty(),
            polys: Seq::empty(),
            groups: prover::true_groups(q.groups(), q.tables(), q.point),
        }
    }

    /// The rounds of an opening.
    pub open spec fn run_of<EF: TwoAdicExtension<F>>(
        self,
        q: Request<F, EF>,
        p: BasefoldProof<F, EF>,
    ) -> Run<F, EF> {
        Run {
            plan: Plan {
                oracles: mmcs::rows_of(p.iopp_oracles@),
                final_poly: p.final_poly@,
                polys: rounds::poly_coeffs(p.sumcheck_transcript.uni_polys@),
                ..self.base_plan(q)
            },
            tables: q.tables(),
            point: q.point,
            transcript: q.transcript.sampled_ext::<EF>().observed(
                p.grinding_batching_witness@[0],
            ).checked_witness(p.grinding_batching_witness@[1]),
            log_blowup: self.fri.log_blowup as nat,
        }
    }

    /// The answers to the queries are those of the run.
    pub open spec fn answers_made<EF: TwoAdicExtension<F>>(
        self,
        q: Request<F, EF>,
        run: Run<F, EF>,
        queries: Seq<usize>,
        p: BasefoldProof<F, EF>,
    ) -> bool {
        let c = run.iopp(self.rounds());
        &&& if self.use_path_pruning {
            &&& p.query_openings.per_query@.len() == 0
            &&& p.query_openings.pruned matches Some(x) && self.all_leaves_shared(
                q.sizes(),
                q.trees,
                q.num_vars(),
                queries,
                x,
            )
        } else {
            &&& p.query_openings.pruned is None
            &&& p.query_openings.per_query@.len() == queries.len()
            &&& forall|i: int|
                0 <= i < queries.len() ==> self.leaves_opened(
                    q.sizes(),
                    q.trees,
                    q.num_vars(),
                    queries[i] as nat,
                    (#[trigger] p.query_openings.per_query@[i])@,
                )
        }
        &&& if self.use_path_pruning || self.use_cross_round {
            p.iopp_queries@.len() == 0
        } else {
            &&& p.iopp_queries@.len() == queries.len()
            &&& forall|i: int|
                0 <= i < queries.len() ==> self.query_answered(
                    run,
                    queries[i] as nat,
                    #[trigger] p.iopp_queries@[i],
                )
        }
        &&& if self.use_path_pruning && !self.use_cross_round {
            p.iopp_pruned matches Some(x) && self.pruned_answers_made(run, queries, x)
        } else {
            p.iopp_pruned is None
        }
        &&& if self.use_cross_round && !self.use_path_pruning {
            &&& p.iopp_cross_round@.len() == queries.len()
            &&& forall|i: int|
                0 <= i < queries.len() ==> self.cross_answered(
                    run,
                    queries[i] as nat,
                    #[trigger] p.iopp_cross_round@[i],
                )
        } else {
            p.iopp_cross_round@.len() == 0
        }
        &&& if self.use_cross_round && self.use_path_pruning {
            p.iopp_cross_round_pruned matches Some(x) && self.group_answers_made(run, queries, x)
        } else {
            p.iopp_cross_round_pruned is None
        }
    }

    /// A query is answered round by round.
    pub open spec fn query_answered<EF: TwoAdicExtension<F>>(
        self,
        run: Run<F, EF>,
        query: nat,
        r: QueryProof<F, EF>,
    ) -> bool {
        let steps = r.commit_phase_openings@;
        &&& steps.len() == run.plan.oracles.len()
        &&& honest_queries::pairs_opened(run, run.iopp(self.rounds()), steps, query, steps.len())
        &&& forall|i: int|
            0 <= i < steps.len() ==> mmcs::rows_of((#[trigger] steps[i]).opening_proof@)
                == answers::pair_path(self.rounds(), run, query, i as nat)
        &&& query::steps_wf(steps)
    }

    /// A query is answered group by group.
    pub open spec fn cross_answered<EF: TwoAdicExtension<F>>(
        self,
        run: Run<F, EF>,
        query: nat,
        r: CrossRoundQueryProof<F, EF>,
    ) -> bool {
        let steps = r.group_openings@;
        &&& steps.len() == run.plan.schedule.len()
        &&& honest_queries::rows_opened(
            run,
            run.iopp(self.rounds()),
            run.plan.schedule,
            steps,
            query,
        )
        &&& forall|g: int|
            0 <= g < steps.len() ==> mmcs::rows_of((#[trigger] steps[g]).opening_proof@)
                == answers::group_path(self.rounds(), run, query, g as nat)
        &&& query::group_steps_wf(steps)
    }

    /// The transcript before the proof of work for the queries.
    pub open spec fn after_rounds<EF: TwoAdicExtension<F>>(self, run: Run<F, EF>) -> Transcript<F> {
        rounds::announced(run.plan, run.at(run.num_vars()).s, 0).transcript
    }

    /// The opening is the one that the protocol makes, and the transcript is the one after it.
    pub open spec fn opening_made<EF: TwoAdicExtension<F>>(
        self,
        q: Request<F, EF>,
        p: BasefoldProof<F, EF>,
        end: Transcript<F>,
    ) -> bool {
        let run = self.run_of(q, p);
        let t = self.after_rounds(run);
        let batching = p.grinding_batching_witness@;
        let work = p.grinding_query_witness@;
        let queried = t.observed(work[0]).checked_witness(work[1]);
        let queries = queried.next_bits_n(
            q.num_vars() + self.fri.log_blowup as nat,
            self.fri.num_queries as nat,
        );
        &&& batching.len() == 2
        &&& prover::is_work(
            q.transcript.sampled_ext::<EF>(),
            self.fri.grinding_bits_batching as nat,
            batching[0],
            batching[1],
        )
        &&& self.run_made(run)
        &&& work.len() == 2
        &&& prover::is_work(t, self.fri.grinding_bits_query as nat, work[0], work[1])
        &&& self.answers_made(q, run, queries, p)
        &&& p.out_of_domain_responses is None
        &&& end == queried.sampled_n(self.fri.num_queries as nat)
    }
}

impl<F: MerkleField> BaseFoldPcs<F> {
    /// What an opening demands: the parameters fit, every batch has its tree, and the greatest
    /// height is that of the opening point.
    pub open spec fn can_open<EF: TwoAdicExtension<F>>(self, q: Request<F, EF>) -> bool {
        let n = q.num_vars();
        &&& self.fits::<EF>(n)
        &&& n + self.fri.log_blowup <= F::two_adicity()
        &&& field::all_valid(q.point)
        &&& q.transcript.wf()
        &&& forall|b: int|
            0 <= b < q.matrices.len() && b < q.trees.len() ==> self.batch_committed(
                q.matrices[b],
                #[trigger] q.trees[b],
                n,
            )
        &&& forall|b: int, m: int|
            0 <= b < q.matrices.len() && 0 <= m < q.matrices[b].len() ==> (
            #[trigger] q.matrices[b][m]).width > 0
        &&& reaches(q.matrices, n)
        &&& self.use_path_pruning ==> n + self.fri.log_blowup <= 32 && self.fri.num_queries > 0
    }
}

/// The parts of a request that matches fit together.
pub proof fn lemma_request<F: MerkleField, EF: TwoAdicExtension<F>>(
    pcs: BaseFoldPcs<F>,
    q: Request<F, EF>,
)
    requires
        pcs.can_open(q),
        q.matches(),
    ensures
        pcs.all_committed(q.matrices, q.trees, q.num_vars()),
        batch::sizes_wf(q.sizes(), q.num_vars()),
        groups::values_shape(q.values, q.sizes()),
        prover::groups_of_heights(q.groups(), q.matrices),
        q.heights().len() == q.groups().len(),
        forall|g: int|
            0 <= g < q.groups().len() ==> (#[trigger] q.groups()[g]).log_height == q.heights()[g]
                && q.groups()[g].log_height <= q.num_vars(),
        rounds::groups_descend(q.groups()),
        q.groups().len() > 0,
        q.heights()[0] == q.num_vars(),
        pcs.stop(q.heights()) <= q.heights().last(),
        q.heights().last() <= q.num_vars(),
        forall|b: int, m: int|
            0 <= b < q.sizes().len() && 0 <= m < q.sizes()[b].len() ==> bits::power_of_two(
                #[trigger] q.sizes()[b][m],
            ),
        schedule::tiles(
            pcs.made_schedule(q.heights(), q.num_vars()),
            q.num_vars(),
            pcs.stop(q.heights()),
        ),
{
    let n = q.num_vars();
    let sizes = q.sizes();
    let lb = pcs.fri.log_blowup as nat;
    let alpha = q.transcript.next_ext::<EF>();
    assert forall|b: int| 0 <= b < sizes.len() implies (#[trigger] sizes[b]).len() > 0
        && batch::heights_wf(sizes[b], n) && q.values[b].len() == sizes[b].len() by {
        assert(pcs.batch_committed(q.matrices[b], q.trees[b], n));
        assert(groups::values_fit(EF::degree(), matrix_widths(q.matrices)[b], lens(q.values)[b]));
        assert forall|i: int| 0 <= i < sizes[b].len() implies bits::power_of_two(
            #[trigger] sizes[b][i],
        ) && bits::log2(sizes[b][i]) <= n by {
            assert(prover::encodable(q.matrices[b][i], lb));
        }
    }
    assert forall|b: int, m: int|
        0 <= b < sizes.len() && 0 <= m < sizes[b].len() implies bits::power_of_two(
        #[trigger] sizes[b][m],
    ) by {
        assert(batch::heights_wf(sizes[b], n));
    }
    challenger::lemma_sampled_ext_wf::<F, EF>(q.transcript);
    groups::lemma_groups_wf(sizes, q.values, alpha, 0, n + 1);
    groups::lemma_groups_heights(sizes, q.values, alpha, 0, n + 1);
    rounds::lemma_groups_below(sizes, q.values, alpha, 0, n + 1);
    let gs = q.groups();
    assert forall|g: int| 0 <= g < gs.len() implies prover::entries_of_height(
        (#[trigger] gs[g]).entries,
        q.matrices,
        pow2(gs[g].log_height),
    ) by {
        assert forall|i: int| 0 <= i < gs[g].entries.len() implies linear::entry_of_height(
            #[trigger] gs[g].entries[i],
            q.matrices,
            pow2(gs[g].log_height),
        ) by {
            let e = gs[g].entries[i];
            assert(groups::entry_wf(sizes, q.values, e));
            assert(groups::has_height(sizes, (e.batch, e.matrix), gs[g].log_height));
            let b = e.batch as int;
            let m = e.matrix as int;
            assert(pcs.batch_committed(q.matrices[b], q.trees[b], n));
            assert(prover::encodable(q.matrices[b][m], lb));
            assert(groups::values_fit(
                EF::degree(),
                matrix_widths(q.matrices)[b],
                lens(q.values)[b],
            ));
            assert(matrix_widths(q.matrices)[b][m] == q.matrices[b][m].width);
            assert(lens(q.values)[b][m] == q.values[b][m].len());
            assert(sizes[b][m] == q.matrices[b][m].height());
        }
    }
    let (b, m) = choose|b: int, m: int|
        0 <= b < q.matrices.len() && 0 <= m < q.matrices[b].len() && bits::log2(
            (#[trigger] q.matrices[b][m]).height(),
        ) == n;
    assert(sizes[b][m] == q.matrices[b][m].height());
    groups::lemma_height_found(sizes, n, b as nat, m as nat);
    assert(gs[0].log_height == q.heights()[0]);
    let last = gs.len() - 1;
    assert(gs[last].log_height == q.heights()[last]);
    schedule::law_schedule_tiles(
        Seq::new(q.heights().len(), |i: int| q.heights()[i] as usize),
        n,
        pcs.stop(q.heights()),
        pcs.use_cross_round,
        schedule::max_log_folding_of(pcs.max_fold_override) as nat,
    );
}

/// The rounds of an opening are sound.
pub proof fn lemma_sound<F: MerkleField, EF: TwoAdicExtension<F>>(
    pcs: BaseFoldPcs<F>,
    q: Request<F, EF>,
    run: Run<F, EF>,
)
    requires
        pcs.can_open(q),
        q.matches(),
        pcs.run_made(run),
        run.plan.num_vars == q.num_vars(),
        run.plan.groups == prover::true_groups(q.groups(), q.tables(), q.point),
        run.tables == q.tables(),
        run.point == q.point,
        run.log_blowup == pcs.fri.log_blowup,
        run.transcript.wf(),
    ensures
        run.sound(),
{
    lemma_request(pcs, q);
    let gs = q.groups();
    let p = run.plan;
    assert forall|i: int, j: int| 0 <= i < j < p.groups.len() implies (
    #[trigger] p.groups[i]).log_height > (#[trigger] p.groups[j]).log_height by {
        assert(gs[i].log_height > gs[j].log_height);
    }
    assert(gs[0].log_height == q.heights()[0]);
    assert forall|g: int| 0 <= g < run.tables.len() implies (#[trigger] run.tables[g]).len()
        == pow2(p.groups[g].log_height) && field::all_valid(run.tables[g]) by {
        assert forall|k: int| 0 <= k < run.tables[g].len() implies (
        #[trigger] run.tables[g][k]).valid() by {
            linear::lemma_leaf_sum_valid(
                gs[g].entries,
                linear::rows_at(q.matrices, k as nat),
            );
        }
    }
}

impl<F: MerkleField> BaseFoldPcs<F> {
    /// Opens the committed matrices at the queries, query by query.
    pub(crate) fn open_each_input(
        &self,
        trees: &Vec<F::Tree>,
        tops: &Vec<usize>,
        num_vars: usize,
        queries: &Vec<usize>,
        Ghost(matrices): Ghost<Seq<Seq<MatrixModel<F>>>>,
    ) -> (r: Vec<Vec<BatchOpening<F>>>)
        requires
            self.all_committed(matrices, trees@, num_vars as nat),
            tops@.len() == trees@.len(),
            forall|b: int|
                0 <= b < tops@.len() ==> (#[trigger] tops@[b]) as nat == batch::max_log_height(
                    mmcs::heights_of(matrices[b]),
                ),
            num_vars < usize::BITS,
            forall|q: int|
                0 <= q < queries@.len() ==> (#[trigger] queries@[q]) < pow2(
                    num_vars as nat + self.fri.log_blowup as nat,
                ),
        ensures
            r@.len() == queries@.len(),
            forall|i: int|
                0 <= i < queries@.len() ==> self.leaves_opened(
                    input_openings::all_heights(matrices),
                    trees@,
                    num_vars as nat,
                    queries@[i] as nat,
                    (#[trigger] r@[i])@,
                ),
    {
        let n: usize = queries.len();
        let mut r: Vec<Vec<BatchOpening<F>>> = Vec::new();
        let mut i: usize = 0;
        while i < n
            invariant
                i <= n,
                n == queries@.len(),
                self.all_committed(matrices, trees@, num_vars as nat),
                tops@.len() == trees@.len(),
                forall|b: int|
                    0 <= b < tops@.len() ==> (#[trigger] tops@[b]) as nat == batch::max_log_height(
                        mmcs::heights_of(matrices[b]),
                    ),
                num_vars < usize::BITS,
                forall|q: int|
                    0 <= q < queries@.len() ==> (#[trigger] queries@[q]) < pow2(
                        num_vars as nat + self.fri.log_blowup as nat,
                    ),
                r@.len() == i,
                forall|j: int|
                    0 <= j < i ==> self.leaves_opened(
                        input_openings::all_heights(matrices),
                        trees@,
                        num_vars as nat,
                        queries@[j] as nat,
                        (#[trigger] r@[j])@,
                    ),
            decreases n - i,
        {
            assert(queries@[i as int] < pow2(num_vars as nat + self.fri.log_blowup as nat));
            let leaves = self.open_leaves(trees, tops, num_vars, queries[i], Ghost(matrices));
            r.push(leaves);
            i += 1;
        }
        r
    }

    /// Opens the committed matrices at the queries.
    fn open_inputs(
        &self,
        trees: &Vec<F::Tree>,
        tops: &Vec<usize>,
        num_vars: usize,
        queries: &Vec<usize>,
        Ghost(matrices): Ghost<Seq<Seq<MatrixModel<F>>>>,
    ) -> (r: BasefoldInputProof<F>)
        requires
            self.all_committed(matrices, trees@, num_vars as nat),
            tops@.len() == trees@.len(),
            forall|b: int|
                0 <= b < tops@.len() ==> (#[trigger] tops@[b]) as nat == batch::max_log_height(
                    mmcs::heights_of(matrices[b]),
                ),
            num_vars < usize::BITS,
            self.use_path_pruning ==> num_vars + self.fri.log_blowup <= 32 && queries@.len() > 0,
            forall|q: int|
                0 <= q < queries@.len() ==> (#[trigger] queries@[q]) < pow2(
                    num_vars as nat + self.fri.log_blowup as nat,
                ),
        ensures
            if self.use_path_pruning {
                &&& r.per_query@.len() == 0
                &&& r.pruned matches Some(x) && self.all_leaves_shared(
                    input_openings::all_heights(matrices),
                    trees@,
                    num_vars as nat,
                    queries@,
                    x,
                )
            } else {
                &&& r.pruned is None
                &&& r.per_query@.len() == queries@.len()
                &&& forall|i: int|
                    0 <= i < queries@.len() ==> self.leaves_opened(
                        input_openings::all_heights(matrices),
                        trees@,
                        num_vars as nat,
                        queries@[i] as nat,
                        (#[trigger] r.per_query@[i])@,
                    )
            },
    {
        if self.use_path_pruning {
            let pruned = self.open_leaves_pruned(trees, tops, num_vars, queries, Ghost(matrices));
            BasefoldInputProof { per_query: Vec::new(), pruned: Some(pruned) }
        } else {
            let per_query = self.open_each_input(trees, tops, num_vars, queries, Ghost(matrices));
            BasefoldInputProof::from_per_query(per_query)
        }
    }

    /// Answers all queries round by round.
    fn answer_each<EF: TwoAdicExtension<F>>(
        &self,
        trees: &Vec<F::Tree>,
        queries: &Vec<usize>,
        Ghost(run): Ghost<Run<F, EF>>,
    ) -> (r: Vec<QueryProof<F, EF>>)
        requires
            run.sound(),
            run.plan.k <= run.num_vars(),
            run.plan.schedule == schedule::per_round_schedule(run.num_vars(), run.plan.k),
            self.rounds_made(run, trees@),
            run.log_blowup == self.fri.log_blowup,
            run.log_blowup >= 1,
            honest_pruned::in_word(run, queries@),
        ensures
            r@.len() == queries@.len(),
            forall|i: int|
                0 <= i < queries@.len() ==> self.query_answered(
                    run,
                    queries@[i] as nat,
                    #[trigger] r@[i],
                ),
    {
        let n: usize = queries.len();
        let mut r: Vec<QueryProof<F, EF>> = Vec::new();
        let mut i: usize = 0;
        while i < n
            invariant
                i <= n,
                n == queries@.len(),
                run.sound(),
                run.plan.k <= run.num_vars(),
                run.plan.schedule == schedule::per_round_schedule(run.num_vars(), run.plan.k),
                self.rounds_made(run, trees@),
                run.log_blowup == self.fri.log_blowup,
                run.log_blowup >= 1,
                honest_pruned::in_word(run, queries@),
                r@.len() == i,
                forall|j: int|
                    0 <= j < i ==> self.query_answered(
                        run,
                        queries@[j] as nat,
                        #[trigger] r@[j],
                    ),
            decreases n - i,
        {
            assert(queries@[i as int] < pow2(run.num_vars() + run.log_blowup));
            let answer = self.answer_query(trees, queries[i], Ghost(run));
            r.push(answer);
            i += 1;
        }
        r
    }

    /// Answers all queries group by group.
    fn answer_each_cross_round<EF: TwoAdicExtension<F>>(
        &self,
        trees: &Vec<F::Tree>,
        schedule: &Vec<CommitGroup>,
        queries: &Vec<usize>,
        Ghost(run): Ghost<Run<F, EF>>,
    ) -> (r: Vec<CrossRoundQueryProof<F, EF>>)
        requires
            run.sound(),
            run.plan.k <= run.num_vars(),
            run.plan.schedule == schedule@,
            schedule::tiles(schedule@, run.num_vars(), run.plan.k),
            self.rounds_made(run, trees@),
            run.log_blowup == self.fri.log_blowup,
            honest_pruned::in_word(run, queries@),
        ensures
            r@.len() == queries@.len(),
            forall|i: int|
                0 <= i < queries@.len() ==> self.cross_answered(
                    run,
                    queries@[i] as nat,
                    #[trigger] r@[i],
                ),
    {
        let n: usize = queries.len();
        let mut r: Vec<CrossRoundQueryProof<F, EF>> = Vec::new();
        let mut i: usize = 0;
        while i < n
            invariant
                i <= n,
                n == queries@.len(),
                run.sound(),
                run.plan.k <= run.num_vars(),
                run.plan.schedule == schedule@,
                schedule::tiles(schedule@, run.num_vars(), run.plan.k),
                self.rounds_made(run, trees@),
                run.log_blowup == self.fri.log_blowup,
                honest_pruned::in_word(run, queries@),
                r@.len() == i,
                forall|j: int|
                    0 <= j < i ==> self.cross_answered(
                        run,
                        queries@[j] as nat,
                        #[trigger] r@[j],
                    ),
            decreases n - i,
        {
            assert(queries@[i as int] < pow2(run.num_vars() + run.log_blowup));
            let answer = self.answer_cross_round(trees, schedule, queries[i], Ghost(run));
            r.push(answer);
            i += 1;
        }
        r
    }

    /// Opens committed matrices at a point: makes the proof that their columns take the given
    /// values there.
    ///
    /// The opening fails where the sizes of the inputs do not match, and where no proof of work
    /// exists.
    #[verifier::spinoff_prover]
    #[verifier::rlimit(80)]
    pub fn open<EF: TwoAdicExtension<F>>(
        &self,
        polynomials_batch: &Vec<Vec<CompressedMatrix<F>>>,
        prover_data_batch: &Vec<F::Tree>,
        opening_point: &Vec<EF>,
        opened_values: &Vec<Vec<Vec<EF>>>,
        challenger: &mut DuplexChallenger<F>,
    ) -> (r: Result<BasefoldProof<F, EF>, BaseFoldError>)
        requires
            batches_complete(polynomials_batch@),
            self.can_open(
                self.request(
                    polynomials_batch@,
                    prover_data_batch@,
                    opening_point@,
                    opened_values@,
                    old(challenger)@,
                ),
            ),
        ensures
            final(challenger)@.wf(),
            ({
                let q = self.request(
                    polynomials_batch@,
                    prover_data_batch@,
                    opening_point@,
                    opened_values@,
                    old(challenger)@,
                );
                match r {
                    Ok(p) => q.matches() && self.opening_made(q, p, final(challenger)@),
                    Err(e) => if !q.matches() {
                        e == BaseFoldError::InvalidInputError && final(challenger)@ == old(
                            challenger,
                        )@
                    } else {
                        e == BaseFoldError::CannotFindPowWitness && self.work_missing(
                            q,
                            final(challenger)@,
                        )
                    },
                }
            }),
    {
        let ghost q = self.request(
            polynomials_batch@,
            prover_data_batch@,
            opening_point@,
            opened_values@,
            challenger@,
        );
        let degree: usize = EF::extension_degree();
        proof {
            EF::law_coeffs(EF::zero_elem(), Seq::empty());
        }
        let matrices = decompress_batches(polynomials_batch);
        proof {
            assert(prover::batch_models(matrices@) == q.matrices);
            assert forall|b: int, m: int|
                0 <= b < matrices@.len() && 0 <= m < matrices@[b]@.len() implies (
            #[trigger] matrices@[b]@[m]).width > 0 by {
                assert(q.matrices[b] == mmcs::models(matrices@[b]@));
                assert(q.matrices[b][m] == matrices@[b]@[m]@);
                assert(q.matrices[b][m].width > 0);
            }
        }
        let sizes = sizes_of(&matrices);
        proof {
            assert(groups::value_lens(opened_values@) =~= lens(q.values)) by {
                assert forall|b: int| 0 <= b < opened_values@.len() implies groups::value_lens(
                    opened_values@,
                )[b] == lens(q.values)[b] by {
                    assert(groups::value_lens(opened_values@)[b] =~= lens(q.values)[b]);
                }
            }
        }
        match validate_verify_inputs(degree, prover_data_batch.len(), &sizes, opened_values) {
            Err(e) => {
                return Err(e);
            },
            Ok(_) => {},
        }
        proof {
            lemma_request(*self, q);
        }
        let num_vars: usize = opening_point.len();
        let alpha: EF = challenger.sample_ext_element();
        proof {
            assert forall|b: int, m: int|
                0 <= b < sizes@.len() && 0 <= m < sizes@[b]@.len() implies bits::power_of_two(
                (#[trigger] sizes@[b]@[m]).height as nat,
            ) by {
                assert(q.sizes()[b][m] == sizes@[b]@[m].height as nat);
            }
        }
        let tops = greatest_heights(&sizes);
        let groups: Vec<HeightGroup<EF>> = group_by_height(&sizes, opened_values, alpha, num_vars);
        let ghost models = batch::group_models(groups@);
        proof {
            assert(models == q.groups());
            assert forall|g: int| 0 <= g < groups@.len() implies (
            #[trigger] groups@[g]).log_height < usize::BITS && groups@[g].log_height <= num_vars by {
                assert(models[g].log_height == groups@[g].log_height as nat);
            }
        }
        let tables: Vec<Vec<EF>> = combine_tables(&groups, &matrices);
        proof {
            assert(prover::table_views(tables@) == q.tables());
            assert forall|g: int| 0 <= g < groups@.len() implies (#[trigger] tables@[g])@.len()
                == pow2(groups@[g].log_height as nat) by {
                assert(prover::table_views(tables@)[g] == q.tables()[g]);
                assert(models[g].log_height == groups@[g].log_height as nat);
            }
        }
        let batching_witness: Vec<F> = match self.find_pow_witness(
            challenger,
            self.fri.grinding_bits_batching,
        ) {
            Err(e) => {
                return Err(e);
            },
            Ok(v) => v,
        };
        let ghost before = challenger@;
        let claims: Vec<EF> = true_claims(&groups, &tables, opening_point);
        let count: usize = groups.len();
        proof {
            assert(models[count - 1].log_height == q.heights()[count - 1]);
            assert(models[count - 1].log_height == groups@[count - 1].log_height as nat);
        }
        let low: usize = groups[count - 1].log_height;
        let k: usize = if self.fri.log_final_poly_len <= low {
            self.fri.log_final_poly_len
        } else {
            low
        };
        let mut present: Vec<usize> = Vec::new();
        let mut i: usize = 0;
        while i < count
            invariant
                i <= count,
                count == groups@.len(),
                models == batch::group_models(groups@),
                q.heights().len() == count,
                forall|j: int|
                    0 <= j < models.len() ==> (#[trigger] models[j]).log_height == q.heights()[j],
                present@.len() == i,
                forall|j: int| 0 <= j < i ==> #[trigger] present@[j] == q.heights()[j],
            decreases count - i,
        {
            assert(models[i as int].log_height == q.heights()[i as int]);
            present.push(groups[i].log_height);
            i += 1;
        }
        let schedule: Vec<CommitGroup> = compute_commit_schedule_cross_round(
            &present,
            num_vars,
            k,
            self.use_cross_round,
            self.max_fold_override,
        );
        let ghost base = self.base_plan(q);
        proof {
            assert(present@ =~= Seq::new(q.heights().len(), |i: int| q.heights()[i] as usize));
            assert(schedule@ == base.schedule);
            assert(prove_rounds::groups_planned(base, groups@, tables@, claims@)) by {
                assert forall|g: int| 0 <= g < groups@.len() implies {
                    &&& (#[trigger] base.groups[g]).log_height == groups@[g].log_height
                    &&& base.groups[g].claim == claims@[g]
                    &&& claims@[g].valid()
                    &&& tables@[g]@.len() == pow2(base.groups[g].log_height)
                    &&& field::all_valid(tables@[g]@)
                } by {
                    assert(models[g].log_height == groups@[g].log_height as nat);
                    assert(claims@[g] == prover::true_groups(
                        models,
                        prover::table_views(tables@),
                        opening_point@,
                    )[g].claim);
                }
            }
            assert(models[0].log_height == q.heights()[0]);
        }
        let made = self.prove_rounds(
            &groups,
            &tables,
            &claims,
            opening_point,
            &schedule,
            k,
            challenger,
            Ghost(base),
        );
        let ghost run = Run {
            plan: made.plan(base),
            tables: q.tables(),
            point: opening_point@,
            transcript: before,
            log_blowup: self.fri.log_blowup as nat,
        };
        proof {
            lemma_sound(*self, q, run);
        }
        let query_witness: Vec<F> = match self.find_pow_witness(
            challenger,
            self.fri.grinding_bits_query,
        ) {
            Err(e) => {
                proof {
                    let w = Work { batching: batching_witness@, made: made };
                    assert(self.rounds_before_missing(q, w, challenger@));
                }
                return Err(e);
            },
            Ok(v) => v,
        };
        let queries: Vec<usize> = challenger.sample_bits_vec(
            num_vars + self.fri.log_blowup,
            self.fri.num_queries,
        );
        proof {
            assert forall|b: int| 0 <= b < tops@.len() implies (#[trigger] tops@[b]) as nat
                == batch::max_log_height(mmcs::heights_of(q.matrices[b])) by {
                assert(batch::size_heights(sizes@)[b] == q.sizes()[b]);
            }
            assert(honest_pruned::in_word(run, queries@));
        }
        let query_openings = self.open_inputs(
            prover_data_batch,
            &tops,
            num_vars,
            &queries,
            Ghost(q.matrices),
        );
        let mut iopp_queries: Vec<QueryProof<F, EF>> = Vec::new();
        let mut iopp_cross_round: Vec<CrossRoundQueryProof<F, EF>> = Vec::new();
        let mut iopp_pruned = None;
        let mut iopp_cross_round_pruned = None;
        if self.use_path_pruning && self.use_cross_round {
            iopp_cross_round_pruned = Some(
                self.answer_groups_pruned(&made.trees, &schedule, &queries, Ghost(run)),
            );
        } else if self.use_path_pruning {
            iopp_pruned = Some(self.answer_queries_pruned(&made.trees, &queries, Ghost(run)));
        } else if self.use_cross_round {
            iopp_cross_round = self.answer_each_cross_round(
                &made.trees,
                &schedule,
                &queries,
                Ghost(run),
            );
        } else {
            iopp_queries = self.answer_each(&made.trees, &queries, Ghost(run));
        }
        let p = BasefoldProof {
            sumcheck_transcript: SumcheckInstanceProof::new(made.polys),
            iopp_oracles: made.oracles,
            iopp_queries,
            query_openings,
            grinding_batching_witness: batching_witness,
            grinding_query_witness: query_witness,
            out_of_domain_responses: None,
            final_poly: made.final_poly,
            iopp_pruned,
            iopp_cross_round,
            iopp_cross_round_pruned,
        };
        proof {
            assert(self.run_of(q, p) == run);
        }
        Ok(p)
    }

    /// The request of an opening.
    pub open spec fn request<EF: TwoAdicExtension<F>>(
        self,
        polynomials: Seq<Vec<CompressedMatrix<F>>>,
        trees: Seq<F::Tree>,
        point: Seq<EF>,
        values: Seq<Vec<Vec<EF>>>,
        transcript: Transcript<F>,
    ) -> Request<F, EF> {
        Request {
            matrices: batches_written_out(polynomials),
            trees,
            point,
            values: mmcs::row_sets_of(values),
            transcript,
        }
    }

    /// The rounds were made, and then there is no proof of work for the queries.
    pub open spec fn rounds_before_missing<EF: TwoAdicExtension<F>>(
        self,
        q: Request<F, EF>,
        w: Work<F, EF>,
        end: Transcript<F>,
    ) -> bool {
        let t = q.transcript.sampled_ext::<EF>();
        let run = Run {
            plan: w.made.plan(self.base_plan(q)),
            tables: q.tables(),
            point: q.point,
            transcript: t.observed(w.batching[0]).checked_witness(w.batching[1]),
            log_blowup: self.fri.log_blowup as nat,
        };
        &&& w.batching.len() == 2
        &&& prover::is_work(
            t,
            self.fri.grinding_bits_batching as nat,
            w.batching[0],
            w.batching[1],
        )
        &&& self.run_made(run)
        &&& end == self.after_rounds(run)
        &&& prover::no_work(end, self.fri.grinding_bits_query as nat)
    }

    /// There is no proof of work for the batching challenge, or none for the queries.
    pub open spec fn work_missing<EF: TwoAdicExtension<F>>(
        self,
        q: Request<F, EF>,
        end: Transcript<F>,
    ) -> bool {
        let t = q.transcript.sampled_ext::<EF>();
        ||| (end == t && prover::no_work(t, self.fri.grinding_bits_batching as nat))
        ||| exists|w: Work<F, EF>| #[trigger] self.rounds_before_missing(q, w, end)
    }
}

/// What an opening makes before the proof of work for the queries.
pub struct Work<F: MerkleField, EF> {
    pub batching: Seq<F>,
    pub made: prove_rounds::RoundsProof<F, EF>,
}

} // verus!
