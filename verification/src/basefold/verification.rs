//! The verifier of the commitment scheme.
use vstd::prelude::*;
use vstd::arithmetic::power2::*;
use crate::basefold::batch;
use crate::basefold::batch::{check_rows, codeword_dims, compute_leaf_sums, HeightGroup};
use crate::basefold::challenger;
use crate::basefold::challenger::DuplexChallenger;
use crate::basefold::encode::encode_to_codeword;
use crate::basefold::eqpoly;
use crate::basefold::eqpoly::EqPolynomial;
use crate::basefold::ext_mmcs::commit_matrix;
use crate::basefold::groups;
use crate::basefold::groups::{group_by_height, validate_verify_inputs};
use crate::basefold::mmcs;
use crate::basefold::mmcs::{Dimensions, MerkleField};
use crate::basefold::openings::{BaseFoldError, BasefoldProof, PrunedQueryOpenings};
use crate::basefold::pcs::BaseFoldPcs;
use crate::basefold::pruned;
use crate::basefold::query;
use crate::basefold::query::Iopp;
use crate::basefold::rounds;
use crate::basefold::rounds::{verify_rounds, RoundResult};
use crate::basefold::schedule;
use crate::basefold::schedule::{compute_commit_schedule_cross_round, CommitGroup};
use crate::basefold::verdict;
use crate::bits;
use crate::field;
use crate::field::algebra;
use crate::field::{ExtensionField, Field, TwoAdicExtension};

verus! {

/// Every query has a place among the opened rows of a batch.
pub open spec fn has_slots<F>(opened: PrunedQueryOpenings<F>, queries: nat, b: int) -> bool {
    let slots = opened.query_to_unique_slot@[b]@;
    &&& slots.len() >= queries
    &&& forall|q: int|
        0 <= q < queries ==> (#[trigger] slots[q]) < opened.round_opened_values@[b]@.len()
}

/// Every place is one of the opened rows.
fn slots_in_range(slots: &Vec<u32>, rows: usize) -> (r: bool)
    ensures
        r == forall|q: int| 0 <= q < slots@.len() ==> (#[trigger] slots@[q]) < rows,
{
    let mut q: usize = 0;
    while q < slots.len()
        invariant
            q <= slots@.len(),
            forall|j: int| 0 <= j < q ==> (#[trigger] slots@[j]) < rows,
        decreases slots@.len() - q,
    {
        if slots[q] as usize >= rows {
            assert(!(slots@[q as int] < rows));
            return false;
        }
        q += 1;
    }
    true
}

/// The digests are the same.
pub(crate) fn same_digest<F: Field>(a: &Vec<F>, b: &Vec<F>) -> (r: bool)
    ensures
        r == (a@ == b@),
{
    if a.len() != b.len() {
        return false;
    }
    let mut i: usize = 0;
    while i < a.len()
        invariant
            i <= a@.len() == b@.len(),
            forall|j: int| 0 <= j < i ==> a@[j] == b@[j],
        decreases a@.len() - i,
    {
        if !a[i].is_equal(&b[i]) {
            return false;
        }
        i += 1;
    }
    proof {
        assert(a@ =~= b@);
    }
    true
}

/// The sequence from its end.
pub(crate) fn reversed<T: Copy>(v: &Vec<T>) -> (r: Vec<T>)
    ensures
        r@ == v@.reverse(),
{
    let n: usize = v.len();
    let mut r: Vec<T> = Vec::new();
    let mut i: usize = 0;
    while i < n
        invariant
            i <= n,
            n == v@.len(),
            r@ == v@.reverse().take(i as int),
        decreases n - i,
    {
        r.push(v[n - 1 - i]);
        i += 1;
        proof {
            assert(r@ =~= v@.reverse().take(i as int));
        }
    }
    proof {
        assert(v@.reverse().take(n as int) =~= v@.reverse());
    }
    r
}

/// The first elements of the sequence.
pub(crate) fn front<T: Copy>(v: &Vec<T>, n: usize) -> (r: Vec<T>)
    requires
        n <= v@.len(),
    ensures
        r@ == v@.take(n as int),
{
    let mut r: Vec<T> = Vec::new();
    let mut i: usize = 0;
    while i < n
        invariant
            i <= n <= v@.len(),
            r@ == v@.take(i as int),
        decreases n - i,
    {
        r.push(v[i]);
        i += 1;
        proof {
            assert(r@ =~= v@.take(i as int));
        }
    }
    r
}

/// The rows of a query fit the groups where their widths fit the values.
pub(crate) proof fn lemma_rows_fit<F: Field, EF: ExtensionField<F>>(
    sizes: Seq<Seq<nat>>,
    values: Seq<Seq<Seq<EF>>>,
    alpha: EF,
    end: nat,
    rows: Seq<Seq<Seq<F>>>,
)
    requires
        groups::values_shape(values, sizes),
        rows.len() >= sizes.len(),
        forall|b: int| 0 <= b < sizes.len() ==> (#[trigger] rows[b]).len() >= sizes[b].len(),
        verdict::widths_fit(EF::degree(), rows, values),
    ensures
        batch::rows_fit(groups::groups_below(sizes, values, alpha, 0, end), rows),
{
    groups::lemma_groups_wf(sizes, values, alpha, 0, end);
    let g = groups::groups_below(sizes, values, alpha, 0, end);
    assert forall|i: int, j: int|
        0 <= i < g.len() && 0 <= j < g[i].entries.len() implies batch::entry_fits(
        #[trigger] g[i].entries[j],
        rows,
    ) by {
        let e = g[i].entries[j];
        assert(groups::entry_wf(sizes, values, e));
        assert(rows[e.batch as int].len() >= sizes[e.batch as int].len());
        assert(values[e.batch as int].len() == sizes[e.batch as int].len());
        assert(rows[e.batch as int][e.matrix as int].len() == values[e.batch as int][e.matrix as int].len()
            || rows[e.batch as int][e.matrix as int].len() == values[e.batch as int][e.matrix as int].len()
            * EF::degree());
    }
}

/// A query fits the tail where the rounds before the last `k` are opened.
proof fn lemma_tail_fits<F: MerkleField, EF: TwoAdicExtension<F>>(
    c: Iopp<F, EF>,
    query: nat,
    openings: nat,
    k: nat,
)
    requires
        c.wf(),
        query < pow2(c.num_vars() + c.log_blowup),
        k <= c.num_vars(),
        verdict::enough_openings(openings, c.oracles.len(), c.num_vars(), k),
        c.final_codeword matches Some(word) ==> word.len() == pow2(k + c.log_blowup),
    ensures
        query::tail_fits(c, query / pow2(query::committed(c, openings)), openings),
{
    if c.final_codeword is Some && openings < c.num_vars() {
        let done = query::committed(c, openings);
        query::lemma_shifted(query, c.num_vars() + c.log_blowup, done);
        bits::lemma_log2_pow2(k + c.log_blowup);
        let rest = (c.num_vars() + c.log_blowup - done) as nat;
        if rest < k + c.log_blowup {
            lemma_pow2_strictly_increases(rest, k + c.log_blowup);
        }
    }
}

impl<F: MerkleField> BaseFoldPcs<F> {
    /// Checks the opened rows of the committed matrices of all queries.
    fn verify_pruned_inputs(
        &self,
        commitments: &Vec<Vec<F>>,
        dims: &Vec<Vec<Dimensions>>,
        num_vars: usize,
        queries: usize,
        opened: &PrunedQueryOpenings<F>,
    ) -> (r: bool)
        requires
            mmcs::are_digests(mmcs::rows_of(commitments@)),
            commitments@.len() == dims@.len(),
            batch::sizes_wf(batch::size_heights(dims@), num_vars as nat),
            num_vars + self.fri.log_blowup < usize::BITS,
            verdict::input_lens_match(*opened, dims@.len()),
            pruned::proofs_wf(opened.round_pruned@),
            forall|b: int|
                0 <= b < opened.round_opened_values@.len() ==> mmcs::row_sets_valid(
                    mmcs::row_sets_of((#[trigger] opened.round_opened_values@[b])@),
                ),
        ensures
            r == verdict::inputs_accepted(
                self.rounds(),
                self.fri.log_blowup as nat,
                mmcs::rows_of(commitments@),
                batch::size_heights(dims@),
                queries as nat,
                *opened,
            ),
            r ==> forall|b: int|
                0 <= b < dims@.len() ==> mmcs::sets_have(
                    mmcs::row_sets_of((#[trigger] opened.round_opened_values@[b])@),
                    dims@[b]@.len(),
                ),
    {
        let log_blowup: usize = self.fri.log_blowup;
        let ghost roots = mmcs::rows_of(commitments@);
        let ghost heights = batch::size_heights(dims@);
        let mut b: usize = 0;
        while b < dims.len()
            invariant
                b <= dims@.len(),
                log_blowup == self.fri.log_blowup,
                roots == mmcs::rows_of(commitments@),
                heights == batch::size_heights(dims@),
                mmcs::are_digests(roots),
                commitments@.len() == dims@.len(),
                batch::sizes_wf(heights, num_vars as nat),
                num_vars + log_blowup < usize::BITS,
                verdict::input_lens_match(*opened, dims@.len()),
                pruned::proofs_wf(opened.round_pruned@),
                forall|b: int|
                    0 <= b < opened.round_opened_values@.len() ==> mmcs::row_sets_valid(
                        mmcs::row_sets_of((#[trigger] opened.round_opened_values@[b])@),
                    ),
                forall|j: int|
                    0 <= j < b ==> #[trigger] verdict::input_accepted(
                        self.rounds(),
                        log_blowup as nat,
                        roots,
                        heights,
                        queries as nat,
                        *opened,
                        j,
                    ),
                forall|j: int|
                    0 <= j < b ==> mmcs::sets_have(
                        mmcs::row_sets_of((#[trigger] opened.round_opened_values@[j])@),
                        dims@[j]@.len(),
                    ),
            decreases dims@.len() - b,
        {
            let rows: &Vec<Vec<Vec<F>>> = &opened.round_opened_values[b];
            let slots: &Vec<u32> = &opened.query_to_unique_slot[b];
            let ghost accepted = verdict::input_accepted(
                self.rounds(),
                log_blowup as nat,
                roots,
                heights,
                queries as nat,
                *opened,
                b as int,
            );
            if slots.len() != queries || !slots_in_range(slots, rows.len()) {
                assert(!accepted);
                return false;
            }
            proof {
                assert(heights[b as int] == mmcs::dim_heights(dims@[b as int]@));
                assert(batch::heights_wf(heights[b as int], num_vars as nat));
                assert(mmcs::is_digest(roots[b as int]));
                assert(mmcs::are_digests(opened.round_pruned@[b as int]@.siblings));
                assert(mmcs::row_sets_valid(
                    mmcs::row_sets_of(opened.round_opened_values@[b as int]@),
                ));
            }
            let sizes: Vec<Dimensions> = codeword_dims(&dims[b], log_blowup, num_vars);
            if !F::verify_batch_pruned(
                &self.permutation,
                &commitments[b],
                &sizes,
                rows,
                &opened.round_pruned[b],
            ) {
                assert(!accepted);
                return false;
            }
            b += 1;
        }
        true
    }

    /// The linear combinations of the opened rows of all queries, where there are rows for them.
    fn compute_pruned_sums<EF: TwoAdicExtension<F>>(
        &self,
        groups: &Vec<HeightGroup<EF>>,
        opened: &PrunedQueryOpenings<F>,
        queries: usize,
        num_vars: usize,
        betas: &Vec<EF>,
    ) -> (r: Option<Vec<Vec<(usize, EF)>>>)
        requires
            batch::groups_wf(batch::group_models(groups@), num_vars as nat, betas@.len()),
            num_vars + self.fri.log_blowup < usize::BITS,
            verdict::input_lens_match(*opened, opened.round_opened_values@.len()),
            forall|b: int|
                0 <= b < opened.round_opened_values@.len() ==> #[trigger] has_slots(
                    *opened,
                    queries as nat,
                    b,
                ),
        ensures
            r is Some <==> verdict::pruned_rows_fit(
                batch::group_models(groups@),
                *opened,
                queries as nat,
            ),
            r matches Some(sums) ==> pruned::all_sums(sums@) == verdict::pruned_sums(
                batch::group_models(groups@),
                *opened,
                queries as nat,
                self.fri.log_blowup as nat,
            ) && pruned::all_sums_wf(pruned::all_sums(sums@), betas@),
    {
        let log_blowup: usize = self.fri.log_blowup;
        let mut r: Vec<Vec<(usize, EF)>> = Vec::new();
        let mut q: usize = 0;
        while q < queries
            invariant
                q <= queries,
                log_blowup == self.fri.log_blowup,
                batch::groups_wf(batch::group_models(groups@), num_vars as nat, betas@.len()),
                num_vars + log_blowup < usize::BITS,
                verdict::input_lens_match(*opened, opened.round_opened_values@.len()),
                forall|b: int|
                0 <= b < opened.round_opened_values@.len() ==> #[trigger] has_slots(
                    *opened,
                    queries as nat,
                    b,
                ),
                forall|j: int|
                    0 <= j < q ==> batch::rows_fit(
                        batch::group_models(groups@),
                        #[trigger] verdict::rows_for_query(*opened, j),
                    ),
                r@.len() == q,
                forall|j: int|
                    0 <= j < q ==> (#[trigger] r@[j])@ == batch::leaf_sums(
                        batch::group_models(groups@),
                        verdict::rows_for_query(*opened, j),
                        log_blowup as nat,
                    ) && query::sums_wf(r@[j]@, betas@),
            decreases queries - q,
        {
            let mut rows: Vec<&Vec<Vec<F>>> = Vec::new();
            let mut b: usize = 0;
            while b < opened.round_opened_values.len()
                invariant
                    b <= opened.round_opened_values@.len(),
                    q < queries,
                    verdict::input_lens_match(*opened, opened.round_opened_values@.len()),
                    forall|b: int|
                0 <= b < opened.round_opened_values@.len() ==> #[trigger] has_slots(
                    *opened,
                    queries as nat,
                    b,
                ),
                    rows@.len() == b,
                    forall|j: int|
                        0 <= j < b ==> *(#[trigger] rows@[j])
                            == opened.round_opened_values@[j]@[opened.query_to_unique_slot@[j]@[q as int] as int],
                decreases opened.round_opened_values@.len() - b,
            {
                proof {
                    assert(has_slots(*opened, queries as nat, b as int));
                }
                let slot: usize = opened.query_to_unique_slot[b][q] as usize;
                rows.push(&opened.round_opened_values[b][slot]);
                b += 1;
            }
            proof {
                assert(batch::borrowed_rows(rows@) =~= verdict::rows_for_query(*opened, q as int));
                assert forall|i: int| 0 <= i < groups@.len() implies (
                #[trigger] groups@[i]).log_height + log_blowup <= usize::MAX by {
                    assert(batch::group_models(groups@)[i].log_height <= num_vars);
                }
            }
            if !check_rows(groups, &rows) {
                assert(!batch::rows_fit(
                    batch::group_models(groups@),
                    verdict::rows_for_query(*opened, q as int),
                ));
                return None;
            }
            r.push(compute_leaf_sums(groups, &rows, log_blowup));
            q += 1;
        }
        proof {
            assert(pruned::all_sums(r@) =~= verdict::pruned_sums(
                batch::group_models(groups@),
                *opened,
                queries as nat,
                log_blowup as nat,
            ));
        }
        Some(r)
    }

    /// Whether there is an opening for each query.
    fn check_every_query<EF>(&self, p: &BasefoldProof<F, EF>) -> (r: bool)
        ensures
            r == self.every_query_opened(*p),
    {
        let answers: usize = if p.iopp_cross_round.len() > 0 {
            p.iopp_cross_round.len()
        } else {
            p.iopp_queries.len()
        };
        p.query_openings.per_query.len() == self.fri.num_queries && answers
            == self.fri.num_queries
    }

    /// Whether there is a root for each group of rounds, and the rounds before an early stop are
    /// opened.
    fn check_reach<EF>(
        &self,
        oracles: usize,
        num_vars: usize,
        k: usize,
        schedule: usize,
        p: &BasefoldProof<F, EF>,
    ) -> (r: bool)
        requires
            k <= num_vars,
        ensures
            r == self.openings_reach(
                oracles as nat,
                num_vars as nat,
                k as nat,
                schedule as nat,
                *p,
            ),
    {
        if p.iopp_cross_round.len() > 0 || p.iopp_cross_round_pruned.is_some() {
            return oracles >= schedule;
        }
        if k == 0 {
            return true;
        }
        if p.iopp_pruned.is_some() {
            return oracles >= num_vars - k;
        }
        let mut q: usize = 0;
        while q < p.iopp_queries.len()
            invariant
                q <= p.iopp_queries@.len(),
                k <= num_vars,
                k > 0,
                p.iopp_cross_round@.len() == 0,
                p.iopp_cross_round_pruned is None,
                p.iopp_pruned is None,
                forall|j: int|
                    0 <= j < q ==> verdict::enough_openings(
                        (#[trigger] p.iopp_queries@[j]).commit_phase_openings@.len(),
                        oracles as nat,
                        num_vars as nat,
                        k as nat,
                    ),
            decreases p.iopp_queries@.len() - q,
        {
            let n: usize = p.iopp_queries[q].commit_phase_openings.len();
            if n < num_vars && (n < num_vars - k || oracles < num_vars - k) {
                assert(!verdict::enough_openings(
                    p.iopp_queries@[q as int].commit_phase_openings@.len(),
                    oracles as nat,
                    num_vars as nat,
                    k as nat,
                ));
                return false;
            }
            q += 1;
        }
        true
    }

    /// Checks the queries.
    fn verify_queries<EF: TwoAdicExtension<F>>(
        &self,
        commitments: &Vec<Vec<F>>,
        dims: &Vec<Vec<Dimensions>>,
        Ghost(values): Ghost<Seq<Seq<Seq<EF>>>>,
        Ghost(alpha): Ghost<EF>,
        stop: usize,
        groups: &Vec<HeightGroup<EF>>,
        schedule: &Vec<CommitGroup>,
        p: &BasefoldProof<F, EF>,
        query_points: &Vec<usize>,
        challenges: &Vec<EF>,
        betas: &Vec<EF>,
        point: &Vec<EF>,
        expected: &EF,
        final_codeword: &Option<Vec<EF>>,
    ) -> (r: Result<(), BaseFoldError>)
        requires
            mmcs::are_digests(mmcs::rows_of(commitments@)),
            commitments@.len() == dims@.len(),
            batch::sizes_wf(batch::size_heights(dims@), challenges@.len()),
            groups::values_shape(values, batch::size_heights(dims@)),
            batch::group_models(groups@) == groups::groups_below(
                batch::size_heights(dims@),
                values,
                alpha,
                0,
                challenges@.len() + 1,
            ),
            groups@.len() == betas@.len() + 1,
            self.iopp(
                p.iopp_oracles@,
                challenges@,
                betas@,
                point@,
                *expected,
                *final_codeword,
            ).wf(),
            stop <= challenges@.len(),
            stop as nat == self.stop(
                groups::group_heights(batch::size_heights(dims@), challenges@.len() + 1),
            ),
            final_codeword is Some <==> stop > 0,
            final_codeword matches Some(word) ==> word@.len() == pow2(
                stop as nat + self.fri.log_blowup as nat,
            ),
            schedule@ == self.schedule_of(
                groups::group_heights(batch::size_heights(dims@), challenges@.len() + 1),
                challenges@.len(),
                *p,
            ),
            self.group_lens_match(schedule@.len(), *p),
            self.modes_match(*p),
            self.proof_canonical(*p),
            query_points@.len() == self.fri.num_queries,
            forall|q: int|
                0 <= q < query_points@.len() ==> (#[trigger] query_points@[q]) < pow2(
                    challenges@.len() + self.fri.log_blowup as nat,
                ),
            pow2(challenges@.len()) * EF::degree() <= usize::MAX,
            2 * EF::degree() <= usize::MAX,
        ensures
            r == self.queries_verdict(
                self.iopp(
                    p.iopp_oracles@,
                    challenges@,
                    betas@,
                    point@,
                    *expected,
                    *final_codeword,
                ),
                mmcs::rows_of(commitments@),
                batch::size_heights(dims@),
                batch::group_models(groups@),
                stop as nat,
                schedule@,
                *p,
                query_points@,
            ),
    {
        let ghost k = stop as nat;
        let ghost c = self.iopp(
            p.iopp_oracles@,
            challenges@,
            betas@,
            point@,
            *expected,
            *final_codeword,
        );
        let ghost roots = mmcs::rows_of(commitments@);
        let ghost sizes = batch::size_heights(dims@);
        let ghost models = batch::group_models(groups@);
        let num_vars: usize = challenges.len();
        let ghost heights = groups::group_heights(sizes, (num_vars + 1) as nat);
        proof {
            rounds::lemma_groups_below(sizes, values, alpha, 0, (num_vars + 1) as nat);
            groups::lemma_groups_wf(sizes, values, alpha, 0, (num_vars + 1) as nat);
            assert(batch::groups_wf(models, num_vars as nat, betas@.len())) by {
                assert forall|i: int| 0 <= i < models.len() implies (
                #[trigger] models[i]).log_height <= num_vars by {}
            }
            schedule::law_schedule_tiles(
                Seq::new(heights.len(), |i: int| heights[i] as usize),
                num_vars as nat,
                k,
                p.iopp_cross_round@.len() > 0 || p.iopp_cross_round_pruned is Some,
                schedule::max_log_folding_of(self.max_fold_override) as nat,
            );
            rounds::lemma_tiles(schedule@, num_vars as nat, k);
        }
        if p.iopp_cross_round_pruned.is_some() || p.iopp_pruned.is_some() {
            let opened: &PrunedQueryOpenings<F> = match &p.query_openings.pruned {
                Some(o) => o,
                None => {
                    return Err(BaseFoldError::InvalidInputError);
                },
            };
            let n: usize = query_points.len();
            let batches: usize = dims.len();
            if opened.round_pruned.len() != batches || opened.round_opened_values.len() != batches
                || opened.query_to_unique_slot.len() != batches {
                return Err(BaseFoldError::InvalidInputError);
            }
            if !self.verify_pruned_inputs(commitments, dims, num_vars, n, opened) {
                return Err(BaseFoldError::FriFinalStepMisMatch);
            }
            proof {
                assert forall|b: int| 0 <= b < opened.round_opened_values@.len() implies
                    #[trigger] has_slots(*opened, n as nat, b) by {
                    assert(verdict::input_accepted(
                        self.rounds(),
                        self.fri.log_blowup as nat,
                        roots,
                        sizes,
                        n as nat,
                        *opened,
                        b,
                    ));
                }
            }
            let sums: Vec<Vec<(usize, EF)>> = match self.compute_pruned_sums(
                groups,
                opened,
                n,
                num_vars,
                betas,
            ) {
                None => {
                    return Err(BaseFoldError::FriFinalStepMisMatch);
                },
                Some(sums) => sums,
            };
            if !self.check_reach(p.iopp_oracles.len(), num_vars, stop, schedule.len(), p) {
                return Err(BaseFoldError::FriFinalStepMisMatch);
            }
            assert(sums@.len() == pruned::all_sums(sums@).len());
            let verdict: Result<(), BaseFoldError> = match (
            &p.iopp_cross_round_pruned, &p.iopp_pruned) {
                (Some(crp), _) => self.verify_cross_round_pruned_queries(
                    &p.iopp_oracles,
                    query_points,
                    &sums,
                    crp,
                    schedule,
                    challenges,
                    betas,
                    point,
                    expected,
                    final_codeword,
                ),
                (None, Some(paths)) => {
                    proof {
                        if k > 0 && p.iopp_oracles@.len() < num_vars {
                            let rest = (num_vars + self.fri.log_blowup - p.iopp_oracles@.len()) as nat;
                            if rest < k + self.fri.log_blowup {
                                lemma_pow2_strictly_increases(
                                    rest,
                                    (k + self.fri.log_blowup) as nat,
                                );
                            }
                        }
                    }
                    self.verify_queries_iopp_p3_pruned_basefold(
                        &p.iopp_oracles,
                        query_points,
                        &sums,
                        paths,
                        challenges,
                        betas,
                        point,
                        expected,
                        final_codeword,
                    )
                },
                (None, None) => Ok(()),
            };
            match verdict {
                Ok(_) => Ok(()),
                Err(_) => Err(BaseFoldError::FriFinalStepMisMatch),
            }
        } else if !self.check_every_query(p) || !self.check_reach(
            p.iopp_oracles.len(),
            num_vars,
            stop,
            schedule.len(),
            p,
        ) {
            Err(BaseFoldError::InvalidInputError)
        } else if p.iopp_cross_round.len() > 0 {
            let mut q: usize = 0;
            while q < query_points.len()
                invariant
                    q <= query_points@.len(),
                    self.every_query_opened(*p),
                    self.openings_reach(c.oracles.len(), c.num_vars(), k, schedule@.len(), *p),
                    k == stop,
                    c == self.iopp(
                        p.iopp_oracles@,
                        challenges@,
                        betas@,
                        point@,
                        *expected,
                        *final_codeword,
                    ),
                    c.wf(),
                    num_vars == challenges@.len(),
                    roots == mmcs::rows_of(commitments@),
                    sizes == batch::size_heights(dims@),
                    models == batch::group_models(groups@),
                    heights == groups::group_heights(sizes, (num_vars + 1) as nat),
                    models == groups::groups_below(
                        sizes,
                        values,
                        alpha,
                        0,
                        (num_vars + 1) as nat,
                    ),
                    heights.len() == models.len(),
                    models.len() > 0,
                    batch::groups_wf(models, num_vars as nat, betas@.len()),
                    mmcs::are_digests(roots),
                    batch::sizes_wf(sizes, num_vars as nat),
                    groups::values_shape(values, sizes),
                    k <= num_vars,
                    final_codeword is Some <==> k > 0,
                    final_codeword matches Some(word) ==> word@.len() == pow2(
                        k + self.fri.log_blowup as nat,
                    ),
                    schedule@ == self.schedule_of(heights, num_vars as nat, *p),
                    query::rounds_before(schedule@, schedule@.len()) == num_vars - k,
                    forall|g: int| 0 <= g < schedule@.len() ==> (
                    #[trigger] schedule@[g]).log_folding > 0,
                    self.group_lens_match(schedule@.len(), *p),
                    self.proof_canonical(*p),
                    p.iopp_cross_round@.len() > 0,
                    p.iopp_cross_round_pruned is None,
                    p.iopp_pruned is None,
                    query_points@.len() == self.fri.num_queries,
                    forall|q: int|
                        0 <= q < query_points@.len() ==> (#[trigger] query_points@[q]) < pow2(
                            num_vars as nat + self.fri.log_blowup as nat,
                        ),
                    pow2(num_vars as nat) * EF::degree() <= usize::MAX,
                    forall|j: int|
                        0 <= j < q ==> (#[trigger] verdict::cross_verdict_at(
                            c,
                            roots,
                            sizes,
                            models,
                            schedule@,
                            *p,
                            query_points@,
                            j,
                        )) is Ok,
                decreases query_points@.len() - q,
            {
                proof {
                    let leaves = p.query_openings.per_query@[q as int]@;
                    assert(batch::openings_canonical(leaves));
                    assert(p.iopp_cross_round@[q as int].group_openings@.len() == schedule@.len());
                    assert(query::group_steps_wf(p.iopp_cross_round@[q as int].group_openings@));
                    let done = (num_vars - k) as nat;
                    query::lemma_shifted(
                        query_points@[q as int] as nat,
                        num_vars as nat + self.fri.log_blowup as nat,
                        done,
                    );
                    bits::lemma_log2_pow2(k + self.fri.log_blowup as nat);
                    assert(query_points@[q as int] < pow2(
                        num_vars as nat + self.fri.log_blowup as nat,
                    ));
                }
                let verdict: Result<(), BaseFoldError> = self.verify_cross_round_query_basefold(
                    commitments,
                    &p.iopp_oracles,
                    query_points[q],
                    dims,
                    &p.iopp_cross_round[q],
                    schedule,
                    &p.query_openings.per_query[q],
                    groups,
                    challenges,
                    betas,
                    point,
                    expected,
                    final_codeword,
                );
                assert(verdict == verdict::cross_verdict_at(
                    c,
                    roots,
                    sizes,
                    models,
                    schedule@,
                    *p,
                    query_points@,
                    q as int,
                ));
                if verdict.is_err() {
                    return Err(BaseFoldError::FriFinalStepMisMatch);
                }
                q += 1;
            }
            Ok(())
        } else {
            let mut q: usize = 0;
            while q < query_points.len()
                invariant
                    q <= query_points@.len(),
                    self.every_query_opened(*p),
                    self.openings_reach(c.oracles.len(), c.num_vars(), k, schedule@.len(), *p),
                    k == stop,
                    c == self.iopp(
                        p.iopp_oracles@,
                        challenges@,
                        betas@,
                        point@,
                        *expected,
                        *final_codeword,
                    ),
                    c.wf(),
                    num_vars == challenges@.len(),
                    roots == mmcs::rows_of(commitments@),
                    sizes == batch::size_heights(dims@),
                    models == batch::group_models(groups@),
                    heights == groups::group_heights(sizes, (num_vars + 1) as nat),
                    models == groups::groups_below(
                        sizes,
                        values,
                        alpha,
                        0,
                        (num_vars + 1) as nat,
                    ),
                    heights.len() == models.len(),
                    models.len() > 0,
                    batch::groups_wf(models, num_vars as nat, betas@.len()),
                    mmcs::are_digests(roots),
                    batch::sizes_wf(sizes, num_vars as nat),
                    groups::values_shape(values, sizes),
                    k <= num_vars,
                    k == self.stop(heights),
                    final_codeword is Some <==> k > 0,
                    final_codeword matches Some(word) ==> word@.len() == pow2(
                        k + self.fri.log_blowup as nat,
                    ),
                    self.proof_canonical(*p),
                    p.iopp_cross_round@.len() == 0,
                    p.iopp_cross_round_pruned is None,
                    p.iopp_pruned is None,
                    query_points@.len() == self.fri.num_queries,
                    forall|q: int|
                        0 <= q < query_points@.len() ==> (#[trigger] query_points@[q]) < pow2(
                            num_vars as nat + self.fri.log_blowup as nat,
                        ),
                    2 * EF::degree() <= usize::MAX,
                    forall|j: int|
                        0 <= j < q ==> (#[trigger] verdict::batch_verdict_at(
                            c,
                            roots,
                            sizes,
                            models,
                            *p,
                            query_points@,
                            j,
                        )) is Ok,
                decreases query_points@.len() - q,
            {
                proof {
                    let leaves = p.query_openings.per_query@[q as int]@;
                    assert(batch::openings_canonical(leaves));
                    let steps = p.iopp_queries@[q as int].commit_phase_openings@;
                    assert(query::steps_wf(steps));
                    assert(query_points@[q as int] < pow2(
                        num_vars as nat + self.fri.log_blowup as nat,
                    ));
                    if k > 0 {
                        assert(verdict::enough_openings(
                            p.iopp_queries@[q as int].commit_phase_openings@.len(),
                            p.iopp_oracles@.len(),
                            num_vars as nat,
                            k,
                        ));
                        lemma_tail_fits(c, query_points@[q as int] as nat, steps.len(), k);
                    }
                }
                let verdict: Result<(), BaseFoldError> = self.verify_query_p3_batch_basefold(
                    commitments,
                    &p.iopp_oracles,
                    query_points[q],
                    dims,
                    &p.iopp_queries[q],
                    &p.query_openings.per_query[q],
                    groups,
                    challenges,
                    betas,
                    point,
                    expected,
                    final_codeword,
                );
                assert(verdict == verdict::batch_verdict_at(
                    c,
                    roots,
                    sizes,
                    models,
                    *p,
                    query_points@,
                    q as int,
                ));
                if verdict.is_err() {
                    return Err(BaseFoldError::FriFinalStepMisMatch);
                }
                q += 1;
            }
            Ok(())
        }
    }
}

impl<F: MerkleField> BaseFoldPcs<F> {
    /// The parameters fit the field and the machine for polynomials of `num_vars` variables.
    pub open spec fn fits<EF: TwoAdicExtension<F>>(self, num_vars: nat) -> bool {
        &&& self.fri.log_blowup >= 1
        &&& num_vars + self.fri.log_blowup <= EF::two_adicity()
        &&& num_vars + self.fri.log_blowup < usize::BITS
        &&& pow2(num_vars + self.fri.log_blowup as nat) < F::characteristic()
        &&& pow2(num_vars + self.fri.log_blowup as nat) * EF::degree() <= usize::MAX
        &&& self.fri.grinding_bits_batching < usize::BITS
        &&& pow2(self.fri.grinding_bits_batching as nat) < F::characteristic()
        &&& self.fri.grinding_bits_query < usize::BITS
        &&& pow2(self.fri.grinding_bits_query as nat) < F::characteristic()
    }

    /// Whether the parts of the proof that are there are those that the scheme makes.
    fn check_modes<EF>(&self, p: &BasefoldProof<F, EF>) -> (r: bool)
        ensures
            r == self.modes_match(*p),
    {
        let both: bool = p.iopp_cross_round_pruned.is_some();
        let cross: bool = p.iopp_cross_round.len() > 0;
        let paths: bool = p.iopp_pruned.is_some();
        let inputs: bool = p.query_openings.pruned.is_some();
        if (paths || both) != inputs {
            return false;
        }
        if (both && cross) || (both && paths) || (cross && paths) {
            return false;
        }
        if both {
            self.use_cross_round && self.use_path_pruning
        } else {
            !(cross && inputs) && cross == self.use_cross_round
        }
    }

    /// Whether the openings of the groups of rounds are as many as the groups.
    fn check_group_lens<EF>(&self, schedule: usize, p: &BasefoldProof<F, EF>) -> (r: bool)
        ensures
            r == self.group_lens_match(schedule as nat, *p),
    {
        let mut q: usize = 0;
        while q < p.iopp_cross_round.len()
            invariant
                q <= p.iopp_cross_round@.len(),
                forall|j: int|
                    0 <= j < q ==> (#[trigger] p.iopp_cross_round@[j]).group_openings@.len()
                        == schedule,
            decreases p.iopp_cross_round@.len() - q,
        {
            if p.iopp_cross_round[q].group_openings.len() != schedule {
                assert(p.iopp_cross_round@[q as int].group_openings@.len() != schedule);
                return false;
            }
            q += 1;
        }
        match &p.iopp_cross_round_pruned {
            Some(x) => x.group_pruned.len() == schedule && x.group_opened_rows.len() == schedule,
            None => true,
        }
    }

    /// Checks what follows the rounds of the sumcheck.
    fn finish_verify<EF: TwoAdicExtension<F>>(
        &self,
        commitments: &Vec<Vec<F>>,
        dims: &Vec<Vec<Dimensions>>,
        Ghost(values): Ghost<Seq<Seq<Seq<EF>>>>,
        Ghost(alpha): Ghost<EF>,
        Ghost(s): Ghost<rounds::RoundState<F, EF>>,
        groups: &Vec<HeightGroup<EF>>,
        schedule: &Vec<CommitGroup>,
        p: &BasefoldProof<F, EF>,
        result: &RoundResult<EF>,
        point: &Vec<EF>,
        k: usize,
        low: usize,
        challenger: &mut DuplexChallenger<F>,
    ) -> (r: Result<(), BaseFoldError>)
        requires
            old(challenger)@.wf(),
            old(challenger)@ == s.transcript,
            s.claim == result.claim,
            s.challenges == result.challenges@,
            s.betas == result.betas@,
            result.claim.valid(),
            field::all_valid(result.challenges@),
            result.challenges@.len() == point@.len(),
            groups@.len() == result.betas@.len() + 1,
            self.fits::<EF>(point@.len()),
            mmcs::are_digests(mmcs::rows_of(commitments@)),
            commitments@.len() == dims@.len(),
            batch::sizes_wf(batch::size_heights(dims@), point@.len()),
            groups::values_shape(values, batch::size_heights(dims@)),
            batch::group_models(groups@) == groups::groups_below(
                batch::size_heights(dims@),
                values,
                alpha,
                0,
                point@.len() + 1,
            ),
            low <= point@.len(),
            low as nat == groups::group_heights(
                batch::size_heights(dims@),
                point@.len() + 1,
            ).last(),
            k as nat == self.stop(
                groups::group_heights(batch::size_heights(dims@), point@.len() + 1),
            ),
            k > 0 ==> p.final_poly@.len() == pow2(k as nat),
            schedule@ == self.schedule_of(
                groups::group_heights(batch::size_heights(dims@), point@.len() + 1),
                point@.len(),
                *p,
            ),
            self.group_lens_match(schedule@.len(), *p),
            self.modes_match(*p),
            self.proof_canonical(*p),
            self.stop_fits::<EF>(batch::size_heights(dims@), point@.len()),
            p.grinding_query_witness@.len() == 2,
        ensures
            (r, final(challenger)@) == self.finish_outcome(
                mmcs::rows_of(commitments@),
                batch::size_heights(dims@),
                point@,
                batch::group_models(groups@),
                groups::group_heights(batch::size_heights(dims@), point@.len() + 1),
                *p,
                s,
            ),
            final(challenger)@.wf(),
    {
        let log_blowup: usize = self.fri.log_blowup;
        let num_vars: usize = point.len();
        let ghost sizes = batch::size_heights(dims@);
        let ghost heights = groups::group_heights(sizes, (num_vars + 1) as nat);
        let reversed_challenges: Vec<EF> = reversed(&result.challenges);
        let eq = EqPolynomial::new(front(point, low));
        let eq_sum: EF = eq.evaluate(front(&reversed_challenges, low).as_slice());
        proof {
            eqpoly::lemma_eq_eval_valid(
                point@.take(low as int),
                s.challenges.reverse().take(low as int),
            );
            groups::lemma_groups_wf(sizes, values, alpha, 0, (num_vars + 1) as nat);
            assert(heights.len() > 0);
        }
        let zero: EF = EF::zero();
        if eq_sum.is_equal(&zero) {
            return Err(BaseFoldError::VanishingEqSum);
        }
        let value: EF = field::divide(result.claim, eq_sum);
        proof {
            algebra::lemma_times_valid(result.claim, field::inverse(eq_sum));
        }
        if k == 0 {
            let size: usize = bits::two_to_the(log_blowup);
            let mut word: Vec<EF> = Vec::new();
            let mut i: usize = 0;
            while i < size
                invariant
                    i <= size,
                    word@.len() == i,
                    value.valid(),
                    forall|j: int| 0 <= j < i ==> word@[j] == value,
                decreases size - i,
            {
                word.push(value);
                i += 1;
            }
            proof {
                let b = log_blowup as nat;
                assert(word@ =~= Seq::new(pow2(b), |i: int| value));
                lemma_pow2_unfold(b);
                bits::lemma_log2_pow2((b - 1) as nat);
                if b - 1 < usize::BITS - 1 {
                    lemma_pow2_strictly_increases((b - 1) as nat, (usize::BITS - 1) as nat);
                }
                if b < num_vars + b {
                    lemma_pow2_strictly_increases(b, num_vars as nat + b);
                }
                assert(pow2(b) * EF::degree() <= pow2(num_vars as nat + b) * EF::degree())
                    by (nonlinear_arith)
                    requires
                        pow2(b) <= pow2(num_vars as nat + b),
                ;
            }
            let (root, _tree): (Vec<F>, F::Tree) = commit_matrix(
                &self.permutation,
                &word,
                2,
                Ghost(pow2((log_blowup - 1) as nat)),
            );
            let n: usize = p.iopp_oracles.len();
            if n == 0 {
                return Err(BaseFoldError::CommitmentCheckFailed);
            }
            if !same_digest(&p.iopp_oracles[n - 1], &root) {
                return Err(BaseFoldError::CommitmentCheckFailed);
            }
        }
        let final_codeword: Option<Vec<EF>> = if k > 0 {
            proof {
                let n = num_vars as nat;
                let b = log_blowup as nat;
                bits::lemma_log2_pow2(k as nat);
                lemma_pow2_adds(k as nat, b);
                if k < n {
                    lemma_pow2_strictly_increases(k as nat + b, n + b);
                }
                assert(pow2(k as nat) * EF::degree() * pow2(b) == pow2(k as nat + b) * EF::degree())
                    by (nonlinear_arith)
                    requires
                        pow2(k as nat + b) == pow2(k as nat) * pow2(b),
                ;
                assert(pow2(k as nat + b) * EF::degree() <= pow2(n + b) * EF::degree())
                    by (nonlinear_arith)
                    requires
                        pow2(k as nat + b) <= pow2(n + b),
                ;
            }
            Some(encode_to_codeword::<F, EF>(&p.final_poly, log_blowup))
        } else {
            None
        };
        proof {
            assert(p.grinding_query_witness@[0].valid() && p.grinding_query_witness@[1].valid());
        }
        challenger.observe(p.grinding_query_witness[0]);
        if !challenger.check_witness(self.fri.grinding_bits_query, p.grinding_query_witness[1]) {
            return Err(BaseFoldError::InvalidPowWitness);
        }
        let query_points: Vec<usize> = challenger.sample_bits_vec(
            num_vars + log_blowup,
            self.fri.num_queries,
        );
        proof {
            let c = self.iopp(
                p.iopp_oracles@,
                result.challenges@,
                result.betas@,
                point@,
                value,
                final_codeword,
            );
            EF::law_generators(0);
            if k > 0 {
                bits::lemma_log2_pow2(k as nat);
                bits::lemma_log2_pow2((k + log_blowup) as nat);
            }
            assert(c.wf());
            let n = num_vars as nat;
            let b = log_blowup as nat;
            lemma_pow2_strictly_increases(n, n + b);
            assert(pow2(n) * EF::degree() <= pow2(n + b) * EF::degree()) by (nonlinear_arith)
                requires
                    pow2(n) <= pow2(n + b),
            ;
            lemma_pow2_unfold(n + b);
            lemma_pow2_pos((n + b - 1) as nat);
            assert(2 * EF::degree() <= pow2(n + b) * EF::degree()) by (nonlinear_arith)
                requires
                    2 <= pow2(n + b),
            ;
        }
        self.verify_queries(
            commitments,
            dims,
            Ghost(values),
            Ghost(alpha),
            k,
            groups,
            schedule,
            p,
            &query_points,
            &result.challenges,
            &result.betas,
            point,
            &value,
            &final_codeword,
        )
    }

    /// Checks an opening: that the polynomials that were committed to take the given values at the
    /// point.
    ///
    /// The polynomials are the columns of the matrices, of which the sizes are given. All of them
    /// are folded together, from the highest down.
    pub fn verify<EF: TwoAdicExtension<F>>(
        &self,
        commitment_batch: &Vec<Vec<F>>,
        matrices_size_batch: &Vec<Vec<Dimensions>>,
        opening_point: &Vec<EF>,
        opened_values_batch: &Vec<Vec<Vec<EF>>>,
        proof: &BasefoldProof<F, EF>,
        challenger: &mut DuplexChallenger<F>,
    ) -> (r: Result<(), BaseFoldError>)
        requires
            old(challenger)@.wf(),
            self.fits::<EF>(opening_point@.len()),
            mmcs::are_digests(mmcs::rows_of(commitment_batch@)),
            batch::sizes_wf(batch::size_heights(matrices_size_batch@), opening_point@.len()),
            self.proof_canonical(*proof),
            self.stop_fits::<EF>(
                batch::size_heights(matrices_size_batch@),
                opening_point@.len(),
            ),
        ensures
            (r, final(challenger)@) == self.verify_outcome(
                mmcs::rows_of(commitment_batch@),
                matrices_size_batch@,
                opening_point@,
                opened_values_batch@,
                *proof,
                old(challenger)@,
            ),
            final(challenger)@.wf(),
    {
        let degree: usize = EF::extension_degree();
        proof {
            EF::law_coeffs(EF::zero_elem(), Seq::empty());
        }
        match validate_verify_inputs(
            degree,
            commitment_batch.len(),
            matrices_size_batch,
            opened_values_batch,
        ) {
            Err(e) => {
                return Err(e);
            },
            Ok(_) => {},
        }
        if !self.check_modes(proof) || proof.grinding_batching_witness.len() != 2
            || proof.grinding_query_witness.len() != 2 {
            return Err(BaseFoldError::InvalidInputError);
        }
        let num_vars: usize = opening_point.len();
        let ghost sizes = batch::size_heights(matrices_size_batch@);
        let ghost vals = mmcs::row_sets_of(opened_values_batch@);
        let ghost end = (num_vars + 1) as nat;
        let alpha: EF = challenger.sample_ext_element();
        proof {
            assert(groups::values_shape(vals, sizes)) by {
                assert forall|b: int| 0 <= b < sizes.len() implies (#[trigger] vals[b]).len()
                    == sizes[b].len() by {
                    assert(groups::values_fit(
                        degree as nat,
                        groups::all_widths(matrices_size_batch@)[b],
                        groups::value_lens(opened_values_batch@)[b],
                    ));
                }
            }
            assert forall|b: int, m: int|
                0 <= b < matrices_size_batch@.len() && 0 <= m < matrices_size_batch@[b]@.len()
                implies bits::power_of_two(
                (#[trigger] matrices_size_batch@[b]@[m]).height as nat,
            ) by {
                assert(batch::heights_wf(sizes[b], num_vars as nat));
                assert(bits::power_of_two(sizes[b][m]));
            }
        }
        let groups: Vec<HeightGroup<EF>> = group_by_height(
            matrices_size_batch,
            opened_values_batch,
            alpha,
            num_vars,
        );
        let ghost models = batch::group_models(groups@);
        let ghost heights = groups::group_heights(sizes, end);
        proof {
            assert(proof.grinding_batching_witness@[0].valid()
                && proof.grinding_batching_witness@[1].valid());
            groups::lemma_groups_wf(sizes, vals, alpha, 0, end);
            rounds::lemma_groups_below(sizes, vals, alpha, 0, end);
        }
        challenger.observe(proof.grinding_batching_witness[0]);
        if !challenger.check_witness(
            self.fri.grinding_bits_batching,
            proof.grinding_batching_witness[1],
        ) {
            return Err(BaseFoldError::InvalidPowWitness);
        }
        let count: usize = groups.len();
        proof {
            if count > 0 {
                assert(models[0].log_height == heights[0]);
                assert(models[count - 1].log_height == heights[count - 1]);
            }
        }
        if count == 0 || groups[0].log_height != num_vars {
            return Err(BaseFoldError::SumcheckPhaseError);
        }
        let low: usize = groups[count - 1].log_height;
        let k: usize = if self.fri.log_final_poly_len <= low {
            self.fri.log_final_poly_len
        } else {
            low
        };
        proof {
            assert(low as nat == heights.last());
            assert(models[count - 1].log_height < end);
        }
        if k > 0 && proof.final_poly.len() != bits::two_to_the(k) {
            return Err(BaseFoldError::InvalidInputError);
        }
        let mut present: Vec<usize> = Vec::new();
        let mut i: usize = 0;
        while i < count
            invariant
                i <= count,
                count == groups@.len(),
                models == batch::group_models(groups@),
                heights.len() == count,
                forall|j: int|
                    0 <= j < models.len() ==> (#[trigger] models[j]).log_height == heights[j],
                present@.len() == i,
                forall|j: int| 0 <= j < i ==> #[trigger] present@[j] == heights[j],
            decreases count - i,
        {
            proof {
                assert(models[i as int].log_height == heights[i as int]);
            }
            present.push(groups[i].log_height);
            i += 1;
        }
        let cross: bool = proof.iopp_cross_round.len() > 0
            || proof.iopp_cross_round_pruned.is_some();
        let schedule: Vec<CommitGroup> = compute_commit_schedule_cross_round(
            &present,
            num_vars,
            k,
            cross,
            self.max_fold_override,
        );
        proof {
            assert(present@ =~= Seq::new(heights.len(), |i: int| heights[i] as usize));
        }
        if !self.check_group_lens(schedule.len(), proof) {
            return Err(BaseFoldError::InvalidInputError);
        }
        let ghost before = challenger@;
        let ghost plan = self.plan_of(num_vars as nat, heights, models, *proof);
        proof {
            assert forall|i: int| 0 <= i < groups@.len() implies (
            #[trigger] groups@[i]).claim.valid() by {
                assert(models[i].claim.valid());
            }
        }
        let result: RoundResult<EF> = match verify_rounds(
            num_vars,
            k,
            &schedule,
            &proof.iopp_oracles,
            &proof.final_poly,
            &proof.sumcheck_transcript.uni_polys,
            &groups,
            challenger,
        ) {
            Err(e) => {
                return Err(e);
            },
            Ok(x) => x,
        };
        let ghost s = rounds::rounds_from(
            plan,
            rounds::first_state(plan, before),
            num_vars as nat,
        ).0;
        self.finish_verify(
            commitment_batch,
            matrices_size_batch,
            Ghost(vals),
            Ghost(alpha),
            Ghost(s),
            &groups,
            &schedule,
            proof,
            &result,
            opening_point,
            k,
            low,
            challenger,
        )
    }
}

} // verus!
