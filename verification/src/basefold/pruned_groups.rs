//! The checks of all queries at once, whose codewords are opened group by group with shared Merkle
//! paths.
use vstd::prelude::*;
use vstd::arithmetic::power2::*;
use crate::basefold::ext_mmcs;
use crate::basefold::ext_mmcs::verify_rows;
use crate::basefold::mmcs;
use crate::basefold::mmcs::{MerkleField, PrunedModel};
use crate::basefold::openings::{BaseFoldError, CrossRoundPrunedOpenings};
use crate::basefold::pcs::BaseFoldPcs;
use crate::basefold::pruned;
use crate::basefold::pruned::{compute_row_indices, find_index, merge_all, sort_unique};
use crate::basefold::query;
use crate::basefold::query::{finish_query, Iopp, QueryState};
use crate::basefold::schedule::CommitGroup;
use crate::bits;
use crate::field;
use crate::field::algebra;
use crate::field::{Field, TwoAdicExtension, TwoAdicField};

verus! {

/// The row of a query among the opened rows.
pub open spec fn row_of_query<EF>(
    indices: Seq<usize>,
    rows: Seq<Seq<EF>>,
    q: int,
) -> Seq<EF> {
    rows[pruned::unique_indices(indices).index_of(indices[q])]
}

/// The folded entry of a query is not the one that its row holds.
pub open spec fn entry_differs<EF>(
    m: QueryState<EF>,
    row: Seq<EF>,
    log_folding: nat,
) -> bool {
    m.folded != row[(m.query as nat % pow2(log_folding)) as int]
}

/// The groups from `g` on.
pub open spec fn pruned_groups<F: MerkleField, EF: TwoAdicExtension<F>>(
    c: Iopp<F, EF>,
    sums: Seq<Seq<(usize, EF)>>,
    schedule: Seq<CommitGroup>,
    opened: Seq<Seq<Seq<EF>>>,
    proofs: Seq<PrunedModel<F>>,
    states: Seq<QueryState<EF>>,
    g: nat,
) -> Result<Seq<QueryState<EF>>, BaseFoldError>
    decreases schedule.len() - g,
{
    if g >= schedule.len() {
        Ok(states)
    } else {
        let lf = schedule[g as int].log_folding as nat;
        let round = query::rounds_before(schedule, g);
        let rows = opened[g as int];
        let indices = pruned::row_indices(states, lf);
        let ms = pruned::all_merged(states, sums, c.betas, c.log_len(round));
        if exists|k: int| 0 <= k < rows.len() && (#[trigger] rows[k]).len() != pow2(lf) {
            Err(BaseFoldError::InvalidInputError)
        } else if rows.len() != pruned::unique_indices(indices).len() {
            Err(BaseFoldError::InvalidInputError)
        } else if !ext_mmcs::accepts_rows::<F, EF>(
            c.rounds,
            c.oracles[g as int],
            pow2((c.log_len(round) - lf) as nat),
            rows,
            proofs[g as int],
        ) {
            Err(BaseFoldError::CommitPhaseMmcsError)
        } else if exists|q: int|
            0 <= q < states.len() && #[trigger] entry_differs(
                ms[q],
                row_of_query(indices, rows, q),
                lf,
            ) {
            Err(BaseFoldError::FriFinalStepMisMatch)
        } else {
            pruned_groups(
                c,
                sums,
                schedule,
                opened,
                proofs,
                Seq::new(
                    states.len(),
                    |q: int|
                        query::row_stepped(c, ms[q], row_of_query(indices, rows, q), round, lf),
                ),
                g + 1,
            )
        }
    }
}

/// The first verdict other than `Ok` on the queries from `q` on.
pub open spec fn first_refusal<F: MerkleField, EF: TwoAdicExtension<F>>(
    c: Iopp<F, EF>,
    sums: Seq<Seq<(usize, EF)>>,
    states: Seq<QueryState<EF>>,
    start: nat,
    q: nat,
) -> Result<(), BaseFoldError>
    decreases states.len() - q,
{
    if q >= states.len() {
        Ok(())
    } else {
        match query::finished(c, sums[q as int], states[q as int], start) {
            Err(e) => Err(e),
            Ok(_) => first_refusal(c, sums, states, start, q + 1),
        }
    }
}

/// The verdict on all queries, whose codewords are opened group by group.
pub open spec fn pruned_groups_verdict<F: MerkleField, EF: TwoAdicExtension<F>>(
    c: Iopp<F, EF>,
    queries: Seq<usize>,
    sums: Seq<Seq<(usize, EF)>>,
    schedule: Seq<CommitGroup>,
    opened: CrossRoundPrunedOpenings<F, EF>,
) -> Result<(), BaseFoldError> {
    if opened.group_pruned@.len() != schedule.len() || opened.group_opened_rows@.len()
        != schedule.len() || opened.query_to_unique_slot@.len() != schedule.len() {
        Err(BaseFoldError::InvalidInputError)
    } else {
        match pruned_groups(
            c,
            sums,
            schedule,
            mmcs::row_sets_of(opened.group_opened_rows@),
            pruned::proof_models(opened.group_pruned@),
            pruned::all_started(queries),
            0,
        ) {
            Err(e) => Err(e),
            Ok(states) => first_refusal(
                c,
                sums,
                states,
                query::rounds_before(schedule, schedule.len()),
                0,
            ),
        }
    }
}

/// Some row does not have `width` entries.
fn any_other_width<EF: Field>(rows: &Vec<Vec<EF>>, width: usize) -> (r: bool)
    ensures
        r == exists|k: int|
            0 <= k < rows@.len() && (#[trigger] mmcs::rows_of(rows@)[k]).len() != width,
{
    let mut k: usize = 0;
    while k < rows.len()
        invariant
            k <= rows@.len(),
            forall|j: int| 0 <= j < k ==> (#[trigger] mmcs::rows_of(rows@)[j]).len() == width,
        decreases rows@.len() - k,
    {
        if rows[k].len() != width {
            assert(mmcs::rows_of(rows@)[k as int].len() != width);
            return true;
        }
        k += 1;
    }
    false
}

impl<F: MerkleField> BaseFoldPcs<F> {
    /// Checks all queries, whose codewords are opened group by group with shared Merkle paths.
    pub fn verify_cross_round_pruned_queries<EF: TwoAdicExtension<F>>(
        &self,
        iopp_commitments: &Vec<Vec<F>>,
        query_points: &Vec<usize>,
        leaf_sums_per_query: &Vec<Vec<(usize, EF)>>,
        crp: &CrossRoundPrunedOpenings<F, EF>,
        commit_schedule: &Vec<CommitGroup>,
        folding_challenges: &Vec<EF>,
        merge_betas: &Vec<EF>,
        opening_point: &Vec<EF>,
        expected_final_value: &EF,
        final_codeword: &Option<Vec<EF>>,
    ) -> (r: Result<(), BaseFoldError>)
        requires
            self.iopp(
                iopp_commitments@,
                folding_challenges@,
                merge_betas@,
                opening_point@,
                *expected_final_value,
                *final_codeword,
            ).wf(),
            leaf_sums_per_query@.len() == query_points@.len(),
            pruned::all_sums_wf(pruned::all_sums(leaf_sums_per_query@), merge_betas@),
            pruned::proofs_wf(crp.group_pruned@),
            mmcs::row_sets_valid(mmcs::row_sets_of(crp.group_opened_rows@)),
            query::schedule_fits(commit_schedule@, folding_challenges@.len()),
            iopp_commitments@.len() >= commit_schedule@.len(),
            forall|q: int|
                0 <= q < query_points@.len() ==> (#[trigger] query_points@[q]) < pow2(
                    folding_challenges@.len() + self.fri.log_blowup as nat,
                ),
            pow2(folding_challenges@.len()) * EF::degree() <= usize::MAX,
            ({
                let n = query::rounds_before(commit_schedule@, commit_schedule@.len());
                final_codeword matches Some(word) ==> n < folding_challenges@.len() ==> word@.len()
                    >= pow2((folding_challenges@.len() + self.fri.log_blowup - n) as nat)
            }),
        ensures
            r == pruned_groups_verdict(
                self.iopp(
                    iopp_commitments@,
                    folding_challenges@,
                    merge_betas@,
                    opening_point@,
                    *expected_final_value,
                    *final_codeword,
                ),
                query_points@,
                pruned::all_sums(leaf_sums_per_query@),
                commit_schedule@,
                *crp,
            ),
    {
        let ghost c = self.iopp(
            iopp_commitments@,
            folding_challenges@,
            merge_betas@,
            opening_point@,
            *expected_final_value,
            *final_codeword,
        );
        let n: usize = query_points.len();
        let num_vars: usize = folding_challenges.len();
        let log_blowup: usize = self.fri.log_blowup;
        let ghost sums = pruned::all_sums(leaf_sums_per_query@);
        let ghost opened = mmcs::row_sets_of(crp.group_opened_rows@);
        let ghost proofs = pruned::proof_models(crp.group_pruned@);
        if crp.group_pruned.len() != commit_schedule.len() || crp.group_opened_rows.len()
            != commit_schedule.len() || crp.query_to_unique_slot.len() != commit_schedule.len() {
            return Err(BaseFoldError::InvalidInputError);
        }
        let mut states: Vec<QueryState<EF>> = Vec::new();
        let mut q: usize = 0;
        while q < n
            invariant
                q <= n,
                n == query_points@.len(),
                states@ == pruned::all_started::<EF>(query_points@).take(q as int),
            decreases n - q,
        {
            states.push(
                QueryState {
                    folded: EF::zero(),
                    merges: 0,
                    eq: EF::one(),
                    query: query_points[q],
                },
            );
            q += 1;
            proof {
                assert(states@ =~= pruned::all_started::<EF>(query_points@).take(q as int));
            }
        }
        proof {
            assert(states@ =~= pruned::all_started::<EF>(query_points@));
            EF::law_constants();
        }
        let ghost goal = pruned_groups(
            c,
            sums,
            commit_schedule@,
            opened,
            proofs,
            pruned::all_started(query_points@),
            0,
        );
        let ghost verdict = pruned_groups_verdict(
            c,
            query_points@,
            sums,
            commit_schedule@,
            *crp,
        );
        assert(goal is Err ==> verdict == Err::<(), BaseFoldError>(goal->Err_0));
        let mut g: usize = 0;
        let mut round: usize = 0;
        while g < commit_schedule.len()
            invariant
                verdict == pruned_groups_verdict(
                    c,
                    query_points@,
                    sums,
                    commit_schedule@,
                    *crp,
                ),
                goal is Err ==> verdict == Err::<(), BaseFoldError>(goal->Err_0),
                g <= commit_schedule@.len(),
                n == query_points@.len(),
                c == self.iopp(
                    iopp_commitments@,
                    folding_challenges@,
                    merge_betas@,
                    opening_point@,
                    *expected_final_value,
                    *final_codeword,
                ),
                c.wf(),
                num_vars == folding_challenges@.len(),
                log_blowup == self.fri.log_blowup,
                sums == pruned::all_sums(leaf_sums_per_query@),
                opened == mmcs::row_sets_of(crp.group_opened_rows@),
                proofs == pruned::proof_models(crp.group_pruned@),
                opened.len() == commit_schedule@.len(),
                proofs.len() == commit_schedule@.len(),
                sums.len() == n,
                pruned::all_sums_wf(sums, merge_betas@),
                pruned::proofs_wf(crp.group_pruned@),
                mmcs::row_sets_valid(opened),
                query::schedule_fits(commit_schedule@, num_vars as nat),
                iopp_commitments@.len() >= commit_schedule@.len(),
                pow2(num_vars as nat) * EF::degree() <= usize::MAX,
                round == query::rounds_before(commit_schedule@, g as nat),
                round <= num_vars,
                states@.len() == n,
                pruned::states_wf(states@, c.log_len(round as nat)),
                goal == pruned_groups(
                    c,
                    sums,
                    commit_schedule@,
                    opened,
                    proofs,
                    states@,
                    g as nat,
                ),
            decreases commit_schedule@.len() - g,
        {
            let lf: usize = commit_schedule[g].log_folding;
            proof {
                query::lemma_rounds_before(
                    commit_schedule@,
                    (g + 1) as nat,
                    commit_schedule@.len(),
                );
                assert(commit_schedule@[g as int].log_folding > 0);
                assert(opened[g as int] == mmcs::rows_of(crp.group_opened_rows@[g as int]@));
            }
            let log_len: usize = num_vars + log_blowup - round;
            let rows: &Vec<Vec<EF>> = &crp.group_opened_rows[g];
            let width: usize = bits::two_to_the(lf);
            if any_other_width(rows, width) {
                return Err(BaseFoldError::InvalidInputError);
            }
            let indices: Vec<usize> = compute_row_indices(&states, lf);
            let unique: Vec<usize> = sort_unique(&indices);
            if rows.len() != unique.len() {
                return Err(BaseFoldError::InvalidInputError);
            }
            proof {
                if log_len - lf < usize::BITS - 1 {
                    lemma_pow2_strictly_increases(
                        (log_len - lf) as nat,
                        (usize::BITS - 1) as nat,
                    );
                }
                if lf < num_vars {
                    lemma_pow2_strictly_increases(lf as nat, num_vars as nat);
                }
                assert(pow2(lf as nat) * EF::degree() <= pow2(num_vars as nat) * EF::degree())
                    by (nonlinear_arith)
                    requires
                        pow2(lf as nat) <= pow2(num_vars as nat),
                ;
                assert(c.oracles[g as int] == iopp_commitments@[g as int]@);
                assert(mmcs::is_digest(c.oracles[g as int]));
                assert(mmcs::rows_valid(opened[g as int]));
                assert forall|k: int| 0 <= k < rows@.len() implies (
                #[trigger] rows@[k])@.len() * EF::degree() <= usize::MAX && field::all_valid(
                    rows@[k]@,
                ) by {
                    assert(mmcs::rows_of(rows@)[k].len() == width);
                    assert(field::all_valid(opened[g as int][k]));
                }
                assert(proofs[g as int] == crp.group_pruned@[g as int]@);
            }
            let height: usize = bits::two_to_the(log_len - lf);
            if !verify_rows(
                &self.permutation,
                &iopp_commitments[g],
                height,
                rows,
                &crp.group_pruned[g],
            ) {
                return Err(BaseFoldError::CommitPhaseMmcsError);
            }
            let ms: Vec<QueryState<EF>> = merge_all(
                &states,
                leaf_sums_per_query,
                merge_betas,
                log_len,
            );
            let ghost all_rows = mmcs::rows_of(rows@);
            proof {
                lemma_pow2_pos(lf as nat);
                assert forall|k: int| 0 <= k < rows@.len() implies (#[trigger] rows@[k])@.len()
                    == width by {
                    assert(all_rows[k].len() == width);
                }
            }
            let mut next: Vec<QueryState<EF>> = Vec::new();
            let mut differs: bool = false;
            let mut q: usize = 0;
            while q < n
                invariant
                    q <= n,
                    n == ms@.len(),
                    n == indices@.len(),
                    c.wf(),
                    c.challenges == folding_challenges@,
                    c.point == opening_point@,
                    num_vars == c.num_vars(),
                    lf > 0,
                    round + lf <= num_vars,
                    log_len == c.log_len(round as nat),
                    pruned::states_wf(ms@, log_len as nat),
                    unique@ == pruned::unique_indices(indices@),
                    mmcs::sorted_unique(unique@, indices@),
                    rows@.len() == unique@.len(),
                    all_rows == mmcs::rows_of(rows@),
                    width == pow2(lf as nat),
                    width > 0,
                    forall|k: int| 0 <= k < rows@.len() ==> (#[trigger] rows@[k])@.len() == width,
                    next@.len() == q,
                    pruned::states_wf(next@, (log_len - lf) as nat),
                    forall|k: int|
                        0 <= k < q ==> #[trigger] next@[k] == query::row_stepped(
                            c,
                            ms@[k],
                            row_of_query(indices@, all_rows, k),
                            round as nat,
                            lf as nat,
                        ),
                    differs <==> exists|k: int|
                        0 <= k < q && #[trigger] entry_differs(
                            ms@[k],
                            row_of_query(indices@, all_rows, k),
                            lf as nat,
                        ),
                decreases n - q,
            {
                proof {
                    assert(indices@.contains(indices@[q as int]));
                    assert(ms@[q as int].query < pow2(log_len as nat));
                    query::lemma_shifted(ms@[q as int].query as nat, log_len as nat, lf as nat);
                }
                let slot: usize = find_index(&unique, indices[q]);
                let row: &Vec<EF> = &rows[slot];
                assert(row@ == row_of_query(indices@, all_rows, q as int));
                let local: usize = ms[q].query % width;
                if !ms[q].folded.is_equal(&row[local]) {
                    differs = true;
                    assert(entry_differs(
                        ms@[q as int],
                        row_of_query(indices@, all_rows, q as int),
                        lf as nat,
                    ));
                }
                let s: QueryState<EF> = Self::step_row(
                    Ghost(c),
                    ms[q],
                    row,
                    log_len,
                    round,
                    lf,
                    folding_challenges,
                    opening_point,
                );
                proof {
                    lemma_row_stepped_valid(c, ms@[q as int], row@, round as nat, lf as nat);
                }
                next.push(s);
                q += 1;
            }
            if differs {
                return Err(BaseFoldError::FriFinalStepMisMatch);
            }
            proof {
                assert(next@ =~= Seq::new(
                    states@.len(),
                    |q: int|
                        query::row_stepped(
                            c,
                            ms@[q],
                            row_of_query(indices@, all_rows, q),
                            round as nat,
                            lf as nat,
                        ),
                ));
            }
            states = next;
            round += lf;
            g += 1;
        }
        let ghost last = first_refusal(c, sums, states@, round as nat, 0);
        assert(verdict == last);
        let mut q: usize = 0;
        while q < n
            invariant
                q <= n,
                n == states@.len(),
                c == self.iopp(
                    iopp_commitments@,
                    folding_challenges@,
                    merge_betas@,
                    opening_point@,
                    *expected_final_value,
                    *final_codeword,
                ),
                c.wf(),
                num_vars == folding_challenges@.len(),
                log_blowup == self.fri.log_blowup,
                sums == pruned::all_sums(leaf_sums_per_query@),
                sums.len() == n,
                pruned::all_sums_wf(sums, merge_betas@),
                round <= num_vars,
                pruned::states_wf(states@, c.log_len(round as nat)),
                (final_codeword matches Some(word) ==> round < num_vars ==> word@.len() >= pow2(
                    c.log_len(round as nat),
                )),
                verdict == pruned_groups_verdict(
                    c,
                    query_points@,
                    sums,
                    commit_schedule@,
                    *crp,
                ),
                verdict == first_refusal(c, sums, states@, round as nat, q as nat),
            decreases n - q,
        {
            proof {
                assert(query::sums_wf(sums[q as int], merge_betas@));
                assert(states@[q as int].query < pow2(c.log_len(round as nat)));
                if c.final_codeword is Some && round < num_vars {
                    let word = c.final_codeword->0;
                    let m = bits::log2(word.len());
                    if m < c.log_len(round as nat) {
                        lemma_pow2_strictly_increases(m, c.log_len(round as nat));
                    }
                }
            }
            match finish_query(
                Ghost(c),
                log_blowup,
                &leaf_sums_per_query[q],
                folding_challenges,
                merge_betas,
                opening_point,
                expected_final_value,
                final_codeword,
                states[q],
                round,
            ) {
                Err(e) => {
                    return Err(e);
                },
                Ok(_) => {},
            }
            q += 1;
        }
        Ok(())
    }
}

/// The folded entry of a row is canonical.
pub proof fn lemma_row_stepped_valid<F: MerkleField, EF: TwoAdicExtension<F>>(
    c: Iopp<F, EF>,
    m: QueryState<EF>,
    row: Seq<EF>,
    round: nat,
    log_folding: nat,
)
    requires
        log_folding > 0,
        row.len() == pow2(log_folding),
        round + log_folding <= c.num_vars(),
    ensures
        query::row_stepped(c, m, row, round, log_folding).folded.valid(),
{
    lemma_row_folded_valid(
        row,
        m.query as nat / pow2(log_folding),
        c.log_len(round),
        c.challenges.subrange(round as int, (round + log_folding) as int),
    );
}

proof fn lemma_row_folded_valid<EF: TwoAdicField>(
    row: Seq<EF>,
    j: nat,
    log_len: nat,
    challenges: Seq<EF>,
)
    requires
        challenges.len() > 0,
        row.len() == pow2(challenges.len()),
    ensures
        crate::basefold::fold::row_folded_all(row, j, log_len, challenges)[0].valid(),
    decreases challenges.len(),
{
    broadcast use algebra::group_valid;

    let k = challenges.len();
    lemma_pow2_unfold(k);
    lemma_pow2_pos((k - 1) as nat);
    let next = crate::basefold::fold::row_folded(row, j, log_len, challenges[0]);
    if k > 1 {
        lemma_row_folded_valid(next, j, (log_len - 1) as nat, challenges.drop_first());
    } else {
        assert(challenges.drop_first().len() == 0);
        assert(crate::basefold::fold::row_folded_all(
            next,
            j,
            (log_len - 1) as nat,
            challenges.drop_first(),
        ) == next);
        assert(next[0].valid());
    }
}

} // verus!
