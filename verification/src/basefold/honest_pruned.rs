//! The queries of an honest prover that share their Merkle paths check out.
use vstd::prelude::*;
use vstd::arithmetic::power2::*;
use crate::basefold::ext_mmcs;
use crate::basefold::honest_queries;
use crate::basefold::honest_queries::Run;
use crate::basefold::mmcs;
use crate::basefold::mmcs::{MerkleField, PrunedModel};
use crate::basefold::openings::{BaseFoldError, CrossRoundPrunedOpenings, PrunedFriQueryProof};
use crate::basefold::pruned;
use crate::basefold::pruned_groups;
use crate::basefold::query;
use crate::basefold::query::{Iopp, QueryState};
use crate::basefold::schedule::CommitGroup;
use crate::field::TwoAdicExtension;

verus! {

/// All queries are before the merge at the start of round `i`.
pub open spec fn all_before<F: MerkleField, EF: TwoAdicExtension<F>>(
    run: Run<F, EF>,
    states: Seq<QueryState<EF>>,
    queries: Seq<usize>,
    i: nat,
) -> bool {
    &&& states.len() == queries.len()
    &&& forall|q: int|
        0 <= q < queries.len() ==> run.before_merge(#[trigger] states[q], queries[q] as nat, i)
}

/// The linear combinations of all queries are entries of the codewords.
pub open spec fn all_have_sums<F: MerkleField, EF: TwoAdicExtension<F>>(
    run: Run<F, EF>,
    sums: Seq<Seq<(usize, EF)>>,
    queries: Seq<usize>,
) -> bool {
    &&& sums.len() == queries.len()
    &&& forall|q: int|
        0 <= q < queries.len() ==> run.has_sums(#[trigger] sums[q], queries[q] as nat)
}

/// The queries lie in the codeword.
pub open spec fn in_word<F: MerkleField, EF: TwoAdicExtension<F>>(
    run: Run<F, EF>,
    queries: Seq<usize>,
) -> bool {
    forall|q: int|
        0 <= q < queries.len() ==> (#[trigger] queries[q]) < pow2(
            run.num_vars() + run.log_blowup,
        )
}

/// A pair of a codeword.
pub open spec fn pair_at<EF>(word: Seq<EF>, j: int) -> Seq<EF> {
    seq![word[2 * j], word[2 * j + 1]]
}

/// The rows of all queries, in a codeword whose rows hold `2^log_folding` entries, after `round`
/// rounds.
pub open spec fn row_numbers(queries: Seq<usize>, round: nat, log_folding: nat) -> Seq<usize> {
    Seq::new(
        queries.len(),
        |q: int| ((queries[q] as nat / pow2(round)) / pow2(log_folding)) as usize,
    )
}

/// The other entries of the pairs of all queries, and an accepted opening of the pairs.
pub open spec fn pairs_shared<F: MerkleField, EF: TwoAdicExtension<F>>(
    run: Run<F, EF>,
    c: Iopp<F, EF>,
    queries: Seq<usize>,
    siblings: Seq<Seq<EF>>,
    proofs: Seq<PrunedModel<F>>,
    i: nat,
) -> bool {
    let word = run.word(i);
    let u = pruned::unique_indices(row_numbers(queries, i, 1));
    &&& siblings.len() == queries.len()
    &&& forall|q: int|
        0 <= q < queries.len() ==> (#[trigger] siblings[q])[i as int] == (if (queries[q] as nat
            / pow2(i)) % 2 == 0 {
            word[2 * ((queries[q] as nat / pow2(i)) / 2) as int + 1]
        } else {
            word[2 * ((queries[q] as nat / pow2(i)) / 2) as int]
        })
    &&& ext_mmcs::accepts_rows::<F, EF>(
        c.rounds,
        c.oracles[i as int],
        pow2((c.log_len(i) - 1) as nat),
        Seq::new(u.len(), |k: int| pair_at(word, u[k] as int)),
        proofs[i as int],
    )
}

/// The rows that the queries have in common are those of the distinct indices.
proof fn lemma_unique_rows<EF>(
    indices: Seq<usize>,
    rows: Seq<Seq<EF>>,
    word: Seq<EF>,
)
    requires
        rows.len() == indices.len(),
        forall|q: int|
            0 <= q < rows.len() ==> #[trigger] rows[q] == pair_at(word, indices[q] as int),
    ensures
        pruned::rows_agree(indices, rows),
        pruned::unique_rows(indices, rows) == Seq::new(
            pruned::unique_indices(indices).len(),
            |k: int| pair_at(word, pruned::unique_indices(indices)[k] as int),
        ),
{
    let u = pruned::unique_indices(indices);
    pruned::law_unique_indices(indices);
    let left = pruned::unique_rows(indices, rows);
    let right = Seq::new(u.len(), |k: int| pair_at(word, u[k] as int));
    assert forall|k: int| 0 <= k < u.len() implies left[k] == right[k] by {
        assert(u.contains(u[k]));
        assert(indices.contains(u[k]));
        let q = indices.index_of(u[k]);
        assert(0 <= q < indices.len() && indices[q] == u[k]);
        assert(rows[q] == pair_at(word, indices[q] as int));
    }
    assert(left =~= right);
    assert forall|a: int, b: int|
        0 <= a < b < indices.len() && #[trigger] indices[a] == #[trigger] indices[b] implies rows[a]
        == rows[b] by {
        assert(rows[a] == pair_at(word, indices[a] as int));
        assert(rows[b] == pair_at(word, indices[b] as int));
    }
}

/// The committed rounds of all queries check out.
proof fn lemma_pruned_rounds<F: MerkleField, EF: TwoAdicExtension<F>>(
    run: Run<F, EF>,
    c: Iopp<F, EF>,
    queries: Seq<usize>,
    sums: Seq<Seq<(usize, EF)>>,
    siblings: Seq<Seq<EF>>,
    proofs: Seq<PrunedModel<F>>,
    states: Seq<QueryState<EF>>,
    limit: nat,
    i: nat,
)
    requires
        run.wf(),
        run.checked_by(c),
        in_word(run, queries),
        all_have_sums(run, sums, queries),
        i <= limit <= run.num_vars(),
        all_before(run, states, queries, i),
        forall|j: nat|
            j < limit ==> #[trigger] pairs_shared(run, c, queries, siblings, proofs, j),
    ensures
        pruned::pruned_rounds(c, sums, siblings, proofs, states, limit, i) is Ok,
        all_before(
            run,
            pruned::pruned_rounds(c, sums, siblings, proofs, states, limit, i)->Ok_0,
            queries,
            limit,
        ),
    decreases limit - i,
{
    if i < limit {
        honest_queries::lemma_run(run, run.num_vars());
        assert(pairs_shared(run, c, queries, siblings, proofs, i));
        let word = run.word(i);
        let ms = pruned::all_merged(states, sums, c.betas, c.log_len(i));
        let rows = pruned::pair_rows(ms, siblings, i);
        let indices = pruned::row_indices(ms, 1);
        let expected = row_numbers(queries, i, 1);
        assert(pow2(1) == 2) by {
            lemma2_to64();
        }
        assert forall|q: int| 0 <= q < queries.len() implies run.after_merge(
            #[trigger] ms[q],
            queries[q] as nat,
            i,
        ) by {
            assert(run.before_merge(states[q], queries[q] as nat, i));
            assert(run.has_sums(sums[q], queries[q] as nat));
            honest_queries::lemma_merge(run, c, sums[q], states[q], queries[q] as nat, i);
        }
        assert(indices =~= expected) by {
            assert forall|q: int| 0 <= q < queries.len() implies indices[q] == expected[q] by {
                assert(run.after_merge(ms[q], queries[q] as nat, i));
            }
        }
        assert forall|q: int| 0 <= q < rows.len() implies #[trigger] rows[q] == pair_at(
            word,
            indices[q] as int,
        ) by {
            assert(run.after_merge(ms[q], queries[q] as nat, i));
            assert(siblings[q].len() >= 0);
            lemma_index_fits(queries[q] as nat, i);
            assert(rows[q] =~= pair_at(word, indices[q] as int));
        }
        lemma_unique_rows(indices, rows, word);
        let next = Seq::new(
            states.len(),
            |q: int|
                query::stepped(
                    ms[q],
                    rows[q],
                    c.log_len(i),
                    c.challenges[i as int],
                    c.point[c.num_vars() - 1 - i],
                ),
        );
        assert forall|q: int| 0 <= q < queries.len() implies run.before_merge(
            #[trigger] next[q],
            queries[q] as nat,
            i + 1,
        ) by {
            assert(run.after_merge(ms[q], queries[q] as nat, i));
            assert(rows[q] == pair_at(word, indices[q] as int));
            lemma_index_fits(queries[q] as nat, i);
            honest_queries::lemma_step(run, c, ms[q], rows[q], queries[q] as nat, i);
        }
        lemma_pruned_rounds(
            run,
            c,
            queries,
            sums,
            siblings,
            proofs,
            next,
            limit,
            i + 1,
        );
    }
}

/// The index of a row is a machine integer.
proof fn lemma_index_fits(query: nat, i: nat)
    requires
        query <= usize::MAX,
    ensures
        (query / pow2(i)) / 2 <= usize::MAX,
        query / pow2(i) <= query,
{
    lemma_pow2_pos(i);
    vstd::arithmetic::div_mod::lemma_div_is_ordered_by_denominator(
        query as int,
        1,
        pow2(i) as int,
    );
}

/// The queries of an honest prover that share their Merkle paths, round by round, are accepted.
pub proof fn law_pruned_queries_accepted<F: MerkleField, EF: TwoAdicExtension<F>>(
    run: Run<F, EF>,
    c: Iopp<F, EF>,
    queries: Seq<usize>,
    sums: Seq<Seq<(usize, EF)>>,
    opened: PrunedFriQueryProof<F, EF>,
)
    requires
        run.wf(),
        run.checked_by(c),
        run.num_vars() > 0,
        in_word(run, queries),
        all_have_sums(run, sums, queries),
        run.plan.k > 0 ==> c.oracles.len() == run.num_vars() - run.plan.k,
        run.plan.k == 0 ==> c.oracles.len() >= run.num_vars(),
        opened.round_pruned_proofs@.len() >= run.num_vars() - run.plan.k,
        opened.sibling_values@.len() == queries.len(),
        forall|q: int|
            0 <= q < queries.len() ==> (#[trigger] opened.sibling_values@[q])@.len()
                >= run.num_vars() - run.plan.k,
        forall|j: nat|
            j < run.num_vars() - run.plan.k ==> #[trigger] pairs_shared(
                run,
                c,
                queries,
                mmcs::rows_of(opened.sibling_values@),
                pruned::proof_models(opened.round_pruned_proofs@),
                j,
            ),
    ensures
        pruned::pruned_verdict(c, queries, sums, opened) == Ok::<(), BaseFoldError>(()),
{
    honest_queries::lemma_low(run);
    honest_queries::lemma_run(run, run.num_vars());
    let limit = (run.num_vars() - run.plan.k) as nat;
    let siblings = mmcs::rows_of(opened.sibling_values@);
    let proofs = pruned::proof_models(opened.round_pruned_proofs@);
    let start = pruned::all_started::<EF>(queries);
    assert forall|q: int| 0 <= q < queries.len() implies run.before_merge(
        #[trigger] start[q],
        queries[q] as nat,
        0,
    ) by {
        honest_queries::lemma_started(run, queries[q]);
    }
    lemma_pruned_rounds(run, c, queries, sums, siblings, proofs, start, limit, 0);
    let states = pruned::pruned_rounds(c, sums, siblings, proofs, start, limit, 0)->Ok_0;
    assert forall|q: int| 0 <= q < siblings.len() implies (#[trigger] siblings[q]).len()
        >= limit by {
        assert(opened.sibling_values@[q]@.len() >= limit);
    }
    assert forall|q: int| 0 <= q < states.len() implies (#[trigger] pruned::tail_of(
        c,
        sums,
        states,
        limit,
        q,
    )) is Ok && pruned::tail_of(c, sums, states, limit, q)->Ok_0.folded == c.expected by {
        assert(run.before_merge(states[q], queries[q] as nat, limit));
        assert(run.has_sums(sums[q], queries[q] as nat));
        honest_queries::lemma_finished(run, c, sums[q], states[q], queries[q] as nat, limit);
    }
}

/// The rows of the distinct indices of all queries, and an accepted opening of them.
pub open spec fn rows_shared<F: MerkleField, EF: TwoAdicExtension<F>>(
    run: Run<F, EF>,
    c: Iopp<F, EF>,
    schedule: Seq<CommitGroup>,
    queries: Seq<usize>,
    opened: Seq<Seq<Seq<EF>>>,
    proofs: Seq<PrunedModel<F>>,
    g: nat,
) -> bool {
    let round = query::rounds_before(schedule, g);
    let lf = schedule[g as int].log_folding as nat;
    let u = pruned::unique_indices(row_numbers(queries, round, lf));
    &&& opened[g as int] == Seq::new(
        u.len(),
        |k: int| honest_queries::word_row(run.word(round), lf, u[k] as nat),
    )
    &&& ext_mmcs::accepts_rows::<F, EF>(
        c.rounds,
        c.oracles[g as int],
        pow2((c.log_len(round) - lf) as nat),
        opened[g as int],
        proofs[g as int],
    )
}

/// The groups of rounds of all queries check out.
proof fn lemma_pruned_groups<F: MerkleField, EF: TwoAdicExtension<F>>(
    run: Run<F, EF>,
    c: Iopp<F, EF>,
    schedule: Seq<CommitGroup>,
    queries: Seq<usize>,
    sums: Seq<Seq<(usize, EF)>>,
    opened: Seq<Seq<Seq<EF>>>,
    proofs: Seq<PrunedModel<F>>,
    states: Seq<QueryState<EF>>,
    g: nat,
)
    requires
        run.wf(),
        run.checked_by(c),
        in_word(run, queries),
        all_have_sums(run, sums, queries),
        honest_queries::schedule_of_run(run, schedule),
        g <= schedule.len(),
        all_before(run, states, queries, query::rounds_before(schedule, g)),
        forall|j: nat|
            j < schedule.len() ==> #[trigger] rows_shared(
                run,
                c,
                schedule,
                queries,
                opened,
                proofs,
                j,
            ),
    ensures
        pruned_groups::pruned_groups(c, sums, schedule, opened, proofs, states, g) is Ok,
        all_before(
            run,
            pruned_groups::pruned_groups(c, sums, schedule, opened, proofs, states, g)->Ok_0,
            queries,
            query::rounds_before(schedule, schedule.len()),
        ),
    decreases schedule.len() - g,
{
    if g < schedule.len() {
        honest_queries::lemma_run(run, run.num_vars());
        honest_queries::lemma_low(run);
        honest_queries::lemma_group(run, schedule, g);
        assert(rows_shared(run, c, schedule, queries, opened, proofs, g));
        let round = query::rounds_before(schedule, g);
        let lf = schedule[g as int].log_folding as nat;
        let word = run.word(round);
        let rows = opened[g as int];
        let indices = pruned::row_indices(states, lf);
        let expected = row_numbers(queries, round, lf);
        let ms = pruned::all_merged(states, sums, c.betas, c.log_len(round));
        assert(indices =~= expected) by {
            assert forall|q: int| 0 <= q < queries.len() implies indices[q] == expected[q] by {
                assert(run.before_merge(states[q], queries[q] as nat, round));
            }
        }
        let u = pruned::unique_indices(indices);
        pruned::law_unique_indices(indices);
        assert forall|q: int| 0 <= q < queries.len() implies run.after_merge(
            #[trigger] ms[q],
            queries[q] as nat,
            round,
        ) by {
            assert(run.before_merge(states[q], queries[q] as nat, round));
            assert(run.has_sums(sums[q], queries[q] as nat));
            honest_queries::lemma_merge(run, c, sums[q], states[q], queries[q] as nat, round);
        }
        assert forall|q: int| 0 <= q < queries.len() implies pruned_groups::row_of_query(
            indices,
            rows,
            q,
        ) == honest_queries::word_row(
            word,
            lf,
            (queries[q] as nat / pow2(round)) / pow2(lf),
        ) by {
            assert(indices.contains(indices[q]));
            assert(u.contains(indices[q]));
            let k = u.index_of(indices[q]);
            assert(0 <= k < u.len() && u[k] == indices[q]);
            lemma_row_number_fits(queries[q] as nat, round, lf);
        }
        assert forall|k: int| 0 <= k < rows.len() implies (#[trigger] rows[k]).len() == pow2(lf) by {
            assert(u.contains(u[k]));
            assert(indices.contains(u[k]));
            let q = indices.index_of(u[k]);
            assert(0 <= q < indices.len() && indices[q] == u[k]);
            assert(run.after_merge(ms[q], queries[q] as nat, round));
            assert(queries[q] < pow2(run.num_vars() + run.log_blowup));
            lemma_row_number_fits(queries[q] as nat, round, lf);
            honest_queries::lemma_row_step(
                run,
                c,
                ms[q],
                pruned_groups::row_of_query(indices, rows, q),
                queries[q] as nat,
                round,
                lf,
            );
        }
        let next = Seq::new(
            states.len(),
            |q: int|
                query::row_stepped(
                    c,
                    ms[q],
                    pruned_groups::row_of_query(indices, rows, q),
                    round,
                    lf,
                ),
        );
        assert forall|q: int| 0 <= q < queries.len() implies run.before_merge(
            #[trigger] next[q],
            queries[q] as nat,
            round + lf,
        ) by {
            assert(run.after_merge(ms[q], queries[q] as nat, round));
            assert(queries[q] < pow2(run.num_vars() + run.log_blowup));
            honest_queries::lemma_row_step(
                run,
                c,
                ms[q],
                pruned_groups::row_of_query(indices, rows, q),
                queries[q] as nat,
                round,
                lf,
            );
        }
        assert forall|q: int|
            0 <= q < states.len() implies !#[trigger] pruned_groups::entry_differs(
            ms[q],
            pruned_groups::row_of_query(indices, rows, q),
            lf,
        ) by {
            assert(run.after_merge(ms[q], queries[q] as nat, round));
            assert(queries[q] < pow2(run.num_vars() + run.log_blowup));
            honest_queries::lemma_row_step(
                run,
                c,
                ms[q],
                pruned_groups::row_of_query(indices, rows, q),
                queries[q] as nat,
                round,
                lf,
            );
        }
        lemma_pruned_groups(
            run,
            c,
            schedule,
            queries,
            sums,
            opened,
            proofs,
            next,
            g + 1,
        );
    }
}

proof fn lemma_row_number_fits(query: nat, round: nat, lf: nat)
    requires
        query <= usize::MAX,
    ensures
        (query / pow2(round)) / pow2(lf) <= usize::MAX,
{
    lemma_index_fits(query, round);
    lemma_pow2_pos(lf);
    lemma_pow2_pos(round);
    vstd::arithmetic::div_mod::lemma_div_pos_is_pos(query as int, pow2(round) as int);
    let at = query / pow2(round);
    vstd::arithmetic::div_mod::lemma_div_is_ordered_by_denominator(at as int, 1, pow2(lf) as int);
}

proof fn lemma_no_refusal<F: MerkleField, EF: TwoAdicExtension<F>>(
    run: Run<F, EF>,
    c: Iopp<F, EF>,
    queries: Seq<usize>,
    sums: Seq<Seq<(usize, EF)>>,
    states: Seq<QueryState<EF>>,
    start: nat,
    q: nat,
)
    requires
        run.wf(),
        run.checked_by(c),
        run.num_vars() > 0,
        in_word(run, queries),
        all_have_sums(run, sums, queries),
        start == run.num_vars() - run.plan.k,
        all_before(run, states, queries, start),
        q <= states.len(),
    ensures
        pruned_groups::first_refusal(c, sums, states, start, q) == Ok::<(), BaseFoldError>(()),
    decreases states.len() - q,
{
    if q < states.len() {
        assert(run.before_merge(states[q as int], queries[q as int] as nat, start));
        assert(run.has_sums(sums[q as int], queries[q as int] as nat));
        honest_queries::lemma_finished(
            run,
            c,
            sums[q as int],
            states[q as int],
            queries[q as int] as nat,
            start,
        );
        lemma_no_refusal(run, c, queries, sums, states, start, q + 1);
    }
}

/// The queries of an honest prover that share their Merkle paths, group by group, are accepted.
pub proof fn law_pruned_groups_accepted<F: MerkleField, EF: TwoAdicExtension<F>>(
    run: Run<F, EF>,
    c: Iopp<F, EF>,
    schedule: Seq<CommitGroup>,
    queries: Seq<usize>,
    sums: Seq<Seq<(usize, EF)>>,
    opened: CrossRoundPrunedOpenings<F, EF>,
)
    requires
        run.wf(),
        run.checked_by(c),
        run.num_vars() > 0,
        in_word(run, queries),
        all_have_sums(run, sums, queries),
        honest_queries::schedule_of_run(run, schedule),
        opened.group_pruned@.len() == schedule.len(),
        opened.group_opened_rows@.len() == schedule.len(),
        opened.query_to_unique_slot@.len() == schedule.len(),
        forall|j: nat|
            j < schedule.len() ==> #[trigger] rows_shared(
                run,
                c,
                schedule,
                queries,
                mmcs::row_sets_of(opened.group_opened_rows@),
                pruned::proof_models(opened.group_pruned@),
                j,
            ),
    ensures
        pruned_groups::pruned_groups_verdict(c, queries, sums, schedule, opened) == Ok::<
            (),
            BaseFoldError,
        >(()),
{
    honest_queries::lemma_low(run);
    let rows = mmcs::row_sets_of(opened.group_opened_rows@);
    let proofs = pruned::proof_models(opened.group_pruned@);
    let start = pruned::all_started::<EF>(queries);
    assert forall|q: int| 0 <= q < queries.len() implies run.before_merge(
        #[trigger] start[q],
        queries[q] as nat,
        0,
    ) by {
        honest_queries::lemma_started(run, queries[q]);
    }
    lemma_pruned_groups(run, c, schedule, queries, sums, rows, proofs, start, 0);
    let states = pruned_groups::pruned_groups(c, sums, schedule, rows, proofs, start, 0)->Ok_0;
    lemma_no_refusal(
        run,
        c,
        queries,
        sums,
        states,
        query::rounds_before(schedule, schedule.len()),
        0,
    );
}

} // verus!
