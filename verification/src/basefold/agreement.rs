//! How the ways of opening the folded codewords agree.
use vstd::prelude::*;
use vstd::arithmetic::div_mod::*;
use vstd::arithmetic::power2::*;
use crate::basefold::fold;
use crate::basefold::mmcs;
use crate::basefold::mmcs::MerkleField;
use crate::basefold::openings::{
    BaseFoldError, CommitPhaseProofStep, CrossRoundProofStep, CrossRoundPrunedOpenings,
    PrunedFriQueryProof,
};
use crate::basefold::pruned;
use crate::basefold::pruned_groups;
use crate::basefold::query;
use crate::basefold::query::{Iopp, QueryState};
use crate::basefold::schedule::CommitGroup;
use crate::field::TwoAdicExtension;

verus! {

/// Every group covers one round.
pub open spec fn single_rounds(schedule: Seq<CommitGroup>) -> bool {
    forall|g: int| 0 <= g < schedule.len() ==> (#[trigger] schedule[g]).log_folding == 1
}

/// The position of the sibling of the query in its pair of round `g`.
pub open spec fn sibling_position(query: usize, g: nat) -> int {
    1 - (query as nat / pow2(g)) % 2
}

/// Each step that opens one entry opens the sibling out of the row of the step that opens the
/// whole row, with the same proof.
pub open spec fn same_openings<F, EF>(
    rows: Seq<CrossRoundProofStep<F, EF>>,
    pairs: Seq<CommitPhaseProofStep<F, EF>>,
    query: usize,
) -> bool {
    &&& rows.len() == pairs.len()
    &&& forall|g: int|
        0 <= g < rows.len() ==> mmcs::rows_of((#[trigger] pairs[g]).opening_proof@)
            == mmcs::rows_of(rows[g].opening_proof@) && pairs[g].sibling_value
            == rows[g].row_values@[sibling_position(query, g as nat)]
}

/// From round `g` on, each opened row is the pair of the entry that the rounds before it fold to
/// and its sibling.
pub open spec fn rows_continue<F: MerkleField, EF: TwoAdicExtension<F>>(
    c: Iopp<F, EF>,
    sums: Seq<(usize, EF)>,
    rows: Seq<CrossRoundProofStep<F, EF>>,
    pairs: Seq<CommitPhaseProofStep<F, EF>>,
    s: QueryState<EF>,
    g: nat,
) -> bool
    decreases rows.len() - g,
{
    if g >= rows.len() {
        true
    } else {
        let m = query::merged(s, sums, c.betas, c.log_len(g));
        let row = query::pair_row(m, pairs[g as int].sibling_value);
        &&& rows[g as int].row_values@ == row
        &&& rows_continue(
            c,
            sums,
            rows,
            pairs,
            query::stepped(
                m,
                row,
                c.log_len(g),
                c.challenges[g as int],
                c.point[c.num_vars() - 1 - g],
            ),
            g + 1,
        )
    }
}

proof fn lemma_single_rounds_before(schedule: Seq<CommitGroup>, g: nat)
    requires
        single_rounds(schedule),
        g <= schedule.len(),
    ensures
        query::rounds_before(schedule, g) == g,
    decreases g,
{
    if g > 0 {
        lemma_single_rounds_before(schedule, (g - 1) as nat);
        assert(schedule[g - 1].log_folding == 1);
    }
}

/// Folding a row of two entries is folding the pair.
proof fn lemma_single_step<F: MerkleField, EF: TwoAdicExtension<F>>(
    c: Iopp<F, EF>,
    m: QueryState<EF>,
    row: Seq<EF>,
    g: nat,
)
    requires
        row.len() == 2,
        g < c.num_vars(),
    ensures
        query::row_stepped(c, m, row, g, 1) == query::stepped(
            m,
            row,
            c.log_len(g),
            c.challenges[g as int],
            c.point[c.num_vars() - 1 - g],
        ),
{
    lemma2_to64();
    let index = m.query as nat / 2;
    let challenges = c.challenges.subrange(g as int, (g + 1) as int);
    reveal_with_fuel(fold::row_folded_all, 2);
    reveal_with_fuel(query::eq_stepped, 2);
    assert(challenges.drop_first().len() == 0);
    assert(challenges[0] == c.challenges[g as int]);
    assert(index * 1 + 0 == index);
}

proof fn lemma_groups<F: MerkleField, EF: TwoAdicExtension<F>>(
    c: Iopp<F, EF>,
    sums: Seq<(usize, EF)>,
    schedule: Seq<CommitGroup>,
    rows: Seq<CrossRoundProofStep<F, EF>>,
    pairs: Seq<CommitPhaseProofStep<F, EF>>,
    query: usize,
    s: QueryState<EF>,
    g: nat,
)
    requires
        single_rounds(schedule),
        schedule.len() == rows.len(),
        same_openings(rows, pairs, query),
        rows.len() <= c.num_vars(),
        rows.len() <= c.oracles.len(),
        g <= rows.len(),
        s.query == query as nat / pow2(g),
    ensures
        rows_continue(c, sums, rows, pairs, s, g) ==> query::group_rounds(
            c,
            sums,
            schedule,
            rows,
            s,
            g,
        ) == query::committed_rounds(c, sums, pairs, s, g),
        !rows_continue(c, sums, rows, pairs, s, g) ==> query::group_rounds(
            c,
            sums,
            schedule,
            rows,
            s,
            g,
        ) is Err,
    decreases rows.len() - g,
{
    if g < rows.len() {
        lemma2_to64();
        lemma_single_rounds_before(schedule, g);
        assert(schedule[g as int].log_folding == 1);
        assert(mmcs::rows_of(pairs[g as int].opening_proof@) == mmcs::rows_of(
            rows[g as int].opening_proof@,
        ));
        let m = query::merged(s, sums, c.betas, c.log_len(g));
        let row = rows[g as int].row_values@;
        let sibling = pairs[g as int].sibling_value;
        let pair = query::pair_row(m, sibling);
        if row.len() == 2 {
            if m.folded == row[(m.query as nat % 2) as int] {
                assert(row =~= pair);
            } else {
                assert(row != pair);
            }
            lemma_single_step(c, m, row, g);
            let next = query::stepped(
                m,
                row,
                c.log_len(g),
                c.challenges[g as int],
                c.point[c.num_vars() - 1 - g],
            );
            lemma_pow2_unfold(g + 1);
            lemma_pow2_pos(g);
            lemma_div_denominator(query as int, pow2(g) as int, 2);
            assert(pow2(g) * 2 == pow2(g + 1));
            lemma_groups(c, sums, schedule, rows, pairs, query, next, g + 1);
        }
    }
}

/// Law: where every group covers one round, a query that is opened by whole rows is accepted exactly
/// where it is accepted round by round and every row holds, beside the sibling, the entry that the
/// rounds before it fold to; and for such rows the verdicts are the same.
pub proof fn law_single_round_groups<F: MerkleField, EF: TwoAdicExtension<F>>(
    c: Iopp<F, EF>,
    sums: Seq<(usize, EF)>,
    schedule: Seq<CommitGroup>,
    rows: Seq<CrossRoundProofStep<F, EF>>,
    pairs: Seq<CommitPhaseProofStep<F, EF>>,
    query: usize,
)
    requires
        single_rounds(schedule),
        schedule.len() == rows.len(),
        same_openings(rows, pairs, query),
        rows.len() <= c.num_vars(),
        rows.len() <= c.oracles.len(),
    ensures
        query::cross_round_verdict(c, sums, schedule, rows, query) is Ok <==> query::query_verdict(
            c,
            sums,
            pairs,
            query,
        ) is Ok && rows_continue(c, sums, rows, pairs, query::started(query), 0),
        rows_continue(c, sums, rows, pairs, query::started(query), 0)
            ==> query::cross_round_verdict(c, sums, schedule, rows, query) == query::query_verdict(
            c,
            sums,
            pairs,
            query,
        ),
{
    lemma2_to64();
    lemma_single_rounds_before(schedule, schedule.len());
    lemma_groups(c, sums, schedule, rows, pairs, query, query::started(query), 0);
}

/// Law: the places that a proof gives for the rows of the queries have no influence on the verdict
/// on its folded codewords; with groups of rounds only their number is looked at.
pub proof fn law_slots_unread<F: MerkleField, EF: TwoAdicExtension<F>>(
    c: Iopp<F, EF>,
    queries: Seq<usize>,
    sums: Seq<Seq<(usize, EF)>>,
    schedule: Seq<CommitGroup>,
    one: PrunedFriQueryProof<F, EF>,
    other: PrunedFriQueryProof<F, EF>,
    one_by_groups: CrossRoundPrunedOpenings<F, EF>,
    other_by_groups: CrossRoundPrunedOpenings<F, EF>,
)
    requires
        one.round_pruned_proofs == other.round_pruned_proofs,
        one.sibling_values == other.sibling_values,
        one_by_groups.group_pruned == other_by_groups.group_pruned,
        one_by_groups.group_opened_rows == other_by_groups.group_opened_rows,
        one_by_groups.query_to_unique_slot@.len() == other_by_groups.query_to_unique_slot@.len(),
    ensures
        pruned::pruned_verdict(c, queries, sums, one) == pruned::pruned_verdict(
            c,
            queries,
            sums,
            other,
        ),
        pruned_groups::pruned_groups_verdict(c, queries, sums, schedule, one_by_groups)
            == pruned_groups::pruned_groups_verdict(c, queries, sums, schedule, other_by_groups),
{
}

/// The number of rounds that are checked against Merkle roots where there is an opening for each.
pub open spec fn all_committed<F: MerkleField, EF: TwoAdicExtension<F>>(c: Iopp<F, EF>) -> nat {
    if c.oracles.len() <= c.num_vars() {
        c.oracles.len()
    } else {
        c.num_vars()
    }
}

/// The openings of each query, one for each round with a Merkle root, open the siblings that the
/// shared proof gives for the query.
pub open spec fn same_siblings<F: MerkleField, EF: TwoAdicExtension<F>>(
    c: Iopp<F, EF>,
    siblings: Seq<Seq<EF>>,
    openings: Seq<Seq<CommitPhaseProofStep<F, EF>>>,
) -> bool {
    &&& openings.len() == siblings.len()
    &&& forall|q: int|
        0 <= q < openings.len() ==> (#[trigger] openings[q]).len() == all_committed(c)
    &&& forall|q: int, r: int|
        0 <= q < openings.len() && 0 <= r < openings[q].len() ==> (
        #[trigger] openings[q][r]).sibling_value == siblings[q][r]
}

/// The rounds of a query that are checked against Merkle roots.
pub open spec fn rounds_of_query<F: MerkleField, EF: TwoAdicExtension<F>>(
    c: Iopp<F, EF>,
    sums: Seq<Seq<(usize, EF)>>,
    openings: Seq<Seq<CommitPhaseProofStep<F, EF>>>,
    states: Seq<QueryState<EF>>,
    round: nat,
    q: int,
) -> Result<QueryState<EF>, BaseFoldError> {
    query::committed_rounds(c, sums[q], openings[q], states[q], round)
}

proof fn lemma_same_states<F: MerkleField, EF: TwoAdicExtension<F>>(
    c: Iopp<F, EF>,
    sums: Seq<Seq<(usize, EF)>>,
    siblings: Seq<Seq<EF>>,
    proofs: Seq<mmcs::PrunedModel<F>>,
    openings: Seq<Seq<CommitPhaseProofStep<F, EF>>>,
    states: Seq<QueryState<EF>>,
    round: nat,
)
    requires
        same_siblings(c, siblings, openings),
        states.len() == openings.len(),
        round <= all_committed(c),
        pruned::pruned_rounds(c, sums, siblings, proofs, states, all_committed(c), round) is Ok,
        forall|q: int|
            0 <= q < states.len() ==> #[trigger] rounds_of_query(
                c,
                sums,
                openings,
                states,
                round,
                q,
            ) is Ok,
    ensures
        ({
            let all = pruned::pruned_rounds(
                c,
                sums,
                siblings,
                proofs,
                states,
                all_committed(c),
                round,
            )->Ok_0;
            &&& all.len() == states.len()
            &&& forall|q: int|
                0 <= q < states.len() ==> rounds_of_query(
                    c,
                    sums,
                    openings,
                    states,
                    round,
                    q,
                )->Ok_0 == #[trigger] all[q]
        }),
    decreases all_committed(c) - round,
{
    let limit = all_committed(c);
    if round < limit {
        let ms = pruned::all_merged(states, sums, c.betas, c.log_len(round));
        let rows = pruned::pair_rows(ms, siblings, round);
        let next = Seq::new(
            states.len(),
            |q: int|
                query::stepped(
                    ms[q],
                    rows[q],
                    c.log_len(round),
                    c.challenges[round as int],
                    c.point[c.num_vars() - 1 - round],
                ),
        );
        assert forall|q: int| 0 <= q < states.len() implies #[trigger] rounds_of_query(
            c,
            sums,
            openings,
            next,
            round + 1,
            q,
        ) is Ok && rounds_of_query(c, sums, openings, next, round + 1, q) == rounds_of_query(
            c,
            sums,
            openings,
            states,
            round,
            q,
        ) by {
            assert(rounds_of_query(c, sums, openings, states, round, q) is Ok);
            assert(openings[q].len() == limit);
            assert(openings[q][round as int].sibling_value == siblings[q][round as int]);
        }
        lemma_same_states(c, sums, siblings, proofs, openings, next, round + 1);
        let all = pruned::pruned_rounds(c, sums, siblings, proofs, states, limit, round)->Ok_0;
        assert(all == pruned::pruned_rounds(
            c,
            sums,
            siblings,
            proofs,
            next,
            limit,
            round + 1,
        )->Ok_0);
        assert forall|q: int| 0 <= q < states.len() implies rounds_of_query(
            c,
            sums,
            openings,
            states,
            round,
            q,
        )->Ok_0 == #[trigger] all[q] by {
            assert(rounds_of_query(c, sums, openings, next, round + 1, q) is Ok);
        }
    } else {
        assert forall|q: int| 0 <= q < states.len() implies rounds_of_query(
            c,
            sums,
            openings,
            states,
            round,
            q,
        )->Ok_0 == #[trigger] states[q] by {
            assert(openings[q].len() == limit);
        }
    }
}

/// Law: where the Merkle openings are accepted in both forms, queries with shared paths are accepted
/// exactly where all of them are, opened one by one with the same siblings.
pub proof fn law_pruned_queries<F: MerkleField, EF: TwoAdicExtension<F>>(
    c: Iopp<F, EF>,
    queries: Seq<usize>,
    sums: Seq<Seq<(usize, EF)>>,
    opened: PrunedFriQueryProof<F, EF>,
    openings: Seq<Seq<CommitPhaseProofStep<F, EF>>>,
)
    requires
        queries.len() > 0,
        queries.len() == openings.len() == sums.len(),
        same_siblings(c, mmcs::rows_of(opened.sibling_values@), openings),
        opened.round_pruned_proofs@.len() >= all_committed(c),
        forall|q: int|
            0 <= q < opened.sibling_values@.len() ==> (#[trigger] mmcs::rows_of(
                opened.sibling_values@,
            )[q]).len() >= all_committed(c),
        pruned::pruned_rounds(
            c,
            sums,
            mmcs::rows_of(opened.sibling_values@),
            pruned::proof_models(opened.round_pruned_proofs@),
            pruned::all_started(queries),
            all_committed(c),
            0,
        ) is Ok,
        forall|q: int|
            0 <= q < queries.len() ==> #[trigger] rounds_of_query(
                c,
                sums,
                openings,
                pruned::all_started(queries),
                0,
                q,
            ) is Ok,
    ensures
        pruned::pruned_verdict(c, queries, sums, opened) is Ok <==> forall|q: int|
            0 <= q < queries.len() ==> #[trigger] query::query_verdict(
                c,
                sums[q],
                openings[q],
                queries[q],
            ) is Ok,
{
    let siblings = mmcs::rows_of(opened.sibling_values@);
    let proofs = pruned::proof_models(opened.round_pruned_proofs@);
    let start = pruned::all_started::<EF>(queries);
    let limit = all_committed(c);
    lemma_same_states(c, sums, siblings, proofs, openings, start, 0);
    let all = pruned::pruned_rounds(c, sums, siblings, proofs, start, limit, 0)->Ok_0;
    assert forall|q: int| 0 <= q < queries.len() implies #[trigger] query::query_verdict(
        c,
        sums[q],
        openings[q],
        queries[q],
    ) == query::finished(c, sums[q], all[q], limit) by {
        assert(rounds_of_query(c, sums, openings, start, 0, q) is Ok);
        assert(openings[q].len() == limit);
        assert(rounds_of_query(c, sums, openings, start, 0, q)->Ok_0 == all[q]);
    }
    if pruned::pruned_finished(c, sums, all, limit) is Ok {
        assert forall|q: int| 0 <= q < queries.len() implies #[trigger] query::query_verdict(
            c,
            sums[q],
            openings[q],
            queries[q],
        ) is Ok by {
            assert(!(pruned::tail_of(c, sums, all, limit, q) is Err));
        }
    } else {
        if limit < c.num_vars() && c.final_codeword is None {
            assert(query::query_verdict(c, sums[0], openings[0], queries[0]) is Err);
        } else if exists|q: int|
            0 <= q < all.len() && (#[trigger] pruned::tail_of(c, sums, all, limit, q)) is Err {
            let q = choose|q: int|
                0 <= q < all.len() && (#[trigger] pruned::tail_of(c, sums, all, limit, q)) is Err;
            assert(query::query_verdict(c, sums[q], openings[q], queries[q]) is Err);
        } else {
            let q = choose|q: int|
                0 <= q < all.len() && (#[trigger] pruned::tail_of(
                    c,
                    sums,
                    all,
                    limit,
                    q,
                ))->Ok_0.folded != c.expected;
            assert(query::query_verdict(c, sums[q], openings[q], queries[q]) is Err);
        }
    }
}

} // verus!
