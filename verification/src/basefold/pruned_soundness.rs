//! What an accepted opening with shared Merkle paths has been checked for.
use vstd::prelude::*;
use vstd::arithmetic::power2::*;
use crate::basefold::batch;
use crate::basefold::batch::GroupModel;
use crate::basefold::challenger::Transcript;
use crate::basefold::eqpoly;
use crate::basefold::ext_mmcs;
use crate::basefold::fold;
use crate::basefold::groups;
use crate::basefold::mmcs;
use crate::basefold::mmcs::{Dimensions, MerkleField};
use crate::basefold::openings::{
    BasefoldProof, CrossRoundPrunedOpenings, PrunedFriQueryProof, PrunedQueryOpenings,
};
use crate::basefold::pcs::BaseFoldPcs;
use crate::basefold::pruned;
use crate::basefold::pruned_groups;
use crate::basefold::query;
use crate::basefold::query::{Iopp, QueryState};
use crate::basefold::query_soundness;
use crate::basefold::schedule::CommitGroup;
use crate::basefold::soundness;
use crate::basefold::verdict;
use crate::field::TwoAdicExtension;

verus! {

/// A round of all queries with shared paths: each query's pair is its entry, with the heights that
/// enter, and its sibling; queries that fall into the same pair agree on it; the pairs, in ascending
/// order of their places, are rows of the committed codeword; and each next entry lies on the line
/// through the pair.
pub open spec fn round_shared<F: MerkleField, EF: TwoAdicExtension<F>>(
    c: Iopp<F, EF>,
    sums: Seq<Seq<(usize, EF)>>,
    siblings: Seq<Seq<EF>>,
    proof: mmcs::PrunedModel<F>,
    r: nat,
    before: Seq<QueryState<EF>>,
    after: Seq<QueryState<EF>>,
) -> bool {
    exists|ms: Seq<QueryState<EF>>, pairs: Seq<Seq<EF>>, places: Seq<usize>|
        {
            let len = (c.num_vars() + c.log_blowup - r) as nat;
            let challenge = c.challenges[r as int];
            &&& ms.len() == before.len() && pairs.len() == before.len() && after.len()
                == before.len() && places.len() == before.len()
            &&& #[trigger] pairs_at(ms, siblings, r, pairs, places)
            &&& forall|q: int|
                0 <= q < ms.len() ==> query_soundness::height_enters(
                    sums[q],
                    c.betas,
                    len,
                    before[q],
                    #[trigger] ms[q],
                )
            &&& forall|a: int, b: int|
                0 <= a < b < ms.len() && #[trigger] places[a] == #[trigger] places[b] ==> pairs[a]
                    == pairs[b]
            &&& F::accepts_pruned(
                c.rounds,
                c.oracles[r as int],
                seq![pow2((len - 1) as nat)],
                ext_mmcs::flattened_sets::<F, EF>(pruned::unique_rows(places, pairs)),
                proof,
            )
            &&& forall|q: int|
                0 <= q < ms.len() ==> {
                    let next = #[trigger] after[q];
                    &&& pairs[q][0].valid() && pairs[q][1].valid() && challenge.valid() && 1 <= len
                        <= EF::two_adicity() ==> query_soundness::on_line(
                        pairs[q][0],
                        pairs[q][1],
                        query_soundness::pair_point(len, (ms[q].query / 2) as nat),
                        challenge,
                        next.folded,
                    )
                    &&& next.query == ms[q].query / 2
                    &&& next.merges == ms[q].merges
                    &&& next.eq == ms[q].eq.times(
                        eqpoly::eq_factor(c.point[c.num_vars() - 1 - r], challenge),
                    )
                }
        }
}

/// The pair of each query, in its order, and the place of the pair.
pub open spec fn pairs_at<EF>(
    ms: Seq<QueryState<EF>>,
    siblings: Seq<Seq<EF>>,
    r: nat,
    pairs: Seq<Seq<EF>>,
    places: Seq<usize>,
) -> bool {
    forall|q: int|
        0 <= q < ms.len() ==> (#[trigger] places[q]) == ms[q].query / 2 && pairs[q] == (
        if ms[q].query % 2 == 0 {
            seq![ms[q].folded, siblings[q][r as int]]
        } else {
            seq![siblings[q][r as int], ms[q].folded]
        })
}

proof fn lemma_rounds_shared<F: MerkleField, EF: TwoAdicExtension<F>>(
    c: Iopp<F, EF>,
    sums: Seq<Seq<(usize, EF)>>,
    siblings: Seq<Seq<EF>>,
    proofs: Seq<mmcs::PrunedModel<F>>,
    states: Seq<QueryState<EF>>,
    limit: nat,
    round: nat,
) -> (all: Seq<Seq<QueryState<EF>>>)
    requires
        round <= limit,
        pruned::pruned_rounds(c, sums, siblings, proofs, states, limit, round) is Ok,
    ensures
        all.len() == limit + 1 - round,
        all[0] == states,
        all.last() == pruned::pruned_rounds(c, sums, siblings, proofs, states, limit, round)->Ok_0,
        forall|i: int|
            0 <= i < all.len() - 1 ==> round_shared(
                c,
                sums,
                siblings,
                proofs[round + i],
                (round + i) as nat,
                #[trigger] all[i],
                all[i + 1],
            ),
    decreases limit - round,
{
    if round >= limit {
        seq![states]
    } else {
        let len = c.log_len(round);
        let ch = c.challenges[round as int];
        let ms = pruned::all_merged(states, sums, c.betas, len);
        let rows = pruned::pair_rows(ms, siblings, round);
        let indices = pruned::row_indices(ms, 1);
        let next = Seq::new(
            states.len(),
            |q: int|
                query::stepped(ms[q], rows[q], len, ch, c.point[c.num_vars() - 1 - round]),
        );
        let rest = lemma_rounds_shared(c, sums, siblings, proofs, next, limit, round + 1);
        lemma2_to64();
        assert forall|q: int| 0 <= q < ms.len() implies (#[trigger] indices[q]) == ms[q].query / 2
            && rows[q] == (if ms[q].query % 2 == 0 {
            seq![ms[q].folded, siblings[q][round as int]]
        } else {
            seq![siblings[q][round as int], ms[q].folded]
        }) by {}
        assert(pairs_at(ms, siblings, round, rows, indices));
        assert forall|q: int| 0 <= q < ms.len() implies query_soundness::height_enters(
            sums[q],
            c.betas,
            len,
            states[q],
            #[trigger] ms[q],
        ) by {}
        assert forall|q: int| 0 <= q < ms.len() implies {
            let n = #[trigger] next[q];
            &&& rows[q][0].valid() && rows[q][1].valid() && ch.valid() && 1 <= len
                <= EF::two_adicity() ==> query_soundness::on_line(
                rows[q][0],
                rows[q][1],
                query_soundness::pair_point(len, (ms[q].query / 2) as nat),
                ch,
                n.folded,
            )
            &&& n.query == ms[q].query / 2
            &&& n.merges == ms[q].merges
            &&& n.eq == ms[q].eq.times(eqpoly::eq_factor(c.point[c.num_vars() - 1 - round], ch))
        } by {
            if rows[q][0].valid() && rows[q][1].valid() && ch.valid() && 1 <= len
                <= EF::two_adicity() {
                query_soundness::lemma_line(
                    rows[q][0],
                    rows[q][1],
                    len,
                    (ms[q].query / 2) as nat,
                    ch,
                );
            }
        }
        assert(round_shared(c, sums, siblings, proofs[round as int], round, states, next));
        let all = seq![states] + rest;
        assert forall|i: int| 0 <= i < all.len() - 1 implies round_shared(
            c,
            sums,
            siblings,
            proofs[round + i],
            (round + i) as nat,
            #[trigger] all[i],
            all[i + 1],
        ) by {
            if i > 0 {
                assert(all[i] == rest[i - 1]);
                assert(all[i + 1] == rest[i]);
            } else {
                assert(all[1] == rest[0]);
            }
        }
        all
    }
}

/// The rounds of all queries with shared paths.
pub open spec fn rounds_shared<F: MerkleField, EF: TwoAdicExtension<F>>(
    c: Iopp<F, EF>,
    sums: Seq<Seq<(usize, EF)>>,
    opened: PrunedFriQueryProof<F, EF>,
    all: Seq<Seq<QueryState<EF>>>,
) -> bool {
    forall|r: int|
        0 <= r < all.len() - 1 ==> round_shared(
            c,
            sums,
            mmcs::rows_of(opened.sibling_values@),
            opened.round_pruned_proofs@[r]@,
            r as nat,
            #[trigger] all[r],
            all[r + 1],
        )
}

/// Law: accepted queries with shared paths all pass every committed round together, and each ends in
/// the expected value or in the codeword of the final table.
pub proof fn law_accepted_pruned_queries<F: MerkleField, EF: TwoAdicExtension<F>>(
    c: Iopp<F, EF>,
    queries: Seq<usize>,
    sums: Seq<Seq<(usize, EF)>>,
    opened: PrunedFriQueryProof<F, EF>,
)
    requires
        pruned::pruned_verdict(c, queries, sums, opened) is Ok,
    ensures
        exists|all: Seq<Seq<QueryState<EF>>>|
            {
                let limit = query_soundness::least(c.oracles.len(), c.num_vars());
                &&& #[trigger] rounds_shared(c, sums, opened, all)
                &&& all.len() == limit + 1
                &&& all[0] == queries.map_values(
                    |q: usize|
                        QueryState {
                            folded: EF::zero_elem(),
                            merges: 0,
                            eq: EF::one_elem(),
                            query: q,
                        },
                )
                &&& all.last().len() == queries.len()
                &&& forall|q: int|
                    0 <= q < queries.len() ==> query_soundness::rest_checked(
                        c,
                        sums[q],
                        #[trigger] all.last()[q],
                        limit,
                    )
            },
{
    let limit = query_soundness::least(c.oracles.len(), c.num_vars());
    let siblings = mmcs::rows_of(opened.sibling_values@);
    let proofs = pruned::proof_models(opened.round_pruned_proofs@);
    let start = pruned::all_started::<EF>(queries);
    let all = lemma_rounds_shared(c, sums, siblings, proofs, start, limit, 0);
    assert forall|r: int| 0 <= r < all.len() - 1 implies round_shared(
        c,
        sums,
        siblings,
        opened.round_pruned_proofs@[r]@,
        r as nat,
        #[trigger] all[r],
        all[r + 1],
    ) by {
        assert(proofs[r] == opened.round_pruned_proofs@[r]@);
    }
    assert(rounds_shared(c, sums, opened, all));
    assert(all[0] =~= queries.map_values(
        |q: usize|
            QueryState { folded: EF::zero_elem(), merges: 0, eq: EF::one_elem(), query: q },
    ));
    lemma_lens(c, sums, siblings, proofs, all, limit);
    let states = all.last();
    assert(pruned::pruned_finished(c, sums, states, limit) is Ok);
    assert forall|q: int| 0 <= q < queries.len() implies query_soundness::rest_checked(
        c,
        sums[q],
        #[trigger] all.last()[q],
        limit,
    ) by {
        let tail = pruned::tail_of(c, sums, states, limit, q);
        assert(tail is Ok);
        assert(tail->Ok_0.folded == c.expected);
        assert(query::finished(c, sums[q], states[q], limit) is Ok);
        query_soundness::lemma_rest(c, sums[q], states[q], limit);
    }
}

proof fn lemma_lens<F: MerkleField, EF: TwoAdicExtension<F>>(
    c: Iopp<F, EF>,
    sums: Seq<Seq<(usize, EF)>>,
    siblings: Seq<Seq<EF>>,
    proofs: Seq<mmcs::PrunedModel<F>>,
    all: Seq<Seq<QueryState<EF>>>,
    n: nat,
)
    requires
        n < all.len(),
        forall|i: int|
            0 <= i < all.len() - 1 ==> round_shared(
                c,
                sums,
                siblings,
                proofs[i],
                i as nat,
                #[trigger] all[i],
                all[i + 1],
            ),
    ensures
        all[n as int].len() == all[0].len(),
    decreases n,
{
    if n > 0 {
        lemma_lens(c, sums, siblings, proofs, all, (n - 1) as nat);
        let i = n - 1;
        assert(round_shared(c, sums, siblings, proofs[i], i as nat, all[i], all[i + 1]));
    }
}

/// A group of rounds of all queries with shared paths: there is one row for each place that a query
/// falls into, each as long as the group folds; the rows are rows of the committed codeword; the row
/// of each query holds the query's entry, with the heights that enter, at the query's place; and each
/// next entry is what the row folds to.
pub open spec fn group_shared<F: MerkleField, EF: TwoAdicExtension<F>>(
    c: Iopp<F, EF>,
    sums: Seq<Seq<(usize, EF)>>,
    lf: nat,
    round: nat,
    root: Seq<F>,
    rows: Seq<Seq<EF>>,
    proof: mmcs::PrunedModel<F>,
    before: Seq<QueryState<EF>>,
    after: Seq<QueryState<EF>>,
) -> bool {
    let len = (c.num_vars() + c.log_blowup - round) as nat;
    let places = before.map_values(|s: QueryState<EF>| (s.query as nat / pow2(lf)) as usize);
    let unique = pruned::unique_indices(places);
    &&& after.len() == before.len()
    &&& rows.len() == unique.len()
    &&& forall|k: int| 0 <= k < rows.len() ==> (#[trigger] rows[k]).len() == pow2(lf)
    &&& F::accepts_pruned(
        c.rounds,
        root,
        seq![pow2((len - lf) as nat)],
        ext_mmcs::flattened_sets::<F, EF>(rows),
        proof,
    )
    &&& forall|q: int|
        0 <= q < before.len() ==> entry_shared(
            c,
            sums[q],
            lf,
            round,
            rows,
            unique,
            places[q],
            #[trigger] before[q],
            after[q],
        )
}

/// The row of one query in a group of rounds.
pub open spec fn entry_shared<F: MerkleField, EF: TwoAdicExtension<F>>(
    c: Iopp<F, EF>,
    sums: Seq<(usize, EF)>,
    lf: nat,
    round: nat,
    rows: Seq<Seq<EF>>,
    unique: Seq<usize>,
    place: usize,
    before: QueryState<EF>,
    after: QueryState<EF>,
) -> bool {
    exists|m: QueryState<EF>, k: int|
        {
            let len = (c.num_vars() + c.log_blowup - round) as nat;
            &&& 0 <= k < unique.len()
            &&& #[trigger] unique[k] == place
            &&& #[trigger] query_soundness::height_enters(
                sums,
                c.betas,
                (c.num_vars() + c.log_blowup - round) as nat,
                before,
                m,
            )
            &&& rows[k][(m.query as nat % pow2(lf)) as int] == m.folded
            &&& after.folded == fold::row_folded_all(
                rows[k],
                m.query as nat / pow2(lf),
                len,
                c.challenges.subrange(round as int, (round + lf) as int),
            )[0]
            &&& after.query == (m.query as nat / pow2(lf)) as usize
            &&& after.merges == m.merges
        }
}

proof fn lemma_groups_shared<F: MerkleField, EF: TwoAdicExtension<F>>(
    c: Iopp<F, EF>,
    sums: Seq<Seq<(usize, EF)>>,
    schedule: Seq<CommitGroup>,
    opened: Seq<Seq<Seq<EF>>>,
    proofs: Seq<mmcs::PrunedModel<F>>,
    states: Seq<QueryState<EF>>,
    g: nat,
) -> (all: Seq<Seq<QueryState<EF>>>)
    requires
        g <= schedule.len(),
        pruned_groups::pruned_groups(c, sums, schedule, opened, proofs, states, g) is Ok,
    ensures
        all.len() == schedule.len() + 1 - g,
        all[0] == states,
        all.last() == pruned_groups::pruned_groups(
            c,
            sums,
            schedule,
            opened,
            proofs,
            states,
            g,
        )->Ok_0,
        all.last().len() == states.len(),
        forall|i: int|
            0 <= i < all.len() - 1 ==> group_shared(
                c,
                sums,
                schedule[g + i].log_folding as nat,
                query::rounds_before(schedule, (g + i) as nat),
                c.oracles[g + i],
                opened[g + i],
                proofs[g + i],
                #[trigger] all[i],
                all[i + 1],
            ),
    decreases schedule.len() - g,
{
    if g >= schedule.len() {
        seq![states]
    } else {
        let lf = schedule[g as int].log_folding as nat;
        let round = query::rounds_before(schedule, g);
        let rows = opened[g as int];
        let len = c.log_len(round);
        let indices = pruned::row_indices(states, lf);
        let ms = pruned::all_merged(states, sums, c.betas, len);
        let next = Seq::new(
            states.len(),
            |q: int|
                query::row_stepped(
                    c,
                    ms[q],
                    pruned_groups::row_of_query(indices, rows, q),
                    round,
                    lf,
                ),
        );
        let rest = lemma_groups_shared(c, sums, schedule, opened, proofs, next, g + 1);
        assert(indices =~= states.map_values(
            |s: QueryState<EF>| (s.query as nat / pow2(lf)) as usize,
        ));
        pruned::law_unique_indices(indices);
        let unique = pruned::unique_indices(indices);
        assert forall|k: int| 0 <= k < rows.len() implies (#[trigger] rows[k]).len() == pow2(lf) by {}
        assert forall|q: int| 0 <= q < states.len() implies entry_shared(
            c,
            sums[q],
            lf,
            round,
            rows,
            unique,
            indices[q],
            #[trigger] states[q],
            next[q],
        ) by {
            assert(indices.contains(indices[q]));
            assert(unique.contains(indices[q]));
            let k = unique.index_of(indices[q]);
            assert(unique[k] == indices[q]);
            assert(!pruned_groups::entry_differs(
                ms[q],
                pruned_groups::row_of_query(indices, rows, q),
                lf,
            ));
            assert(query_soundness::height_enters(sums[q], c.betas, len, states[q], ms[q]));
        }
        assert(group_shared(
            c,
            sums,
            lf,
            round,
            c.oracles[g as int],
            rows,
            proofs[g as int],
            states,
            next,
        ));
        let all = seq![states] + rest;
        assert forall|i: int| 0 <= i < all.len() - 1 implies group_shared(
            c,
            sums,
            schedule[g + i].log_folding as nat,
            query::rounds_before(schedule, (g + i) as nat),
            c.oracles[g + i],
            opened[g + i],
            proofs[g + i],
            #[trigger] all[i],
            all[i + 1],
        ) by {
            if i > 0 {
                assert(all[i] == rest[i - 1]);
                assert(all[i + 1] == rest[i]);
            } else {
                assert(all[1] == rest[0]);
            }
        }
        all
    }
}

/// The groups of rounds of all queries with shared paths.
pub open spec fn groups_shared<F: MerkleField, EF: TwoAdicExtension<F>>(
    c: Iopp<F, EF>,
    sums: Seq<Seq<(usize, EF)>>,
    schedule: Seq<CommitGroup>,
    opened: CrossRoundPrunedOpenings<F, EF>,
    all: Seq<Seq<QueryState<EF>>>,
) -> bool {
    forall|g: int|
        0 <= g < all.len() - 1 ==> group_shared(
            c,
            sums,
            schedule[g].log_folding as nat,
            query::rounds_before(schedule, g as nat),
            c.oracles[g],
            mmcs::rows_of(opened.group_opened_rows@[g]@),
            opened.group_pruned@[g]@,
            #[trigger] all[g],
            all[g + 1],
        )
}

/// Law: accepted queries with shared paths that are opened by whole rows all pass every group of
/// rounds together, and each ends in the expected value or in the codeword of the final table.
pub proof fn law_accepted_pruned_groups<F: MerkleField, EF: TwoAdicExtension<F>>(
    c: Iopp<F, EF>,
    queries: Seq<usize>,
    sums: Seq<Seq<(usize, EF)>>,
    schedule: Seq<CommitGroup>,
    opened: CrossRoundPrunedOpenings<F, EF>,
)
    requires
        pruned_groups::pruned_groups_verdict(c, queries, sums, schedule, opened) is Ok,
    ensures
        exists|all: Seq<Seq<QueryState<EF>>>|
            {
                &&& #[trigger] groups_shared(c, sums, schedule, opened, all)
                &&& all.len() == schedule.len() + 1
                &&& all[0] == queries.map_values(
                    |q: usize|
                        QueryState {
                            folded: EF::zero_elem(),
                            merges: 0,
                            eq: EF::one_elem(),
                            query: q,
                        },
                )
                &&& all.last().len() == queries.len()
                &&& forall|q: int|
                    0 <= q < queries.len() ==> query_soundness::rest_checked(
                        c,
                        sums[q],
                        #[trigger] all.last()[q],
                        query::rounds_before(schedule, schedule.len()),
                    )
            },
{
    let rows = mmcs::row_sets_of(opened.group_opened_rows@);
    let proofs = pruned::proof_models(opened.group_pruned@);
    let start = pruned::all_started::<EF>(queries);
    let all = lemma_groups_shared(c, sums, schedule, rows, proofs, start, 0);
    assert forall|g: int| 0 <= g < all.len() - 1 implies group_shared(
        c,
        sums,
        schedule[g].log_folding as nat,
        query::rounds_before(schedule, g as nat),
        c.oracles[g],
        mmcs::rows_of(opened.group_opened_rows@[g]@),
        opened.group_pruned@[g]@,
        #[trigger] all[g],
        all[g + 1],
    ) by {
        assert(proofs[g] == opened.group_pruned@[g]@);
        assert(rows[g] == mmcs::rows_of(opened.group_opened_rows@[g]@));
    }
    assert(groups_shared(c, sums, schedule, opened, all));
    assert(all[0] =~= queries.map_values(
        |q: usize|
            QueryState { folded: EF::zero_elem(), merges: 0, eq: EF::one_elem(), query: q },
    ));
    let done = query::rounds_before(schedule, schedule.len());
    let states = all.last();
    assert forall|q: int| 0 <= q < queries.len() implies query_soundness::rest_checked(
        c,
        sums[q],
        #[trigger] all.last()[q],
        done,
    ) by {
        lemma_no_refusal(c, sums, states, done, 0, q);
        query_soundness::lemma_rest(c, sums[q], states[q], done);
    }
}

proof fn lemma_no_refusal<F: MerkleField, EF: TwoAdicExtension<F>>(
    c: Iopp<F, EF>,
    sums: Seq<Seq<(usize, EF)>>,
    states: Seq<QueryState<EF>>,
    start: nat,
    i: nat,
    q: int,
)
    requires
        pruned_groups::first_refusal(c, sums, states, start, i) is Ok,
        i <= q < states.len(),
    ensures
        query::finished(c, sums[q], states[q], start) is Ok,
    decreases q - i,
{
    if i < q {
        lemma_no_refusal(c, sums, states, start, i + 1, q);
    }
}

/// The opened rows of a batch are accepted against its root, and every query has a place among them.
pub open spec fn batch_shared<F: MerkleField>(
    pcs: BaseFoldPcs<F>,
    root: Seq<F>,
    heights: Seq<nat>,
    opened: PrunedQueryOpenings<F>,
    n: nat,
    b: int,
) -> bool {
    let slots = opened.query_to_unique_slot@[b]@;
    let rows = opened.round_opened_values@[b]@;
    &&& F::accepts_pruned(
        F::rounds_of(pcs.permutation),
        root,
        heights.map_values(|h: nat| h * pow2(pcs.fri.log_blowup as nat)),
        mmcs::row_sets_of(rows),
        opened.round_pruned@[b]@,
    )
    &&& slots.len() == n
    &&& forall|q: int| 0 <= q < n ==> (#[trigger] slots[q]) < rows.len()
}

/// The queries that a transcript gives, each of the given number of bits.
pub open spec fn drawn<F: MerkleField>(t: Transcript<F>, bits: nat, n: nat) -> Seq<usize> {
    Seq::new(
        n,
        |q: int| (t.sampled_n(q as nat).next().to_int() % pow2(bits) as int) as nat as usize,
    )
}

/// The combinations of the rows at the places of each query.
pub open spec fn sums_at_slots<F: MerkleField, EF: TwoAdicExtension<F>>(
    g: Seq<GroupModel<EF>>,
    opened: PrunedQueryOpenings<F>,
    batches: nat,
    queries: nat,
    log_blowup: nat,
) -> Seq<Seq<(usize, EF)>> {
    Seq::new(
        queries,
        |q: int|
            batch::leaf_sums(
                g,
                Seq::new(
                    batches,
                    |b: int|
                        mmcs::rows_of(
                            opened.round_opened_values@[b]@[opened.query_to_unique_slot@[b]@[q] as int]@,
                        ),
                ),
                log_blowup,
            ),
    )
}

/// Law: where an opening with shared paths is accepted, the opened rows of every batch are accepted
/// against the batch's root, every query has a place among them, and the queries that the transcript
/// gives pass the folded codewords with the combinations of the rows at their places.
pub proof fn law_accepted_pruned<F: MerkleField, EF: TwoAdicExtension<F>>(
    pcs: BaseFoldPcs<F>,
    roots: Seq<Seq<F>>,
    dims: Seq<Vec<Dimensions>>,
    point: Seq<EF>,
    values: Seq<Vec<Vec<EF>>>,
    p: BasefoldProof<F, EF>,
    t: Transcript<F>,
)
    requires
        pcs.verify_outcome(roots, dims, point, values, p, t).0 is Ok,
        p.query_openings.pruned is Some,
    ensures
        ({
            let s = pcs.rounds_end(dims, point, values, p, t);
            let c = pcs.checked_against(dims, point, p, s);
            let plan = pcs.plan_for(dims, point, values, p, t);
            let sizes = batch::size_heights(dims);
            let opened = p.query_openings.pruned->0;
            let n = pcs.fri.num_queries as nat;
            let lb = pcs.fri.log_blowup as nat;
            let queries = drawn(pcs.query_transcript(p, s), s.challenges.len() + lb, n);
            let sums = sums_at_slots(plan.groups, opened, sizes.len(), n, lb);
            &&& forall|b: int|
                0 <= b < sizes.len() ==> batch_shared(
                    pcs,
                    roots[b],
                    #[trigger] sizes[b],
                    opened,
                    n,
                    b,
                )
            &&& pcs.use_path_pruning || !pcs.use_cross_round
            &&& !pcs.use_cross_round ==> p.iopp_pruned is Some && pruned::pruned_verdict(
                c,
                queries,
                sums,
                p.iopp_pruned->0,
            ) is Ok
            &&& pcs.use_cross_round ==> p.iopp_cross_round_pruned is Some
                && pruned_groups::pruned_groups_verdict(
                c,
                queries,
                sums,
                plan.schedule,
                p.iopp_cross_round_pruned->0,
            ) is Ok
        }),
{
    soundness::lemma_accepted(pcs, roots, dims, point, values, p, t);
    let s = pcs.rounds_end(dims, point, values, p, t);
    let c = pcs.checked_against(dims, point, p, s);
    let plan = pcs.plan_for(dims, point, values, p, t);
    let sizes = batch::size_heights(dims);
    let heights = groups::group_heights(sizes, point.len() + 1);
    let opened = p.query_openings.pruned->0;
    let n = pcs.fri.num_queries as nat;
    let lb = pcs.fri.log_blowup as nat;
    let queries = pcs.query_transcript(p, s).next_bits_n(s.challenges.len() + lb, n);
    soundness::lemma_challenges(plan, pcs.batched_transcript(p, t));
    assert(pcs.modes_match(p));
    assert(pcs.queries_verdict(
        c,
        roots,
        sizes,
        plan.groups,
        pcs.stop(heights),
        plan.schedule,
        p,
        queries,
    ) is Ok);
    assert forall|b: int| 0 <= b < sizes.len() implies batch_shared(
        pcs,
        roots[b],
        #[trigger] sizes[b],
        opened,
        n,
        b,
    ) by {
        assert(verdict::input_accepted(c.rounds, lb, roots, sizes, n, opened, b));
        assert(batch::blown_up(sizes[b], lb) =~= sizes[b].map_values(
            |h: nat| h * pow2(pcs.fri.log_blowup as nat),
        ));
    }
    let sums = verdict::pruned_sums(plan.groups, opened, n, lb);
    let stated = sums_at_slots(plan.groups, opened, sizes.len(), n, lb);
    assert forall|q: int| 0 <= q < n implies sums[q] == stated[q] by {
        assert(verdict::rows_for_query(opened, q) =~= Seq::new(
            sizes.len(),
            |b: int|
                mmcs::rows_of(
                    opened.round_opened_values@[b]@[opened.query_to_unique_slot@[b]@[q] as int]@,
                ),
        ));
    }
    assert(sums =~= stated);
    assert(queries =~= drawn(pcs.query_transcript(p, s), s.challenges.len() + lb, n));
}

} // verus!
