//! What an accepted opening has been checked for after the rounds of its sumcheck, query by query.
use vstd::prelude::*;
use vstd::arithmetic::power2::*;
use crate::basefold::batch;
use crate::basefold::batch::GroupModel;
use crate::basefold::challenger::Transcript;
use crate::basefold::encode;
use crate::basefold::eqpoly;
use crate::basefold::ext_mmcs;
use crate::basefold::fold;
use crate::basefold::groups;
use crate::basefold::mmcs;
use crate::basefold::mmcs::{Dimensions, MerkleField};
use crate::basefold::openings::{
    BasefoldProof, BatchOpening, CommitPhaseProofStep, CrossRoundProofStep,
};
use crate::basefold::pcs::BaseFoldPcs;
use crate::basefold::query;
use crate::basefold::query::{Iopp, QueryState};
use crate::basefold::rounds;
use crate::basefold::schedule::CommitGroup;
use crate::basefold::soundness;
use crate::basefold::verdict;
use crate::bits;
use crate::field;
use crate::field::algebra;
use crate::field::{Field, TwoAdicExtension, TwoAdicField};

verus! {

/// The heights that enter before the round that folds codewords of length `2^log_len`: the entry of
/// the folded codeword becomes the opened combination where it is the first, and else the folded
/// entry, weighted with the equality since the last height, plus a challenge times the opened
/// combination.
pub open spec fn height_enters<EF: Field>(
    sums: Seq<(usize, EF)>,
    betas: Seq<EF>,
    log_len: nat,
    before: QueryState<EF>,
    after: QueryState<EF>,
) -> bool {
    let j = before.merges as int;
    &&& after.query == before.query
    &&& j < sums.len() && sums[j].0 == log_len && j == 0 ==> after.folded == sums[j].1 && after.merges
        == 1 && after.eq == before.eq
    &&& j < sums.len() && sums[j].0 == log_len && j > 0 ==> after.folded == before.eq.times(
        before.folded,
    ).plus(betas[j - 1].times(sums[j].1)) && after.merges == (j + 1) as usize && after.eq
        == EF::one_elem()
    &&& !(j < sums.len() && sums[j].0 == log_len) ==> after == before
}

/// `v` is the value at `r` of the line through `e0` at `x` and `e1` at `-x`.
pub open spec fn on_line<EF: Field>(e0: EF, e1: EF, x: EF, r: EF, v: EF) -> bool {
    exists|a: EF, b: EF|
        {
            &&& a.valid()
            &&& b.valid()
            &&& #[trigger] a.plus(b.times(x)) == e0
            &&& #[trigger] a.minus(b.times(x)) == e1
            &&& v == a.plus(b.times(r))
        }
}

/// The point of pair `j` of a codeword of length `2^log_len`.
pub open spec fn pair_point<EF: TwoAdicField>(log_len: nat, j: nat) -> EF {
    field::power(EF::generator_elem(log_len), bits::reversed(j, (log_len - 1) as nat))
}

pub proof fn lemma_line<EF: TwoAdicField>(e0: EF, e1: EF, log_len: nat, j: nat, r: EF)
    requires
        e0.valid(),
        e1.valid(),
        r.valid(),
        1 <= log_len <= EF::two_adicity(),
    ensures
        on_line(
            e0,
            e1,
            pair_point(log_len, j),
            r,
            fold::line_at(e0, e1, fold::point(log_len, j), r),
        ),
{
    broadcast use algebra::group_valid;

    let x: EF = fold::point(log_len, j);
    lemma_point_unit::<EF>(log_len, j);
    fold::lemma_denominator(x);
    let den = x.opposite().minus(x);
    let s = fold::slope(e0, e1, x);
    let a = e0.minus(s.times(x));
    // s (-x - x) = e1 - e0.
    algebra::lemma_unit(den);
    algebra::lemma_products(e1.minus(e0), field::inverse(den), den);
    let u = e1.minus(e0);
    algebra::lemma_products(u, u, u);
    assert(s.times(den) == u);
    let sx = s.times(x);
    algebra::lemma_opposites(e0, sx);
    assert(a.plus(sx) == e0);
    // a - s x = (e0 - s x) - s x = e0 + s (-x - x) = e1.
    algebra::lemma_products(s, x.opposite(), x);
    algebra::lemma_products(s, x, x);
    algebra::lemma_products(x, s, s);
    EF::law_plus(e0, sx, sx);
    EF::law_plus(x.opposite(), x, x);
    algebra::lemma_products(s, x.opposite(), x.opposite());
    assert(s.times(den) == sx.opposite().minus(sx)) by {
        algebra::lemma_products(s, x.opposite(), x.opposite());
        EF::law_plus(sx.opposite(), sx, sx);
    }
    EF::law_plus(a, sx, sx);
    EF::law_plus(e0, sx.opposite(), sx.opposite());
    EF::law_plus(sx.opposite(), sx, sx);
    assert(a.minus(sx) == e0.plus(u));
    EF::law_plus(e0, u, u);
    algebra::lemma_opposites(e1, e0);
    assert(e0.plus(u) == e1);
    assert(a.plus(s.times(x)) == e0);
    assert(a.minus(s.times(x)) == e1);
}

proof fn lemma_point_unit<EF: TwoAdicField>(log_len: nat, j: nat)
    requires
        log_len <= EF::two_adicity(),
    ensures
        fold::point::<EF>(log_len, j).valid(),
        field::is_unit(fold::point::<EF>(log_len, j)),
{
    EF::law_generator(log_len);
    algebra::lemma_generator_order::<EF>(log_len);
    lemma_pow2_pos(log_len);
    let g = EF::generator_elem(log_len);
    algebra::lemma_order_unit(g, pow2(log_len));
    let e = bits::reversed(j, (log_len - 1) as nat);
    algebra::lemma_power_valid(g, e);
    algebra::lemma_unit_power(g, e);
}

/// Round `r` of a query that is opened round by round: with the heights that enter, the entry and the
/// opened sibling form the pair of the query; the pair is a row of the committed codeword; and the
/// next entry lies on the line through the pair, at the round's challenge.
pub open spec fn round_opened<F: MerkleField, EF: TwoAdicExtension<F>>(
    c: Iopp<F, EF>,
    sums: Seq<(usize, EF)>,
    step: CommitPhaseProofStep<F, EF>,
    r: nat,
    before: QueryState<EF>,
    after: QueryState<EF>,
) -> bool {
    exists|m: QueryState<EF>|
        {
            let len = (c.num_vars() + c.log_blowup - r) as nat;
            let index = (m.query / 2) as nat;
            let pair = if m.query % 2 == 0 {
                seq![m.folded, step.sibling_value]
            } else {
                seq![step.sibling_value, m.folded]
            };
            &&& #[trigger] height_enters(
                sums,
                c.betas,
                (c.num_vars() + c.log_blowup - r) as nat,
                before,
                m,
            )
            &&& F::accepts(
                c.rounds,
                c.oracles[r as int],
                seq![pow2((len - 1) as nat)],
                index,
                seq![ext_mmcs::flattened::<F, EF>(pair)],
                mmcs::rows_of(step.opening_proof@),
            )
            &&& pair[0].valid() && pair[1].valid() && len <= EF::two_adicity() && len >= 1
                && c.challenges[r as int].valid() ==> on_line(
                pair[0],
                pair[1],
                pair_point(len, index),
                c.challenges[r as int],
                after.folded,
            )
            &&& after.query == m.query / 2
            &&& after.merges == m.merges
            &&& after.eq == m.eq.times(
                eqpoly::eq_factor(c.point[c.num_vars() - 1 - r], c.challenges[r as int]),
            )
        }
}

/// The rounds of a query.
pub open spec fn rounds_opened<F: MerkleField, EF: TwoAdicExtension<F>>(
    c: Iopp<F, EF>,
    sums: Seq<(usize, EF)>,
    openings: Seq<CommitPhaseProofStep<F, EF>>,
    states: Seq<QueryState<EF>>,
) -> bool {
    forall|r: int|
        0 <= r < states.len() - 1 ==> round_opened(
            c,
            sums,
            openings[r],
            r as nat,
            #[trigger] states[r],
            states[r + 1],
        )
}

proof fn lemma_rounds_opened<F: MerkleField, EF: TwoAdicExtension<F>>(
    c: Iopp<F, EF>,
    sums: Seq<(usize, EF)>,
    openings: Seq<CommitPhaseProofStep<F, EF>>,
    s: QueryState<EF>,
    round: nat,
) -> (states: Seq<QueryState<EF>>)
    requires
        query::committed_rounds(c, sums, openings, s, round) is Ok,
        round <= query::committed(c, openings.len()),
    ensures
        states.len() == query::committed(c, openings.len()) + 1 - round,
        states[0] == s,
        states.last() == query::committed_rounds(c, sums, openings, s, round)->Ok_0,
        forall|i: int|
            0 <= i < states.len() - 1 ==> round_opened(
                c,
                sums,
                openings[round + i],
                (round + i) as nat,
                #[trigger] states[i],
                states[i + 1],
            ),
    decreases query::committed(c, openings.len()) - round,
{
    if round >= query::committed(c, openings.len()) {
        seq![s]
    } else {
        let m = query::merged(s, sums, c.betas, c.log_len(round));
        let step = openings[round as int];
        let row = query::pair_row(m, step.sibling_value);
        let next = query::stepped(
            m,
            row,
            c.log_len(round),
            c.challenges[round as int],
            c.point[c.num_vars() - 1 - round],
        );
        let rest = lemma_rounds_opened(c, sums, openings, next, round + 1);
        let states = seq![s] + rest;
        assert(height_enters(sums, c.betas, c.log_len(round), s, m));
        let len = c.log_len(round);
        let index = (m.query / 2) as nat;
        if row[0].valid() && row[1].valid() && 1 <= len <= EF::two_adicity()
            && c.challenges[round as int].valid() {
            lemma_line(row[0], row[1], len, index, c.challenges[round as int]);
        }
        assert(round_opened(c, sums, step, round, s, next));
        assert forall|i: int| 0 <= i < states.len() - 1 implies round_opened(
            c,
            sums,
            openings[round + i],
            (round + i) as nat,
            #[trigger] states[i],
            states[i + 1],
        ) by {
            if i > 0 {
                assert(states[i] == rest[i - 1]);
                assert(states[i + 1] == rest[i]);
            } else {
                assert(states[1] == rest[0]);
            }
        }
        states
    }
}

/// The rest of a query: where rounds are left, its entry, with the heights that enter, is the entry of
/// the codeword of the final table; and the value that it folds to is the expected one.
pub open spec fn rest_checked<F: MerkleField, EF: TwoAdicExtension<F>>(
    c: Iopp<F, EF>,
    sums: Seq<(usize, EF)>,
    s: QueryState<EF>,
    start: nat,
) -> bool {
    &&& start >= c.num_vars() ==> s.folded == c.expected
    &&& start < c.num_vars() ==> {
        &&& c.final_codeword is Some
        &&& exists|m: QueryState<EF>|
            #[trigger] height_enters(
                sums,
                c.betas,
                (c.num_vars() + c.log_blowup - start) as nat,
                s,
                m,
            ) && m.folded == c.final_codeword->0[m.query as int]
        &&& c.final_codeword->0.len() == pow2((c.num_vars() + c.log_blowup - start) as nat)
            && s.query < c.final_codeword->0.len() ==> c.expected == folded_times(
            c.final_codeword->0,
            c.challenges.subrange(start as int, c.num_vars() as int),
        )[(s.query as nat / pow2((c.num_vars() - start) as nat)) as int]
    }
}

/// A codeword folded once with each challenge.
pub open spec fn folded_times<EF: TwoAdicField>(word: Seq<EF>, challenges: Seq<EF>) -> Seq<EF>
    decreases challenges.len(),
{
    if challenges.len() == 0 {
        word
    } else {
        folded_times(fold::folded(word, challenges[0]), challenges.drop_first())
    }
}

proof fn lemma_tail<F: MerkleField, EF: TwoAdicExtension<F>>(
    c: Iopp<F, EF>,
    sums: Seq<(usize, EF)>,
    s: QueryState<EF>,
    word: Seq<EF>,
    start: nat,
    round: nat,
)
    requires
        round < c.num_vars(),
        word.len() == pow2((c.num_vars() + c.log_blowup - round) as nat),
        s.query < word.len(),
        query::tail_rounds(c, sums, s, Some(word), start, round) is Ok,
    ensures
        query::tail_rounds(c, sums, s, Some(word), start, round)->Ok_0.folded == folded_times(
            word,
            c.challenges.subrange(round as int, c.num_vars() as int),
        )[(s.query as nat / pow2((c.num_vars() - round) as nat)) as int],
    decreases c.num_vars() - round,
{
    let n = c.num_vars();
    let len = c.log_len(round);
    let ch = c.challenges[round as int];
    let m = query::merged(s, sums, c.betas, len);
    let even = (m.query / 2) * 2;
    let next = query::stepped(
        m,
        seq![word[even], word[even + 1]],
        len,
        ch,
        c.point[n - 1 - round],
    );
    let cs = c.challenges.subrange(round as int, n as int);
    assert(cs.drop_first() =~= c.challenges.subrange((round + 1) as int, n as int));
    assert(cs[0] == ch);
    let w = fold::folded(word, ch);
    bits::lemma_log2_pow2(len);
    lemma_pow2_unfold(len);
    lemma2_to64();
    let k = s.query as nat / 2;
    assert(w.len() == pow2((len - 1) as nat));
    assert(w[k as int] == next.folded);
    assert(next.query == k);
    if round + 1 < n {
        lemma_tail(c, sums, next, w, start, round + 1);
        let d = (n - round) as nat;
        lemma_pow2_unfold(d);
        lemma_pow2_pos((d - 1) as nat);
        vstd::arithmetic::div_mod::lemma_div_denominator(
            s.query as int,
            2,
            pow2((d - 1) as nat) as int,
        );
    } else {
        reveal_with_fuel(folded_times, 2);
        assert(pow2(1) == 2);
    }
}

pub proof fn lemma_rest<F: MerkleField, EF: TwoAdicExtension<F>>(
    c: Iopp<F, EF>,
    sums: Seq<(usize, EF)>,
    s: QueryState<EF>,
    start: nat,
)
    requires
        query::finished(c, sums, s, start) is Ok,
    ensures
        rest_checked(c, sums, s, start),
{
    if start < c.num_vars() {
        let m = query::merged(s, sums, c.betas, c.log_len(start));
        assert(height_enters(sums, c.betas, c.log_len(start), s, m));
        let word = c.final_codeword->0;
        if word.len() == pow2((c.num_vars() + c.log_blowup - start) as nat) && s.query < word.len() {
            lemma_tail(c, sums, s, word, start, start);
        }
    }
}

/// Law: an accepted query that is opened round by round starts from the query itself, passes every
/// committed round, and ends in the expected value or in the codeword of the final table.
pub proof fn law_accepted_query<F: MerkleField, EF: TwoAdicExtension<F>>(
    c: Iopp<F, EF>,
    sums: Seq<(usize, EF)>,
    openings: Seq<CommitPhaseProofStep<F, EF>>,
    query: usize,
)
    requires
        query::query_verdict(c, sums, openings, query) is Ok,
    ensures
        exists|states: Seq<QueryState<EF>>|
            {
                &&& #[trigger] rounds_opened(c, sums, openings, states)
                &&& states.len() == least(openings.len(), least(c.oracles.len(), c.num_vars())) + 1
                &&& states[0] == (QueryState {
                    folded: EF::zero_elem(),
                    merges: 0,
                    eq: EF::one_elem(),
                    query,
                })
                &&& rest_checked(c, sums, states.last(), openings.len())
            },
{
    let s = query::started::<EF>(query);
    let states = lemma_rounds_opened(c, sums, openings, s, 0);
    assert(rounds_opened(c, sums, openings, states));
    lemma_rest(c, sums, states.last(), openings.len());
}

/// The smaller of two numbers.
pub open spec fn least(a: nat, b: nat) -> nat {
    if a <= b {
        a
    } else {
        b
    }
}

/// A group of rounds of a query that is opened by whole rows: the row has as many entries as the
/// group folds, it is a row of the committed codeword, it holds the query's entry at the query's
/// place, and the next entry is what the row folds to.
pub open spec fn group_opened<F: MerkleField, EF: TwoAdicExtension<F>>(
    c: Iopp<F, EF>,
    sums: Seq<(usize, EF)>,
    lf: nat,
    round: nat,
    root: Seq<F>,
    step: CrossRoundProofStep<F, EF>,
    before: QueryState<EF>,
    after: QueryState<EF>,
) -> bool {
    exists|m: QueryState<EF>|
        {
            let len = (c.num_vars() + c.log_blowup - round) as nat;
            let index = m.query as nat / pow2(lf);
            let row = step.row_values@;
            &&& #[trigger] height_enters(
                sums,
                c.betas,
                (c.num_vars() + c.log_blowup - round) as nat,
                before,
                m,
            )
            &&& row.len() == pow2(lf)
            &&& F::accepts(
                c.rounds,
                root,
                seq![pow2((len - lf) as nat)],
                index,
                seq![ext_mmcs::flattened::<F, EF>(row)],
                mmcs::rows_of(step.opening_proof@),
            )
            &&& row[(m.query as nat % pow2(lf)) as int] == m.folded
            &&& after.folded == fold::row_folded_all(
                row,
                index,
                len,
                c.challenges.subrange(round as int, (round + lf) as int),
            )[0]
            &&& after.query == index as usize
            &&& after.merges == m.merges
        }
}

proof fn lemma_groups_opened<F: MerkleField, EF: TwoAdicExtension<F>>(
    c: Iopp<F, EF>,
    sums: Seq<(usize, EF)>,
    schedule: Seq<CommitGroup>,
    openings: Seq<CrossRoundProofStep<F, EF>>,
    s: QueryState<EF>,
    g: nat,
) -> (states: Seq<QueryState<EF>>)
    requires
        query::group_rounds(c, sums, schedule, openings, s, g) is Ok,
        g <= schedule.len(),
    ensures
        states.len() == schedule.len() + 1 - g,
        states[0] == s,
        states.last() == query::group_rounds(c, sums, schedule, openings, s, g)->Ok_0,
        forall|i: int|
            0 <= i < states.len() - 1 ==> group_opened(
                c,
                sums,
                schedule[g + i].log_folding as nat,
                query::rounds_before(schedule, (g + i) as nat),
                c.oracles[g + i],
                openings[g + i],
                #[trigger] states[i],
                states[i + 1],
            ),
    decreases schedule.len() - g,
{
    if g >= schedule.len() {
        seq![s]
    } else {
        let lf = schedule[g as int].log_folding as nat;
        let step = openings[g as int];
        let round = query::rounds_before(schedule, g);
        let m = query::merged(s, sums, c.betas, c.log_len(round));
        let next = query::row_stepped(c, m, step.row_values@, round, lf);
        let rest = lemma_groups_opened(c, sums, schedule, openings, next, g + 1);
        let states = seq![s] + rest;
        assert(height_enters(sums, c.betas, c.log_len(round), s, m));
        assert(group_opened(c, sums, lf, round, c.oracles[g as int], step, s, next));
        assert forall|i: int| 0 <= i < states.len() - 1 implies group_opened(
            c,
            sums,
            schedule[g + i].log_folding as nat,
            query::rounds_before(schedule, (g + i) as nat),
            c.oracles[g + i],
            openings[g + i],
            #[trigger] states[i],
            states[i + 1],
        ) by {
            if i > 0 {
                assert(states[i] == rest[i - 1]);
                assert(states[i + 1] == rest[i]);
            } else {
                assert(states[1] == rest[0]);
            }
        }
        states
    }
}

/// The groups of rounds of a query.
pub open spec fn groups_opened<F: MerkleField, EF: TwoAdicExtension<F>>(
    c: Iopp<F, EF>,
    sums: Seq<(usize, EF)>,
    schedule: Seq<CommitGroup>,
    openings: Seq<CrossRoundProofStep<F, EF>>,
    states: Seq<QueryState<EF>>,
) -> bool {
    forall|g: int|
        0 <= g < states.len() - 1 ==> group_opened(
            c,
            sums,
            schedule[g].log_folding as nat,
            query::rounds_before(schedule, g as nat),
            c.oracles[g],
            openings[g],
            #[trigger] states[g],
            states[g + 1],
        )
}

/// Law: an accepted query that is opened by whole rows passes every group of rounds, and ends in the
/// expected value or in the codeword of the final table.
pub proof fn law_accepted_cross_round_query<F: MerkleField, EF: TwoAdicExtension<F>>(
    c: Iopp<F, EF>,
    sums: Seq<(usize, EF)>,
    schedule: Seq<CommitGroup>,
    openings: Seq<CrossRoundProofStep<F, EF>>,
    query: usize,
)
    requires
        query::cross_round_verdict(c, sums, schedule, openings, query) is Ok,
    ensures
        exists|states: Seq<QueryState<EF>>|
            {
                &&& #[trigger] groups_opened(c, sums, schedule, openings, states)
                &&& states.len() == schedule.len() + 1
                &&& states[0] == (QueryState {
                    folded: EF::zero_elem(),
                    merges: 0,
                    eq: EF::one_elem(),
                    query,
                })
                &&& rest_checked(
                    c,
                    sums,
                    states.last(),
                    query::rounds_before(schedule, schedule.len()),
                )
            },
{
    let s = query::started::<EF>(query);
    let states = lemma_groups_opened(c, sums, schedule, openings, s, 0);
    assert(groups_opened(c, sums, schedule, openings, states));
    lemma_rest(c, sums, states.last(), query::rounds_before(schedule, schedule.len()));
}

/// The opened rows of a batch are accepted for a query: as leaves of the batch's tree, at the place
/// that the query has among the rows of the tallest matrix.
pub open spec fn leaves_checked<F: MerkleField>(
    pcs: BaseFoldPcs<F>,
    num_vars: nat,
    root: Seq<F>,
    heights: Seq<nat>,
    opening: BatchOpening<F>,
    query: usize,
) -> bool {
    exists|top: int|
        #![trigger heights[top]]
        {
            &&& 0 <= top < heights.len()
            &&& forall|i: int|
                0 <= i < heights.len() ==> bits::log2(#[trigger] heights[i]) <= bits::log2(
                    heights[top],
                )
            &&& F::accepts(
                F::rounds_of(pcs.permutation),
                root,
                heights.map_values(|h: nat| h * pow2(pcs.fri.log_blowup as nat)),
                query as nat / pow2((num_vars - bits::log2(heights[top])) as nat),
                mmcs::rows_of(opening.opened_values@),
                mmcs::rows_of(opening.opening_proof@),
            )
            &&& opening.opened_values@.len() >= heights.len()
        }
}

proof fn lemma_top(heights: Seq<nat>) -> (top: int)
    requires
        heights.len() > 0,
    ensures
        0 <= top < heights.len(),
        bits::log2(heights[top]) == batch::max_log_height(heights) || batch::max_log_height(heights)
            == 0,
        forall|i: int|
            0 <= i < heights.len() ==> bits::log2(#[trigger] heights[i]) <= batch::max_log_height(
                heights,
            ),
    decreases heights.len(),
{
    let before = heights.drop_last();
    let l = heights.len() - 1;
    if before.len() == 0 {
        assert(batch::max_log_height(before) == 0);
        0
    } else {
        let t = lemma_top(before);
        assert forall|i: int| 0 <= i < heights.len() implies bits::log2(#[trigger] heights[i])
            <= batch::max_log_height(heights) by {
            if i < l {
                assert(before[i] == heights[i]);
            }
        }
        if bits::log2(heights.last()) > batch::max_log_height(before) {
            l
        } else {
            assert(before[t] == heights[t]);
            t
        }
    }
}

pub proof fn lemma_leaves<F: MerkleField>(
    pcs: BaseFoldPcs<F>,
    num_vars: nat,
    root: Seq<F>,
    heights: Seq<nat>,
    opening: BatchOpening<F>,
    query: usize,
)
    requires
        heights.len() > 0,
        batch::leaf_accepted(
            pcs.rounds(),
            pcs.fri.log_blowup as nat,
            num_vars,
            root,
            heights,
            opening,
            query as nat,
        ),
    ensures
        leaves_checked(pcs, num_vars, root, heights, opening, query),
{
    let top = lemma_top(heights);
    assert(bits::log2(heights[top]) <= batch::max_log_height(heights));
    assert(batch::blown_up(heights, pcs.fri.log_blowup as nat) =~= heights.map_values(
        |h: nat| h * pow2(pcs.fri.log_blowup as nat),
    ));
    assert(heights[top] == heights[top]);
}

impl<F: MerkleField> BaseFoldPcs<F> {
    /// What the queries of a proof are checked against, after the rounds left the state.
    pub open spec fn checked_against<EF: TwoAdicExtension<F>>(
        self,
        dims: Seq<Vec<Dimensions>>,
        point: Seq<EF>,
        p: BasefoldProof<F, EF>,
        s: rounds::RoundState<F, EF>,
    ) -> Iopp<F, EF> {
        let heights = groups::group_heights(batch::size_heights(dims), point.len() + 1);
        let low = heights.last() as int;
        Iopp {
            rounds: F::rounds_of(self.permutation),
            log_blowup: self.fri.log_blowup as nat,
            oracles: mmcs::rows_of(p.iopp_oracles@),
            challenges: s.challenges,
            betas: s.betas,
            point,
            expected: field::quotient(
                s.claim,
                eqpoly::eq_eval(point.take(low), s.challenges.reverse().take(low)),
            ),
            final_codeword: if self.fri.log_final_poly_len > 0 && low > 0 {
                Some(encode::encoded(p.final_poly@, self.fri.log_blowup as nat))
            } else {
                None
            },
        }
    }

    /// The transcript from which the queries are drawn.
    pub open spec fn query_transcript<EF: TwoAdicExtension<F>>(
        self,
        p: BasefoldProof<F, EF>,
        s: rounds::RoundState<F, EF>,
    ) -> Transcript<F> {
        s.transcript.observed(p.grinding_query_witness@[0]).observed(
            p.grinding_query_witness@[1],
        ).sampled()
    }
}

/// Law: where an opening is accepted, the equality that the last claim is divided by does not vanish;
/// the work before the batching challenge and that before the queries has been done; and where the
/// folding goes to the end, the last root is that of the constant codeword of the last claim over the
/// equality.
pub proof fn law_accepted_end<F: MerkleField, EF: TwoAdicExtension<F>>(
    pcs: BaseFoldPcs<F>,
    roots: Seq<Seq<F>>,
    dims: Seq<Vec<Dimensions>>,
    point: Seq<EF>,
    values: Seq<Vec<Vec<EF>>>,
    p: BasefoldProof<F, EF>,
    t: Transcript<F>,
)
    requires
        pcs.verify_outcome(roots, dims, point, values, p, t).0 is Ok,
    ensures
        ({
            let s = pcs.rounds_end(dims, point, values, p, t);
            let c = pcs.checked_against(dims, point, p, s);
            let heights = groups::group_heights(batch::size_heights(dims), point.len() + 1);
            let low = heights.last() as int;
            let lb = pcs.fri.log_blowup as nat;
            let before = t.sampled_ext::<EF>().observed(p.grinding_batching_witness@[0]);
            let end = s.transcript.observed(p.grinding_query_witness@[0]);
            &&& roots.len() == dims.len() && values.len() == dims.len()
            &&& heights.len() > 0 && heights[0] == point.len()
            &&& eqpoly::eq_eval(point.take(low), s.challenges.reverse().take(low))
                != EF::zero_elem()
            &&& before.observed(p.grinding_batching_witness@[1]).next().to_int() % pow2(
                pcs.fri.grinding_bits_batching as nat,
            ) as int == 0
            &&& end.observed(p.grinding_query_witness@[1]).next().to_int() % pow2(
                pcs.fri.grinding_bits_query as nat,
            ) as int == 0
            &&& c.final_codeword is None ==> c.oracles.len() > 0 && c.oracles.last() == F::root(
                F::rounds_of(pcs.permutation),
                seq![
                    ext_mmcs::ext_matrix::<F, EF>(Seq::new(pow2(lb), |i: int| c.expected), 2),
                ],
            )
            &&& c.final_codeword is Some ==> p.final_poly@.len() == pow2(
                least(pcs.fri.log_final_poly_len as nat, low as nat),
            )
            &&& pcs.verify_outcome(roots, dims, point, values, p, t).1 == pcs.query_transcript(
                p,
                s,
            ).sampled_n(pcs.fri.num_queries as nat)
        }),
{
    soundness::lemma_accepted(pcs, roots, dims, point, values, p, t);
    let s = pcs.rounds_end(dims, point, values, p, t);
    let end = s.transcript.observed(p.grinding_query_witness@[0]).observed(
        p.grinding_query_witness@[1],
    );
    let before = t.sampled_ext::<EF>().observed(p.grinding_batching_witness@[0]).observed(
        p.grinding_batching_witness@[1],
    );
    F::law_residues(end.next(), end.next());
    F::law_residues(before.next(), before.next());
    lemma_pow2_pos(pcs.fri.grinding_bits_query as nat);
    lemma_pow2_pos(pcs.fri.grinding_bits_batching as nat);
    vstd::arithmetic::div_mod::lemma_mod_bound(
        end.next().to_int(),
        pow2(pcs.fri.grinding_bits_query as nat) as int,
    );
    vstd::arithmetic::div_mod::lemma_mod_bound(
        before.next().to_int(),
        pow2(pcs.fri.grinding_bits_batching as nat) as int,
    );
}

/// A matrix is among the entries of the groups.
pub open spec fn in_group<EF>(g: Seq<GroupModel<EF>>, b: nat, m: nat) -> bool {
    exists|i: int, j: int|
        {
            &&& 0 <= i < g.len()
            &&& 0 <= j < g[i].entries.len()
            &&& (#[trigger] g[i].entries[j]).batch == b
            &&& g[i].entries[j].matrix == m
        }
}

pub proof fn lemma_in_group<EF: Field>(
    sizes: Seq<Seq<nat>>,
    values: Seq<Seq<Seq<EF>>>,
    alpha: EF,
    used: nat,
    end: nat,
    b: nat,
    m: nat,
)
    requires
        b < sizes.len(),
        m < sizes[b as int].len(),
        bits::log2(sizes[b as int][m as int]) < end,
    ensures
        in_group(groups::groups_below(sizes, values, alpha, used, end), b, m),
    decreases end,
{
    let k = (end - 1) as nat;
    let positions = groups::positions_at(sizes, k, sizes.len());
    crate::basefold::batching::lemma_positions_at(sizes, k, sizes.len());
    let g = groups::groups_below(sizes, values, alpha, used, end);
    if bits::log2(sizes[b as int][m as int]) == k {
        assert(positions.contains((b, m)));
        let j = choose|j: int| 0 <= j < positions.len() && positions[j] == (b, m);
        lemma_entry_at(positions, values, alpha, used, j);
        assert(g[0].entries == groups::entries_for(positions, values, alpha, used));
        assert(g[0].entries[j].batch == b);
    } else if positions.len() == 0 {
        lemma_in_group(sizes, values, alpha, used, k, b, m);
        assert(g == groups::groups_below(sizes, values, alpha, used, k));
    } else {
        let next = used + groups::columns_of(positions, values);
        lemma_in_group(sizes, values, alpha, next, k, b, m);
        let rest = groups::groups_below(sizes, values, alpha, next, k);
        let (i, j) = choose|i: int, j: int|
            {
                &&& 0 <= i < rest.len()
                &&& 0 <= j < rest[i].entries.len()
                &&& (#[trigger] rest[i].entries[j]).batch == b
                &&& rest[i].entries[j].matrix == m
            };
        assert(g[i + 1] == rest[i]);
        assert(g[i + 1].entries[j].batch == b);
    }
}

proof fn lemma_entry_at<EF: Field>(
    positions: Seq<(nat, nat)>,
    values: Seq<Seq<Seq<EF>>>,
    alpha: EF,
    used: nat,
    j: int,
)
    requires
        0 <= j < positions.len(),
    ensures
        groups::entries_for(positions, values, alpha, used).len() == positions.len(),
        groups::entries_for(positions, values, alpha, used)[j].batch == positions[j].0,
        groups::entries_for(positions, values, alpha, used)[j].matrix == positions[j].1,
    decreases positions.len(),
{
    let before = positions.drop_last();
    groups::lemma_entries_len(positions, values, alpha, used);
    groups::lemma_entries_len(before, values, alpha, used);
    if j < before.len() {
        lemma_entry_at(before, values, alpha, used, j);
    }
}

/// Law: where an opening is accepted whose queries are answered one by one, every one of the queries
/// that the transcript gives has been checked: the opened rows of every batch are leaves of the
/// batch's tree at the query's place, and the combinations of these rows pass the folded codewords,
/// round by round or group by group.
pub proof fn law_accepted_queries<F: MerkleField, EF: TwoAdicExtension<F>>(
    pcs: BaseFoldPcs<F>,
    roots: Seq<Seq<F>>,
    dims: Seq<Vec<Dimensions>>,
    point: Seq<EF>,
    values: Seq<Vec<Vec<EF>>>,
    p: BasefoldProof<F, EF>,
    t: Transcript<F>,
    q: int,
)
    requires
        pcs.verify_outcome(roots, dims, point, values, p, t).0 is Ok,
        p.query_openings.pruned is None,
        0 <= q < pcs.fri.num_queries,
        forall|b: int, m: int|
            0 <= b < dims.len() && 0 <= m < dims[b]@.len() ==> bits::log2(
                #[trigger] batch::size_heights(dims)[b][m],
            ) <= point.len(),
    ensures
        ({
            let s = pcs.rounds_end(dims, point, values, p, t);
            let c = pcs.checked_against(dims, point, p, s);
            let sizes = batch::size_heights(dims);
            let bits = (s.challenges.len() + pcs.fri.log_blowup) as nat;
            let query = (pcs.query_transcript(p, s).sampled_n(q as nat).next().to_int() % pow2(
                bits,
            ) as int) as nat as usize;
            let leaves = p.query_openings.per_query@[q]@;
            let sums = batch::leaf_sums(
                pcs.plan_for(dims, point, values, p, t).groups,
                batch::opening_rows(leaves),
                pcs.fri.log_blowup as nat,
            );
            &&& p.query_openings.per_query@.len() == pcs.fri.num_queries
            &&& forall|b: int|
                0 <= b < sizes.len() && sizes[b].len() > 0 ==> b < leaves.len() && leaves_checked(
                    pcs,
                    s.challenges.len(),
                    roots[b],
                    #[trigger] sizes[b],
                    leaves[b],
                    query,
                )
            &&& !pcs.use_cross_round ==> p.iopp_queries@.len() == pcs.fri.num_queries
                && query::query_verdict(
                c,
                sums,
                p.iopp_queries@[q].commit_phase_openings@,
                query,
            ) is Ok
            &&& pcs.use_cross_round ==> p.iopp_cross_round@.len() == pcs.fri.num_queries
                && query::cross_round_verdict(
                c,
                sums,
                pcs.plan_for(dims, point, values, p, t).schedule,
                p.iopp_cross_round@[q].group_openings@,
                query,
            ) is Ok
        }),
{
    soundness::lemma_accepted(pcs, roots, dims, point, values, p, t);
    let s = pcs.rounds_end(dims, point, values, p, t);
    let c = pcs.checked_against(dims, point, p, s);
    let plan = pcs.plan_for(dims, point, values, p, t);
    let sizes = batch::size_heights(dims);
    let heights = groups::group_heights(sizes, point.len() + 1);
    let lb = pcs.fri.log_blowup as nat;
    let n = s.challenges.len();
    let queries = pcs.query_transcript(p, s).next_bits_n(n + lb, pcs.fri.num_queries as nat);
    let leaves = p.query_openings.per_query@[q]@;
    assert(pcs.modes_match(p));
    assert(plan.schedule == pcs.schedule_of(heights, point.len(), p));
    soundness::lemma_challenges(plan, pcs.batched_transcript(p, t));
    assert(n == point.len());
    assert(pcs.queries_verdict(
        c,
        roots,
        sizes,
        plan.groups,
        pcs.stop(heights),
        plan.schedule,
        p,
        queries,
    ) is Ok);
    assert(queries.len() == pcs.fri.num_queries);
    if pcs.use_cross_round {
        assert(verdict::cross_verdict_at(
            c,
            roots,
            sizes,
            plan.groups,
            plan.schedule,
            p,
            queries,
            q,
        ) is Ok);
    } else {
        assert(verdict::batch_verdict_at(c, roots, sizes, plan.groups, p, queries, q) is Ok);
    }
    let rows = batch::opening_rows(leaves);
    assert(batch::rows_fit(plan.groups, rows));
    assert forall|b: int| 0 <= b < sizes.len() && sizes[b].len() > 0 implies b < leaves.len()
        && leaves_checked(
        pcs,
        s.challenges.len(),
        roots[b],
        #[trigger] sizes[b],
        leaves[b],
        queries[q],
    ) by {
        assert(dims[b]@.len() == sizes[b].len());
        assert(bits::log2(sizes[b][0]) <= point.len());
        let vals = mmcs::row_sets_of(values);
        let alpha = t.next_ext::<EF>();
        lemma_in_group(sizes, vals, alpha, 0, (point.len() + 1) as nat, b as nat, 0);
        let g = plan.groups;
        let (i, j) = choose|i: int, j: int|
            {
                &&& 0 <= i < g.len()
                &&& 0 <= j < g[i].entries.len()
                &&& (#[trigger] g[i].entries[j]).batch == b
                &&& g[i].entries[j].matrix == 0
            };
        assert(batch::entry_fits(g[i].entries[j], rows));
        assert(batch::leaf_accepted(
            c.rounds,
            c.log_blowup,
            c.num_vars(),
            roots[b],
            sizes[b],
            leaves[b],
            queries[q] as nat,
        ));
        lemma_leaves(pcs, n, roots[b], sizes[b], leaves[b], queries[q]);
    }
}

} // verus!
