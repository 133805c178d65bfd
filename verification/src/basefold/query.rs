//! The checks of one query against the folded codewords.
use vstd::prelude::*;
use vstd::arithmetic::power2::*;
use crate::basefold::challenger::copy_elements;
use crate::basefold::eqpoly;
use crate::basefold::ext_mmcs;
use crate::basefold::ext_mmcs::verify_row;
use crate::basefold::fold;
use crate::basefold::fold::{fold_codeword, fold_pair, fold_row_cross_round};
use crate::basefold::mmcs;
use crate::basefold::mmcs::MerkleField;
use crate::basefold::openings::{
    BaseFoldError, CommitPhaseProofStep, CrossRoundProofStep, CrossRoundQueryProof, QueryProof,
};
use crate::basefold::pcs::BaseFoldPcs;
use crate::basefold::poseidon::Rounds;
use crate::basefold::schedule::CommitGroup;
use crate::bits;
use crate::field;
use crate::field::algebra;
use crate::field::{Field, TwoAdicExtension, TwoAdicField};

verus! {

/// What all queries are checked against.
#[verifier::ext_equal]
pub struct Iopp<F, EF> {
    pub rounds: Rounds<F>,
    pub log_blowup: nat,
    /// The roots of the folded codewords.
    pub oracles: Seq<Seq<F>>,
    /// The folding challenges.
    pub challenges: Seq<EF>,
    /// The merge challenges.
    pub betas: Seq<EF>,
    /// The opening point.
    pub point: Seq<EF>,
    /// The value that every query folds to.
    pub expected: EF,
    /// The codeword of the table that remains where the folding stops early.
    pub final_codeword: Option<Seq<EF>>,
}

impl<F: MerkleField, EF: TwoAdicExtension<F>> Iopp<F, EF> {
    pub open spec fn num_vars(self) -> nat {
        self.challenges.len()
    }

    /// The logarithm of the length of the codeword that round `round` folds.
    pub open spec fn log_len(self, round: nat) -> nat {
        (self.num_vars() + self.log_blowup - round) as nat
    }

    pub open spec fn wf(self) -> bool {
        &&& self.num_vars() + self.log_blowup <= EF::two_adicity()
        &&& self.num_vars() + self.log_blowup < usize::BITS
        &&& self.point.len() >= self.num_vars()
        &&& mmcs::are_digests(self.oracles)
        &&& field::all_valid(self.challenges)
        &&& (self.final_codeword matches Some(c) ==> {
            &&& field::all_valid(c)
            &&& bits::power_of_two(c.len())
            &&& bits::log2(c.len()) <= EF::two_adicity()
        })
    }
}

/// The linear combinations of the opened rows: for each height, from the greatest down, the
/// logarithm of the length of its codewords and the combination.
pub open spec fn sums_wf<EF: Field>(sums: Seq<(usize, EF)>, betas: Seq<EF>) -> bool {
    &&& sums.len() <= betas.len() + 1
    &&& forall|i: int| 0 <= i < sums.len() ==> (#[trigger] sums[i]).1.valid()
}

/// The state of a query.
#[derive(Debug, Clone, Copy)]
pub struct QueryState<EF> {
    /// The entry of the folded codeword at the query.
    pub folded: EF,
    /// The number of heights that were merged.
    pub merges: usize,
    /// The value of the equality polynomial since the last merge.
    pub eq: EF,
    /// The position of the query in the folded codeword.
    pub query: usize,
}

pub open spec fn started<EF: Field>(query: usize) -> QueryState<EF> {
    QueryState { folded: EF::zero_elem(), merges: 0, eq: EF::one_elem(), query }
}

/// The state after the height whose codewords have length `2^log_len` was merged, where there is
/// one.
pub open spec fn merged<EF: Field>(
    s: QueryState<EF>,
    sums: Seq<(usize, EF)>,
    betas: Seq<EF>,
    log_len: nat,
) -> QueryState<EF> {
    if s.merges < sums.len() && sums[s.merges as int].0 == log_len {
        let sum = sums[s.merges as int].1;
        if s.merges == 0 {
            QueryState { folded: sum, merges: 1, ..s }
        } else {
            QueryState {
                folded: s.eq.times(s.folded).plus(betas[s.merges - 1].times(sum)),
                merges: (s.merges + 1) as usize,
                eq: EF::one_elem(),
                query: s.query,
            }
        }
    } else {
        s
    }
}

/// The pair of codeword entries of a query.
pub open spec fn pair_row<EF: Field>(s: QueryState<EF>, sibling: EF) -> Seq<EF> {
    if s.query % 2 == 0 {
        seq![s.folded, sibling]
    } else {
        seq![sibling, s.folded]
    }
}

/// The state after the pair of the query in a codeword of length `2^log_len` was folded.
pub open spec fn stepped<EF: TwoAdicField>(
    s: QueryState<EF>,
    row: Seq<EF>,
    log_len: nat,
    challenge: EF,
    coordinate: EF,
) -> QueryState<EF> {
    QueryState {
        folded: fold::line_at(
            row[0],
            row[1],
            fold::point(log_len, s.query as nat / 2),
            challenge,
        ),
        merges: s.merges,
        eq: s.eq.times(eqpoly::eq_factor(coordinate, challenge)),
        query: (s.query / 2) as usize,
    }
}

/// The number of rounds that are checked against Merkle roots.
pub open spec fn committed<F: MerkleField, EF: TwoAdicExtension<F>>(
    c: Iopp<F, EF>,
    openings: nat,
) -> nat {
    let m = if c.oracles.len() <= c.num_vars() {
        c.oracles.len()
    } else {
        c.num_vars()
    };
    if openings <= m {
        openings
    } else {
        m
    }
}

/// The rounds from `round` on that are checked against Merkle roots.
pub open spec fn committed_rounds<F: MerkleField, EF: TwoAdicExtension<F>>(
    c: Iopp<F, EF>,
    sums: Seq<(usize, EF)>,
    openings: Seq<CommitPhaseProofStep<F, EF>>,
    s: QueryState<EF>,
    round: nat,
) -> Result<QueryState<EF>, BaseFoldError>
    decreases committed(c, openings.len()) - round,
{
    if round >= committed(c, openings.len()) {
        Ok(s)
    } else {
        let m = merged(s, sums, c.betas, c.log_len(round));
        let step = openings[round as int];
        let row = pair_row(m, step.sibling_value);
        if !ext_mmcs::accepts_row::<F, EF>(
            c.rounds,
            c.oracles[round as int],
            pow2((c.log_len(round) - 1) as nat),
            m.query as nat / 2,
            row,
            mmcs::rows_of(step.opening_proof@),
        ) {
            Err(BaseFoldError::CommitPhaseMmcsError)
        } else {
            committed_rounds(
                c,
                sums,
                openings,
                stepped(
                    m,
                    row,
                    c.log_len(round),
                    c.challenges[round as int],
                    c.point[c.num_vars() - 1 - round],
                ),
                round + 1,
            )
        }
    }
}

/// The rounds from `round` on, the first of which is `start`, that fold the codeword of the final
/// table.
pub open spec fn tail_rounds<F: MerkleField, EF: TwoAdicExtension<F>>(
    c: Iopp<F, EF>,
    sums: Seq<(usize, EF)>,
    s: QueryState<EF>,
    codeword: Option<Seq<EF>>,
    start: nat,
    round: nat,
) -> Result<QueryState<EF>, BaseFoldError>
    decreases c.num_vars() - round,
{
    if round >= c.num_vars() {
        Ok(s)
    } else {
        let m = merged(s, sums, c.betas, c.log_len(round));
        match codeword {
            None => Err(BaseFoldError::FriFinalStepMisMatch),
            Some(word) => {
                let even = (m.query / 2) * 2;
                if round == start && m.folded != word[m.query as int] {
                    Err(BaseFoldError::FriFinalStepMisMatch)
                } else {
                    tail_rounds(
                        c,
                        sums,
                        stepped(
                            m,
                            seq![word[even], word[even + 1]],
                            c.log_len(round),
                            c.challenges[round as int],
                            c.point[c.num_vars() - 1 - round],
                        ),
                        Some(fold::folded(word, c.challenges[round as int])),
                        start,
                        round + 1,
                    )
                }
            },
        }
    }
}

/// The rounds from `start` on that fold the codeword of the final table, and the final value.
pub open spec fn finished<F: MerkleField, EF: TwoAdicExtension<F>>(
    c: Iopp<F, EF>,
    sums: Seq<(usize, EF)>,
    s: QueryState<EF>,
    start: nat,
) -> Result<(), BaseFoldError> {
    match tail_rounds(c, sums, s, c.final_codeword, start, start) {
        Err(e) => Err(e),
        Ok(t) => if t.folded != c.expected {
            Err(BaseFoldError::FinalPolyMismatch)
        } else {
            Ok(())
        },
    }
}

/// The verdict on a query that is opened round by round.
pub open spec fn query_verdict<F: MerkleField, EF: TwoAdicExtension<F>>(
    c: Iopp<F, EF>,
    sums: Seq<(usize, EF)>,
    openings: Seq<CommitPhaseProofStep<F, EF>>,
    query: usize,
) -> Result<(), BaseFoldError> {
    match committed_rounds(c, sums, openings, started(query), 0) {
        Err(e) => Err(e),
        Ok(s) => finished(c, sums, s, openings.len()),
    }
}

/// The state after the row of a group of rounds was folded.
pub open spec fn row_stepped<F: MerkleField, EF: TwoAdicExtension<F>>(
    c: Iopp<F, EF>,
    s: QueryState<EF>,
    row: Seq<EF>,
    round: nat,
    log_folding: nat,
) -> QueryState<EF> {
    let index = s.query as nat / pow2(log_folding);
    QueryState {
        folded: fold::row_folded_all(
            row,
            index,
            c.log_len(round),
            c.challenges.subrange(round as int, (round + log_folding) as int),
        )[0],
        merges: s.merges,
        eq: eq_stepped(c, s.eq, round, log_folding),
        query: index as usize,
    }
}

/// The value of the equality polynomial after `n` rounds from `round` on.
pub open spec fn eq_stepped<F: MerkleField, EF: TwoAdicExtension<F>>(
    c: Iopp<F, EF>,
    eq: EF,
    round: nat,
    n: nat,
) -> EF
    decreases n,
{
    if n == 0 {
        eq
    } else {
        eq_stepped(c, eq, round, (n - 1) as nat).times(
            eqpoly::eq_factor(
                c.point[c.num_vars() - 1 - (round + n - 1)],
                c.challenges[round + n - 1],
            ),
        )
    }
}

/// The number of rounds of the first `g` groups.
pub open spec fn rounds_before(schedule: Seq<CommitGroup>, g: nat) -> nat
    decreases g,
{
    if g == 0 {
        0
    } else {
        rounds_before(schedule, (g - 1) as nat) + schedule[g - 1].log_folding as nat
    }
}

/// The groups from `g` on.
pub open spec fn group_rounds<F: MerkleField, EF: TwoAdicExtension<F>>(
    c: Iopp<F, EF>,
    sums: Seq<(usize, EF)>,
    schedule: Seq<CommitGroup>,
    openings: Seq<CrossRoundProofStep<F, EF>>,
    s: QueryState<EF>,
    g: nat,
) -> Result<QueryState<EF>, BaseFoldError>
    decreases schedule.len() - g,
{
    if g >= schedule.len() {
        Ok(s)
    } else {
        let lf = schedule[g as int].log_folding as nat;
        let step = openings[g as int];
        let round = rounds_before(schedule, g);
        if step.row_values@.len() != pow2(lf) {
            Err(BaseFoldError::InvalidInputError)
        } else {
            let m = merged(s, sums, c.betas, c.log_len(round));
            if !ext_mmcs::accepts_row::<F, EF>(
                c.rounds,
                c.oracles[g as int],
                pow2((c.log_len(round) - lf) as nat),
                m.query as nat / pow2(lf),
                step.row_values@,
                mmcs::rows_of(step.opening_proof@),
            ) {
                Err(BaseFoldError::CommitPhaseMmcsError)
            } else if m.folded != step.row_values@[(m.query as nat % pow2(lf)) as int] {
                Err(BaseFoldError::FriFinalStepMisMatch)
            } else {
                group_rounds(
                    c,
                    sums,
                    schedule,
                    openings,
                    row_stepped(c, m, step.row_values@, round, lf),
                    g + 1,
                )
            }
        }
    }
}

/// The verdict on a query that is opened group by group.
pub open spec fn cross_round_verdict<F: MerkleField, EF: TwoAdicExtension<F>>(
    c: Iopp<F, EF>,
    sums: Seq<(usize, EF)>,
    schedule: Seq<CommitGroup>,
    openings: Seq<CrossRoundProofStep<F, EF>>,
    query: usize,
) -> Result<(), BaseFoldError> {
    match group_rounds(c, sums, schedule, openings, started(query), 0) {
        Err(e) => Err(e),
        Ok(s) => finished(c, sums, s, rounds_before(schedule, schedule.len())),
    }
}

/// Merges the height whose codewords have length `2^log_len`, where there is one.
pub(crate) fn merge_height<EF: Field>(
    s: QueryState<EF>,
    sums: &Vec<(usize, EF)>,
    betas: &Vec<EF>,
    log_len: usize,
) -> (r: QueryState<EF>)
    requires
        sums@.len() <= betas@.len() + 1,
    ensures
        r == merged(s, sums@, betas@, log_len as nat),
        r.query == s.query,
        s.merges <= sums@.len() ==> r.merges <= sums@.len(),
{
    if s.merges < sums.len() {
        let (height, sum) = sums[s.merges];
        if height == log_len {
            if s.merges == 0 {
                return QueryState { folded: sum, merges: 1, eq: s.eq, query: s.query };
            }
            let folded: EF = s.eq.mul(s.folded).add(betas[s.merges - 1].mul(sum));
            return QueryState { folded, merges: s.merges + 1, eq: EF::one(), query: s.query };
        }
    }
    s
}

/// Folds the pair of the query.
pub(crate) fn step_query<EF: TwoAdicField>(
    s: QueryState<EF>,
    row: &Vec<EF>,
    log_len: usize,
    challenge: EF,
    coordinate: EF,
) -> (r: QueryState<EF>)
    requires
        row@.len() == 2,
        0 < log_len <= EF::two_adicity(),
        log_len <= usize::BITS,
    ensures
        r == stepped(s, row@, log_len as nat, challenge, coordinate),
{
    let folded: EF = fold_pair(row[0], row[1], s.query / 2, log_len - 1, challenge);
    let one: EF = EF::one();
    let factor: EF = coordinate.mul(challenge).add(one.sub(coordinate).mul(one.sub(challenge)));
    QueryState { folded, merges: s.merges, eq: s.eq.mul(factor), query: s.query / 2 }
}

/// The states of a query hold canonical elements.
pub proof fn lemma_stepped_valid<EF: TwoAdicField>(
    s: QueryState<EF>,
    row: Seq<EF>,
    log_len: nat,
    challenge: EF,
    coordinate: EF,
)
    ensures
        stepped(s, row, log_len, challenge, coordinate).folded.valid(),
{
    broadcast use algebra::group_valid;

}

pub proof fn lemma_merged_valid<EF: Field>(
    s: QueryState<EF>,
    sums: Seq<(usize, EF)>,
    betas: Seq<EF>,
    log_len: nat,
)
    requires
        sums_wf(sums, betas),
        s.folded.valid(),
    ensures
        merged(s, sums, betas, log_len).folded.valid(),
{
    broadcast use algebra::group_valid;

    if s.merges < sums.len() {
        assert(sums[s.merges as int].1.valid());
    }
}

/// Halving keeps a position below half the length.
pub proof fn lemma_halved(query: nat, log_len: nat)
    requires
        log_len > 0,
        query < pow2(log_len),
    ensures
        query / 2 < pow2((log_len - 1) as nat),
{
    lemma_pow2_unfold(log_len);
}

/// The shift of a position stays below the shifted length.
pub proof fn lemma_shifted(query: nat, log_len: nat, shift: nat)
    requires
        shift <= log_len,
        query < pow2(log_len),
    ensures
        query / pow2(shift) < pow2((log_len - shift) as nat),
        query % pow2(shift) < pow2(shift),
{
    lemma_pow2_adds(shift, (log_len - shift) as nat);
    lemma_pow2_pos(shift);
    vstd::arithmetic::div_mod::lemma_multiply_divide_lt(
        query as int,
        pow2(shift) as int,
        pow2((log_len - shift) as nat) as int,
    );
    vstd::arithmetic::mul::lemma_mul_is_commutative(
        pow2(shift) as int,
        pow2((log_len - shift) as nat) as int,
    );
    vstd::arithmetic::div_mod::lemma_mod_bound(query as int, pow2(shift) as int);
}

/// What the tail needs: there is no codeword, or the query lies in it and it is long enough for
/// the rounds that are left.
pub open spec fn tail_fits<F: MerkleField, EF: TwoAdicExtension<F>>(
    c: Iopp<F, EF>,
    query: nat,
    start: nat,
) -> bool {
    c.final_codeword matches Some(word) ==> start < c.num_vars() ==> {
        &&& query < word.len()
        &&& bits::log2(word.len()) >= c.num_vars() - start
    }
}

/// Folds a query from round `start` on, where the codeword of the final table is folded.
pub(crate) fn tail_query<F: MerkleField, EF: TwoAdicExtension<F>>(
    Ghost(c): Ghost<Iopp<F, EF>>,
    log_blowup: usize,
    sums: &Vec<(usize, EF)>,
    challenges: &Vec<EF>,
    betas: &Vec<EF>,
    point: &Vec<EF>,
    final_codeword: &Option<Vec<EF>>,
    state: QueryState<EF>,
    start: usize,
) -> (r: Result<QueryState<EF>, BaseFoldError>)
    requires
        c.wf(),
        c.log_blowup == log_blowup,
        c.challenges == challenges@,
        c.betas == betas@,
        c.point == point@,
        final_codeword is Some <==> c.final_codeword is Some,
        final_codeword matches Some(v) ==> c.final_codeword == Some(v@),
        sums_wf(sums@, betas@),
        tail_fits(c, state.query as nat, start as nat),
    ensures
        r == tail_rounds(c, sums@, state, c.final_codeword, start as nat, start as nat),
        r is Err ==> r == Err::<QueryState<EF>, BaseFoldError>(BaseFoldError::FriFinalStepMisMatch),
{
    let num_vars: usize = challenges.len();
    let mut s: QueryState<EF> = state;
    let mut round: usize = start;
    let mut word: Vec<EF> = match final_codeword {
        Some(v) => copy_elements(v),
        None => Vec::new(),
    };
    let has_word: bool = final_codeword.is_some();
    let ghost goal = tail_rounds(c, sums@, state, c.final_codeword, start as nat, start as nat);
    while round < num_vars
        invariant
            c.wf(),
            c.log_blowup == log_blowup,
            c.challenges == challenges@,
            c.betas == betas@,
            c.point == point@,
            sums_wf(sums@, betas@),
            num_vars == challenges@.len(),
            start <= round,
            goal == tail_rounds(
                c,
                sums@,
                s,
                if has_word {
                    Some(word@)
                } else {
                    None
                },
                start as nat,
                round as nat,
            ),
            goal == tail_rounds(c, sums@, state, c.final_codeword, start as nat, start as nat),
            has_word && round < num_vars ==> {
                &&& field::all_valid(word@)
                &&& bits::power_of_two(word@.len())
                &&& bits::log2(word@.len()) <= EF::two_adicity()
                &&& bits::log2(word@.len()) >= num_vars - round
                &&& s.query < word@.len()
            },
        decreases num_vars - round,
    {
        let log_len: usize = num_vars + log_blowup - round;
        let m: QueryState<EF> = merge_height(s, sums, betas, log_len);
        if !has_word {
            return Err(BaseFoldError::FriFinalStepMisMatch);
        }
        let even: usize = (m.query / 2) * 2;
        proof {
            let k = bits::log2(word@.len());
            lemma_pow2_unfold(k);
            lemma_pow2_pos((k - 1) as nat);
            bits::lemma_log2_pow2((k - 1) as nat);
            assert(even + 1 < word@.len());
        }
        if round == start && !m.folded.is_equal(&word[m.query]) {
            return Err(BaseFoldError::FriFinalStepMisMatch);
        }
        let row: Vec<EF> = vec![word[even], word[even + 1]];
        proof {
            assert(row@ =~= seq![word@[even as int], word@[even + 1]]);
            assert(c.challenges[round as int].valid());
        }
        s = step_query(m, &row, log_len, challenges[round], point[num_vars - 1 - round]);
        let next: Vec<EF> = fold_codeword(word.as_slice(), challenges[round]);
        proof {
            broadcast use algebra::group_valid;

            assert forall|j: int| 0 <= j < next@.len() implies (#[trigger] next@[j]).valid() by {
                lemma_stepped_valid(
                    m,
                    seq![word@[2 * j], word@[2 * j + 1]],
                    bits::log2(word@.len()),
                    challenges@[round as int],
                    EF::one_elem(),
                );
            }
        }
        word = next;
        round += 1;
    }
    Ok(s)
}

/// Checks a query from round `start` on, where the codeword of the final table is folded, and its
/// final value.
pub(crate) fn finish_query<F: MerkleField, EF: TwoAdicExtension<F>>(
    Ghost(c): Ghost<Iopp<F, EF>>,
    log_blowup: usize,
    sums: &Vec<(usize, EF)>,
    challenges: &Vec<EF>,
    betas: &Vec<EF>,
    point: &Vec<EF>,
    expected: &EF,
    final_codeword: &Option<Vec<EF>>,
    state: QueryState<EF>,
    start: usize,
) -> (r: Result<(), BaseFoldError>)
    requires
        c.wf(),
        c.log_blowup == log_blowup,
        c.challenges == challenges@,
        c.betas == betas@,
        c.point == point@,
        c.expected == *expected,
        final_codeword is Some <==> c.final_codeword is Some,
        final_codeword matches Some(v) ==> c.final_codeword == Some(v@),
        sums_wf(sums@, betas@),
        tail_fits(c, state.query as nat, start as nat),
    ensures
        r == finished(c, sums@, state, start as nat),
{
    match tail_query(
        Ghost(c),
        log_blowup,
        sums,
        challenges,
        betas,
        point,
        final_codeword,
        state,
        start,
    ) {
        Err(e) => Err(e),
        Ok(s) => {
            if !s.folded.is_equal(expected) {
                Err(BaseFoldError::FinalPolyMismatch)
            } else {
                Ok(())
            }
        },
    }
}

/// The openings of a query hold digests and canonical elements.
pub open spec fn steps_wf<F: MerkleField, EF: Field>(
    openings: Seq<CommitPhaseProofStep<F, EF>>,
) -> bool {
    forall|i: int|
        0 <= i < openings.len() ==> (#[trigger] openings[i]).sibling_value.valid()
            && mmcs::are_digests(mmcs::rows_of(openings[i].opening_proof@))
}

/// The openings of a query hold digests and canonical elements.
pub open spec fn group_steps_wf<F: MerkleField, EF: Field>(
    openings: Seq<CrossRoundProofStep<F, EF>>,
) -> bool {
    forall|i: int|
        0 <= i < openings.len() ==> field::all_valid((#[trigger] openings[i]).row_values@)
            && mmcs::are_digests(mmcs::rows_of(openings[i].opening_proof@))
}

/// The groups cover at most `num_vars` rounds, and each covers at least one.
pub open spec fn schedule_fits(schedule: Seq<CommitGroup>, num_vars: nat) -> bool {
    &&& forall|g: int| 0 <= g < schedule.len() ==> (#[trigger] schedule[g]).log_folding > 0
    &&& rounds_before(schedule, schedule.len()) <= num_vars
}

pub proof fn lemma_rounds_before(schedule: Seq<CommitGroup>, a: nat, b: nat)
    requires
        a <= b <= schedule.len(),
    ensures
        rounds_before(schedule, a) <= rounds_before(schedule, b),
    decreases b,
{
    if a < b {
        lemma_rounds_before(schedule, a, (b - 1) as nat);
    }
}

impl<F: MerkleField> BaseFoldPcs<F> {
    /// Checks a query that is opened round by round: merges each height where it enters, checks
    /// the opening of the pair of codeword entries, and folds the pair.
    pub fn verify_iopp_query_basefold<EF: TwoAdicExtension<F>>(
        &self,
        iopp_commitments: &Vec<Vec<F>>,
        query_point: usize,
        leaf_sums: &Vec<(usize, EF)>,
        query_proof: &QueryProof<F, EF>,
        folding_challenges: &Vec<EF>,
        merge_betas: &Vec<EF>,
        opening_point: &Vec<EF>,
        expected_final_value: &EF,
        final_codeword: &Option<Vec<EF>>,
    ) -> (r: Result<(), BaseFoldError>)
        requires
            self.iopp(
                iopp_commitments@,
                folding_challenges@,
                merge_betas@,
                opening_point@,
                *expected_final_value,
                *final_codeword,
            ).wf(),
            sums_wf(leaf_sums@, merge_betas@),
            steps_wf(query_proof.commit_phase_openings@),
            query_point < pow2(folding_challenges@.len() + self.fri.log_blowup as nat),
            2 * EF::degree() <= usize::MAX,
            ({
                let c = self.iopp(
                    iopp_commitments@,
                    folding_challenges@,
                    merge_betas@,
                    opening_point@,
                    *expected_final_value,
                    *final_codeword,
                );
                let n = query_proof.commit_phase_openings@.len();
                tail_fits(c, query_point as nat / pow2(committed(c, n)), n)
            }),
        ensures
            r == query_verdict(
                self.iopp(
                    iopp_commitments@,
                    folding_challenges@,
                    merge_betas@,
                    opening_point@,
                    *expected_final_value,
                    *final_codeword,
                ),
                leaf_sums@,
                query_proof.commit_phase_openings@,
                query_point,
            ),
    {
        let ghost c = self.iopp(
            iopp_commitments@,
            folding_challenges@,
            merge_betas@,
            opening_point@,
            *expected_final_value,
            *final_codeword,
        );
        let openings: &Vec<CommitPhaseProofStep<F, EF>> = &query_proof.commit_phase_openings;
        let num_vars: usize = folding_challenges.len();
        let log_blowup: usize = self.fri.log_blowup;
        let mut limit: usize = num_vars;
        if iopp_commitments.len() < limit {
            limit = iopp_commitments.len();
        }
        if openings.len() < limit {
            limit = openings.len();
        }
        let mut s: QueryState<EF> = QueryState {
            folded: EF::zero(),
            merges: 0,
            eq: EF::one(),
            query: query_point,
        };
        let ghost goal = committed_rounds(c, leaf_sums@, openings@, started(query_point), 0);
        let mut round: usize = 0;
        proof {
            lemma2_to64();
            EF::law_constants();
            assert(query_point as nat / 1 == query_point as nat);
        }
        while round < limit
            invariant
                round <= limit,
                limit == committed(c, openings@.len()),
                c == self.iopp(
                    iopp_commitments@,
                    folding_challenges@,
                    merge_betas@,
                    opening_point@,
                    *expected_final_value,
                    *final_codeword,
                ),
                c.wf(),
                num_vars == folding_challenges@.len(),
                log_blowup == self.fri.log_blowup,
                openings@ == query_proof.commit_phase_openings@,
                steps_wf(openings@),
                sums_wf(leaf_sums@, merge_betas@),
                2 * EF::degree() <= usize::MAX,
                goal == committed_rounds(c, leaf_sums@, openings@, s, round as nat),
                goal == committed_rounds(c, leaf_sums@, openings@, started(query_point), 0),
                s.folded.valid(),
                s.query < pow2(c.log_len(round as nat)),
                s.query == query_point as nat / pow2(round as nat),
            decreases limit - round,
        {
            let log_len: usize = num_vars + log_blowup - round;
            let m: QueryState<EF> = merge_height(s, leaf_sums, merge_betas, log_len);
            let step: &CommitPhaseProofStep<F, EF> = &openings[round];
            let row: Vec<EF> = if m.query % 2 == 0 {
                vec![m.folded, step.sibling_value]
            } else {
                vec![step.sibling_value, m.folded]
            };
            proof {
                assert(row@ =~= pair_row(m, step.sibling_value));
                lemma_merged_valid(s, leaf_sums@, merge_betas@, log_len as nat);
                assert(openings@[round as int].sibling_value.valid());
                lemma_halved(s.query as nat, log_len as nat);
                if log_len - 1 < usize::BITS - 1 {
                    lemma_pow2_strictly_increases(
                        (log_len - 1) as nat,
                        (usize::BITS - 1) as nat,
                    );
                }
                assert(c.oracles[round as int] == iopp_commitments@[round as int]@);
                assert(mmcs::is_digest(c.oracles[round as int]));
                assert((2 * EF::degree()) <= usize::MAX);
            }
            let height: usize = bits::two_to_the(log_len - 1);
            if !verify_row(
                &self.permutation,
                &iopp_commitments[round],
                height,
                m.query / 2,
                &row,
                &step.opening_proof,
            ) {
                return Err(BaseFoldError::CommitPhaseMmcsError);
            }
            s = step_query(
                m,
                &row,
                log_len,
                folding_challenges[round],
                opening_point[num_vars - 1 - round],
            );
            proof {
                lemma_stepped_valid(
                    m,
                    row@,
                    log_len as nat,
                    folding_challenges@[round as int],
                    opening_point@[num_vars - 1 - round],
                );
                lemma_pow2_unfold((round + 1) as nat);
                lemma_pow2_pos(round as nat);
                vstd::arithmetic::div_mod::lemma_div_denominator(
                    query_point as int,
                    pow2(round as nat) as int,
                    2,
                );
                vstd::arithmetic::mul::lemma_mul_is_commutative(pow2(round as nat) as int, 2);
            }
            round += 1;
        }
        finish_query(
            Ghost(c),
            log_blowup,
            leaf_sums,
            folding_challenges,
            merge_betas,
            opening_point,
            expected_final_value,
            final_codeword,
            s,
            openings.len(),
        )
    }

    /// Folds the row of a group of rounds.
    pub(crate) fn step_row<EF: TwoAdicExtension<F>>(
        Ghost(c): Ghost<Iopp<F, EF>>,
        m: QueryState<EF>,
        row: &Vec<EF>,
        log_len: usize,
        round: usize,
        log_folding: usize,
        folding_challenges: &Vec<EF>,
        opening_point: &Vec<EF>,
    ) -> (r: QueryState<EF>)
        requires
            c.wf(),
            c.challenges == folding_challenges@,
            c.point == opening_point@,
            log_len == c.log_len(round as nat),
            log_folding > 0,
            round + log_folding <= c.num_vars(),
            row@.len() == pow2(log_folding as nat),
            m.query < pow2(log_len as nat),
        ensures
            r == row_stepped(c, m, row@, round as nat, log_folding as nat),
    {
        let num_vars: usize = folding_challenges.len();
        let index: usize = bits::shift_right(m.query, log_folding);
        let challenges: &[EF] = vstd::slice::slice_subrange(
            folding_challenges.as_slice(),
            round,
            round + log_folding,
        );
        proof {
            lemma_shifted(m.query as nat, log_len as nat, log_folding as nat);
        }
        let folded: EF = fold_row_cross_round(row.as_slice(), index, log_len, challenges);
        let one: EF = EF::one();
        let mut eq: EF = m.eq;
        let mut t: usize = 0;
        while t < log_folding
            invariant
                t <= log_folding,
                c.wf(),
                num_vars == c.num_vars(),
                c.challenges == folding_challenges@,
                c.point == opening_point@,
                round + log_folding <= num_vars,
                one == EF::one_elem(),
                eq == eq_stepped(c, m.eq, round as nat, t as nat),
            decreases log_folding - t,
        {
            let p_i: EF = opening_point[num_vars - 1 - (round + t)];
            let fc_i: EF = folding_challenges[round + t];
            eq = eq.mul(p_i.mul(fc_i).add(one.sub(p_i).mul(one.sub(fc_i))));
            t += 1;
        }
        QueryState { folded, merges: m.merges, eq, query: index }
    }

    /// Checks the groups of a query and what is left after them: merges each height where it
    /// enters, checks the opening of a whole row of the codeword and that the row holds the folded
    /// entry, and folds the row.
    pub fn verify_cross_round_groups<EF: TwoAdicExtension<F>>(
        &self,
        iopp_commitments: &Vec<Vec<F>>,
        query_point: usize,
        leaf_sums: &Vec<(usize, EF)>,
        cross_proof: &CrossRoundQueryProof<F, EF>,
        commit_schedule: &Vec<CommitGroup>,
        folding_challenges: &Vec<EF>,
        merge_betas: &Vec<EF>,
        opening_point: &Vec<EF>,
        expected_final_value: &EF,
        final_codeword: &Option<Vec<EF>>,
    ) -> (r: Result<(), BaseFoldError>)
        requires
            self.iopp(
                iopp_commitments@,
                folding_challenges@,
                merge_betas@,
                opening_point@,
                *expected_final_value,
                *final_codeword,
            ).wf(),
            sums_wf(leaf_sums@, merge_betas@),
            group_steps_wf(cross_proof.group_openings@),
            schedule_fits(commit_schedule@, folding_challenges@.len()),
            cross_proof.group_openings@.len() >= commit_schedule@.len(),
            iopp_commitments@.len() >= commit_schedule@.len(),
            query_point < pow2(folding_challenges@.len() + self.fri.log_blowup as nat),
            pow2(folding_challenges@.len()) * EF::degree() <= usize::MAX,
            ({
                let c = self.iopp(
                    iopp_commitments@,
                    folding_challenges@,
                    merge_betas@,
                    opening_point@,
                    *expected_final_value,
                    *final_codeword,
                );
                let n = rounds_before(commit_schedule@, commit_schedule@.len());
                tail_fits(c, query_point as nat / pow2(n), n)
            }),
        ensures
            r == cross_round_verdict(
                self.iopp(
                    iopp_commitments@,
                    folding_challenges@,
                    merge_betas@,
                    opening_point@,
                    *expected_final_value,
                    *final_codeword,
                ),
                leaf_sums@,
                commit_schedule@,
                cross_proof.group_openings@,
                query_point,
            ),
    {
        let ghost c = self.iopp(
            iopp_commitments@,
            folding_challenges@,
            merge_betas@,
            opening_point@,
            *expected_final_value,
            *final_codeword,
        );
        let openings: &Vec<CrossRoundProofStep<F, EF>> = &cross_proof.group_openings;
        let num_vars: usize = folding_challenges.len();
        let log_blowup: usize = self.fri.log_blowup;
        let mut s: QueryState<EF> = QueryState {
            folded: EF::zero(),
            merges: 0,
            eq: EF::one(),
            query: query_point,
        };
        let ghost goal = group_rounds(
            c,
            leaf_sums@,
            commit_schedule@,
            openings@,
            started(query_point),
            0,
        );
        let mut g: usize = 0;
        let mut round: usize = 0;
        proof {
            lemma2_to64();
            assert(query_point as nat / 1 == query_point as nat);
        }
        while g < commit_schedule.len()
            invariant
                g <= commit_schedule@.len(),
                c == self.iopp(
                    iopp_commitments@,
                    folding_challenges@,
                    merge_betas@,
                    opening_point@,
                    *expected_final_value,
                    *final_codeword,
                ),
                c.wf(),
                num_vars == folding_challenges@.len(),
                log_blowup == self.fri.log_blowup,
                openings@ == cross_proof.group_openings@,
                group_steps_wf(openings@),
                sums_wf(leaf_sums@, merge_betas@),
                schedule_fits(commit_schedule@, num_vars as nat),
                openings@.len() >= commit_schedule@.len(),
                iopp_commitments@.len() >= commit_schedule@.len(),
                pow2(num_vars as nat) * EF::degree() <= usize::MAX,
                round == rounds_before(commit_schedule@, g as nat),
                round <= num_vars,
                goal == group_rounds(
                    c,
                    leaf_sums@,
                    commit_schedule@,
                    openings@,
                    s,
                    g as nat,
                ),
                goal == group_rounds(
                    c,
                    leaf_sums@,
                    commit_schedule@,
                    openings@,
                    started(query_point),
                    0,
                ),
                s.query < pow2(c.log_len(round as nat)),
                s.query == query_point as nat / pow2(round as nat),
            decreases commit_schedule@.len() - g,
        {
            let lf: usize = commit_schedule[g].log_folding;
            let step: &CrossRoundProofStep<F, EF> = &openings[g];
            proof {
                lemma_rounds_before(
                    commit_schedule@,
                    (g + 1) as nat,
                    commit_schedule@.len(),
                );
                assert(commit_schedule@[g as int].log_folding > 0);
            }
            if step.row_values.len() != bits::two_to_the(lf) {
                return Err(BaseFoldError::InvalidInputError);
            }
            let log_len: usize = num_vars + log_blowup - round;
            let m: QueryState<EF> = merge_height(s, leaf_sums, merge_betas, log_len);
            let index: usize = bits::shift_right(m.query, lf);
            proof {
                lemma_shifted(s.query as nat, log_len as nat, lf as nat);
                if log_len - lf < usize::BITS - 1 {
                    lemma_pow2_strictly_increases(
                        (log_len - lf) as nat,
                        (usize::BITS - 1) as nat,
                    );
                }
                if lf < num_vars {
                    lemma_pow2_strictly_increases(lf as nat, num_vars as nat);
                }
                assert(pow2(lf as nat) * EF::degree() <= pow2(num_vars as nat) * EF::degree())
                    by (nonlinear_arith)
                    requires
                        pow2(lf as nat) <= pow2(num_vars as nat),
                ;
                assert(c.oracles[g as int] == iopp_commitments@[g as int]@);
                assert(mmcs::is_digest(c.oracles[g as int]));
                assert(field::all_valid(openings@[g as int].row_values@));
                lemma_pow2_pos(lf as nat);
            }
            let height: usize = bits::two_to_the(log_len - lf);
            if !verify_row(
                &self.permutation,
                &iopp_commitments[g],
                height,
                index,
                &step.row_values,
                &step.opening_proof,
            ) {
                return Err(BaseFoldError::CommitPhaseMmcsError);
            }
            let local: usize = m.query % bits::two_to_the(lf);
            if !m.folded.is_equal(&step.row_values[local]) {
                return Err(BaseFoldError::FriFinalStepMisMatch);
            }
            s = Self::step_row(
                Ghost(c),
                m,
                &step.row_values,
                log_len,
                round,
                lf,
                folding_challenges,
                opening_point,
            );
            proof {
                lemma_pow2_adds(round as nat, lf as nat);
                lemma_pow2_pos(round as nat);
                vstd::arithmetic::div_mod::lemma_div_denominator(
                    query_point as int,
                    pow2(round as nat) as int,
                    pow2(lf as nat) as int,
                );
            }
            round += lf;
            g += 1;
        }
        finish_query(
            Ghost(c),
            log_blowup,
            leaf_sums,
            folding_challenges,
            merge_betas,
            opening_point,
            expected_final_value,
            final_codeword,
            s,
            round,
        )
    }
}

} // verus!
