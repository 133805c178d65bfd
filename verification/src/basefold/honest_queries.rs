//! The queries of an honest prover check out.
use vstd::prelude::*;
use vstd::arithmetic::power2::*;
use crate::basefold::challenger::Transcript;
use crate::basefold::encode;
use crate::basefold::eqpoly;
use crate::basefold::ext_mmcs;
use crate::basefold::fold;
use crate::basefold::honest;
use crate::basefold::honest::Honest;
use crate::basefold::linear;
use crate::basefold::mlpoly;
use crate::basefold::mmcs;
use crate::basefold::mmcs::MerkleField;
use crate::basefold::openings::{BaseFoldError, CommitPhaseProofStep, CrossRoundProofStep};
use crate::basefold::query;
use crate::basefold::query::{Iopp, QueryState};
use crate::basefold::rounds;
use crate::basefold::rounds::Plan;
use crate::basefold::schedule;
use crate::basefold::schedule::CommitGroup;
use crate::bits;
use crate::field;
use crate::field::algebra;
use crate::field::TwoAdicExtension;

verus! {

/// A run of the rounds: what they are checked against, the tables of the heights, the opening
/// point, the transcript before, and the logarithm of the blowup.
#[verifier::ext_equal]
pub struct Run<F, EF> {
    pub plan: Plan<F, EF>,
    pub tables: Seq<Seq<EF>>,
    pub point: Seq<EF>,
    pub transcript: Transcript<F>,
    pub log_blowup: nat,
}

impl<F: MerkleField, EF: TwoAdicExtension<F>> Run<F, EF> {
    /// The prover's state after `i` rounds.
    pub open spec fn at(self, i: nat) -> Honest<F, EF> {
        honest::honest_at(self.plan, self.tables, self.point, self.transcript, i)
    }

    pub open spec fn num_vars(self) -> nat {
        self.plan.num_vars
    }

    /// The codeword of the folded table after `i` rounds.
    pub open spec fn word(self, i: nat) -> Seq<EF> {
        encode::encoded(self.at(i).f, self.log_blowup)
    }

    /// The parts of the run fit together, and the polynomials are those of the folded tables.
    pub open spec fn sound(self) -> bool {
        &&& honest::plan_wf(self.plan, self.tables, self.point, self.transcript)
        &&& self.plan.polys.len() == self.plan.num_vars
        &&& honest::polys_proved(
            self.plan,
            self.tables,
            self.point,
            self.transcript,
            self.plan.num_vars,
        )
        &&& self.plan.num_vars + self.log_blowup <= F::two_adicity()
        &&& self.plan.num_vars + self.log_blowup < usize::BITS
    }

    /// A sound run in which every table has a variable.
    pub open spec fn wf(self) -> bool {
        &&& self.sound()
        &&& self.plan.groups.last().log_height >= 1
    }

    /// What the queries are checked against belongs to the run.
    pub open spec fn checked_by(self, c: Iopp<F, EF>) -> bool {
        let last = self.at(self.num_vars());
        &&& c.log_blowup == self.log_blowup
        &&& c.oracles == self.plan.oracles
        &&& c.challenges == last.s.challenges
        &&& c.betas == last.s.betas
        &&& c.point == self.point
        &&& c.expected == last.f[0]
        &&& (self.plan.k > 0 ==> c.final_codeword == Some(
            self.word((self.num_vars() - self.plan.k) as nat),
        ))
        &&& self.plan.k <= self.plan.groups.last().log_height
    }

    /// The linear combinations of the opened rows are entries of the codewords of the tables.
    pub open spec fn has_sums(self, sums: Seq<(usize, EF)>, query: nat) -> bool {
        &&& sums.len() == self.plan.groups.len()
        &&& forall|g: int|
            0 <= g < sums.len() ==> (#[trigger] sums[g]).0 == self.plan.groups[g].log_height
                + self.log_blowup && sums[g].1 == encode::encoded(
                self.tables[g],
                self.log_blowup,
            )[(query / pow2((self.num_vars() - self.plan.groups[g].log_height) as nat)) as int]
    }

    /// The state of a query before the merge at the start of round `i`.
    pub open spec fn before_merge(self, s: QueryState<EF>, query: nat, i: nat) -> bool {
        &&& s.query as nat == query / pow2(i)
        &&& if i == 0 {
            s == query::started::<EF>(query as usize)
        } else {
            let h = self.at((i - 1) as nat);
            let r = self.at(i).s.challenges.last();
            &&& s.folded == encode::encoded(mlpoly::bound_bottom(h.f, r), self.log_blowup)[(query
                / pow2(i)) as int]
            &&& s.eq == h.eq.times(
                eqpoly::eq_factor(self.point[self.num_vars() - i], r),
            )
            &&& s.merges == h.s.group
        }
    }

    /// The state of a query after the merge at the start of round `i`.
    pub open spec fn after_merge(self, s: QueryState<EF>, query: nat, i: nat) -> bool {
        &&& s.query as nat == query / pow2(i)
        &&& s.folded == self.word(i)[(query / pow2(i)) as int]
        &&& s.eq == self.at(i).eq
        &&& s.merges == self.at(i).s.group
    }
}

/// The facts of a run after `i` rounds.
pub proof fn lemma_run<F: MerkleField, EF: TwoAdicExtension<F>>(run: Run<F, EF>, i: nat)
    requires
        run.sound(),
        i <= run.num_vars(),
    ensures
        honest::honest_wf(run.plan, run.at(i), i),
        run.word(i).len() == pow2((run.num_vars() - i + run.log_blowup) as nat),
        bits::log2(run.at(i).f.len()) == run.num_vars() - i,
        bits::power_of_two(run.at(i).f.len()),
        run.num_vars() + run.log_blowup <= EF::two_adicity(),
        forall|j: int| 0 <= j < run.num_vars() ==> field::all_valid(#[trigger] run.plan.polys[j]),
{
    let p = run.plan;
    assert forall|j: int| 0 <= j < p.num_vars implies field::all_valid(#[trigger] p.polys[j]) by {
        assert(honest::poly_proved(p, run.tables, run.point, run.transcript, j as nat));
    }
    honest::lemma_honest_wf(p, run.tables, run.point, run.transcript, i);
    bits::lemma_log2_pow2((run.num_vars() - i) as nat);
    EF::law_generators(0);
}

/// The challenges that the queries are checked against are those of the rounds.
pub proof fn lemma_challenge<F: MerkleField, EF: TwoAdicExtension<F>>(
    run: Run<F, EF>,
    c: Iopp<F, EF>,
    i: nat,
)
    requires
        run.wf(),
        run.checked_by(c),
        i < run.num_vars(),
    ensures
        c.challenges.len() == run.num_vars(),
        c.challenges[i as int] == run.at(i + 1).s.challenges.last(),
        c.challenges[i as int].valid(),
        run.at(i + 1).s.betas.len() > 0 ==> c.betas.len() >= run.at(i + 1).s.betas.len()
            && c.betas[run.at(i + 1).s.betas.len() - 1] == run.at(i + 1).s.betas.last(),
{
    let n = run.num_vars();
    lemma_run(run, n);
    lemma_run(run, i + 1);
    honest::lemma_challenges_stay(run.plan, run.tables, run.point, run.transcript, i + 1, n);
    let a = run.at(i + 1).s;
    assert(c.challenges.take((i + 1) as int)[i as int] == c.challenges[i as int]);
    if a.betas.len() > 0 {
        assert(c.betas.take(a.betas.len() as int)[a.betas.len() - 1] == c.betas[a.betas.len() - 1]);
    }
}

proof fn lemma_quotient_halves(query: nat, i: nat)
    ensures
        query / pow2(i + 1) == (query / pow2(i)) / 2,
{
    lemma_pow2_unfold(i + 1);
    lemma_pow2_pos(i);
    vstd::arithmetic::div_mod::lemma_div_denominator(query as int, pow2(i) as int, 2);
}

proof fn lemma_quotient_bound(query: nat, len: nat, i: nat)
    requires
        i <= len,
        query < pow2(len),
    ensures
        query / pow2(i) < pow2((len - i) as nat),
{
    query::lemma_shifted(query, len, i);
}

/// The heights of the groups descend, so that there are no more groups than heights.
proof fn lemma_group_number<F: MerkleField, EF: TwoAdicExtension<F>>(run: Run<F, EF>, g: nat)
    requires
        run.wf(),
        g < run.plan.groups.len(),
    ensures
        run.plan.groups[g as int].log_height + g <= run.num_vars(),
    decreases g,
{
    if g > 0 {
        lemma_group_number(run, (g - 1) as nat);
        assert(run.plan.groups[g - 1].log_height > run.plan.groups[g as int].log_height);
    }
}

/// The merge at the start of a round.
pub proof fn lemma_merge<F: MerkleField, EF: TwoAdicExtension<F>>(
    run: Run<F, EF>,
    c: Iopp<F, EF>,
    sums: Seq<(usize, EF)>,
    s: QueryState<EF>,
    query: nat,
    i: nat,
)
    requires
        run.wf(),
        run.checked_by(c),
        run.has_sums(sums, query),
        query < pow2(run.num_vars() + run.log_blowup),
        query <= usize::MAX,
        i < run.num_vars(),
        run.before_merge(s, query, i),
    ensures
        run.after_merge(query::merged(s, sums, c.betas, c.log_len(i)), query, i),
{
    broadcast use algebra::group_valid;

    let n = run.num_vars();
    let lb = run.log_blowup;
    lemma_run(run, i);
    lemma_challenge(run, c, 0);
    assert(pow2(0) == 1) by {
        lemma2_to64();
    }
    if i == 0 {
        assert(sums[0].0 == run.plan.groups[0].log_height + lb);
        assert(query / pow2(0) == query) by {
            vstd::arithmetic::div_mod::lemma_div_basics(query as int);
        }
    } else {
        let k = (i - 1) as nat;
        lemma_run(run, k);
        let h = run.at(k);
        let round = (n - k) as nat;
        honest::lemma_announced_wf(run.plan, h.s, round);
        let g = h.s.group;
        let merges = g < run.plan.groups.len() && run.plan.groups[g as int].log_height == n - i;
        if g < sums.len() {
            assert(sums[g as int].0 == run.plan.groups[g as int].log_height + lb);
        }
        if merges {
            lemma_group_number(run, g);
            let f = mlpoly::bound_bottom(h.f, run.at(i).s.challenges.last());
            let beta = run.at(i).s.betas.last();
            lemma_challenge(run, c, k);
            let eq = s.eq;
            let table = run.tables[g as int];
            assert(table.len() == pow2(run.plan.groups[g as int].log_height));
            encode::lemma_bound_bottom_valid(h.f, run.at(i).s.challenges.last());
            lemma_pow2_unfold(round);
            bits::lemma_log2_pow2((n - i) as nat);
            lemma_pow2_pos((n - i) as nat);
            lemma_quotient_bound(query, n + lb, i);
            let betas = run.at(i).s.betas;
            assert(betas.last().valid()) by {
                assert(betas[betas.len() - 1].valid());
            }
            linear::law_encoding_is_linear(eq, f, beta, table, lb);
            assert(run.at(i).f == linear::combined(eq, f, beta, table));
        }
    }
}

/// The fold of a pair of a codeword.
pub proof fn lemma_step<F: MerkleField, EF: TwoAdicExtension<F>>(
    run: Run<F, EF>,
    c: Iopp<F, EF>,
    s: QueryState<EF>,
    row: Seq<EF>,
    query: nat,
    i: nat,
)
    requires
        run.wf(),
        run.checked_by(c),
        query < pow2(run.num_vars() + run.log_blowup),
        i < run.num_vars(),
        run.after_merge(s, query, i),
        ({
            let j = (query / pow2(i)) as int / 2;
            row == seq![run.word(i)[2 * j], run.word(i)[2 * j + 1]]
        }),
    ensures
        run.before_merge(
            query::stepped(
                s,
                row,
                c.log_len(i),
                c.challenges[i as int],
                c.point[c.num_vars() - 1 - i],
            ),
            query,
            i + 1,
        ),
        fold::folded(run.word(i), c.challenges[i as int]) == encode::encoded(
            mlpoly::bound_bottom(run.at(i).f, c.challenges[i as int]),
            run.log_blowup,
        ),
{
    let n = run.num_vars();
    let lb = run.log_blowup;
    lemma_run(run, i);
    lemma_challenge(run, c, i);
    let r = c.challenges[i as int];
    let h = run.at(i);
    lemma_pow2_unfold((n - i) as nat);
    lemma_pow2_pos((n - i - 1) as nat);
    encode::law_fold_encodes_binding(h.f, lb, r);
    lemma_quotient_halves(query, i);
    lemma_quotient_bound(query, n + lb, i);
    lemma_quotient_bound(query, n + lb, i + 1);
    lemma_pow2_unfold((n + lb - i) as nat);
    bits::lemma_log2_pow2((n + lb - i) as nat);
    let word = run.word(i);
    let j = query / pow2(i + 1);
    assert(fold::folded(word, r)[j as int] == fold::line_at(
        word[2 * j as int],
        word[2 * j as int + 1],
        fold::point(bits::log2(word.len()), j),
        r,
    ));
}

/// The openings of a query hold, for each committed round, the other entry of the pair and an
/// accepted opening of the pair.
pub open spec fn pairs_opened<F: MerkleField, EF: TwoAdicExtension<F>>(
    run: Run<F, EF>,
    c: Iopp<F, EF>,
    openings: Seq<CommitPhaseProofStep<F, EF>>,
    query: nat,
    n: nat,
) -> bool {
    forall|i: nat| i < n ==> #[trigger] pair_opened(run, c, openings, query, i)
}

/// The opening of one round holds the other entry of the pair and an accepted opening of the pair.
pub open spec fn pair_opened<F: MerkleField, EF: TwoAdicExtension<F>>(
    run: Run<F, EF>,
    c: Iopp<F, EF>,
    openings: Seq<CommitPhaseProofStep<F, EF>>,
    query: nat,
    i: nat,
) -> bool {
    let at = query / pow2(i);
    let j = at as int / 2;
    let word = run.word(i);
    &&& openings[i as int].sibling_value == (if at % 2 == 0 {
        word[2 * j + 1]
    } else {
        word[2 * j]
    })
    &&& ext_mmcs::accepts_row::<F, EF>(
        c.rounds,
        c.oracles[i as int],
        pow2((c.log_len(i) - 1) as nat),
        j as nat,
        seq![word[2 * j], word[2 * j + 1]],
        mmcs::rows_of(openings[i as int].opening_proof@),
    )
}

/// The committed rounds of a query check out.
proof fn lemma_committed<F: MerkleField, EF: TwoAdicExtension<F>>(
    run: Run<F, EF>,
    c: Iopp<F, EF>,
    sums: Seq<(usize, EF)>,
    openings: Seq<CommitPhaseProofStep<F, EF>>,
    s: QueryState<EF>,
    query: nat,
    i: nat,
)
    requires
        run.wf(),
        run.checked_by(c),
        run.has_sums(sums, query),
        query < pow2(run.num_vars() + run.log_blowup),
        query <= usize::MAX,
        i <= query::committed(c, openings.len()),
        run.before_merge(s, query, i),
        pairs_opened(run, c, openings, query, query::committed(c, openings.len())),
    ensures
        query::committed_rounds(c, sums, openings, s, i) is Ok,
        run.before_merge(
            query::committed_rounds(c, sums, openings, s, i)->Ok_0,
            query,
            query::committed(c, openings.len()),
        ),
    decreases query::committed(c, openings.len()) - i,
{
    let m = query::committed(c, openings.len());
    lemma_run(run, run.num_vars());
    if i < m {
        let post = query::merged(s, sums, c.betas, c.log_len(i));
        lemma_merge(run, c, sums, s, query, i);
        assert(pair_opened(run, c, openings, query, i));
        let at = query / pow2(i);
        let j = at as int / 2;
        let word = run.word(i);
        let row = query::pair_row(post, openings[i as int].sibling_value);
        assert(row =~= seq![word[2 * j], word[2 * j + 1]]);
        lemma_step(run, c, post, row, query, i);
        lemma_committed(
            run,
            c,
            sums,
            openings,
            query::stepped(
                post,
                row,
                c.log_len(i),
                c.challenges[i as int],
                c.point[c.num_vars() - 1 - i],
            ),
            query,
            i + 1,
        );
    }
}

/// No height is merged once the folding has stopped.
proof fn lemma_no_merge<F: MerkleField, EF: TwoAdicExtension<F>>(
    run: Run<F, EF>,
    c: Iopp<F, EF>,
    i: nat,
)
    requires
        run.wf(),
        run.checked_by(c),
        0 < i <= run.num_vars(),
        run.num_vars() - i < run.plan.groups.last().log_height,
    ensures
        run.at(i).f == mlpoly::bound_bottom(
            run.at((i - 1) as nat).f,
            run.at(i).s.challenges.last(),
        ),
{
    let k = (i - 1) as nat;
    lemma_run(run, k);
    let h = run.at(k);
    honest::lemma_announced_wf(run.plan, h.s, (run.num_vars() - k) as nat);
    let g = h.s.group;
    if g < run.plan.groups.len() && run.plan.groups[g as int].log_height == run.num_vars() - i {
        if g < run.plan.groups.len() - 1 {
            assert(run.plan.groups[g as int].log_height > run.plan.groups[run.plan.groups.len()
                - 1].log_height);
        }
        assert(false);
    }
}

/// The rounds on the final table check out.
proof fn lemma_tail<F: MerkleField, EF: TwoAdicExtension<F>>(
    run: Run<F, EF>,
    c: Iopp<F, EF>,
    sums: Seq<(usize, EF)>,
    s: QueryState<EF>,
    query: nat,
    start: nat,
    i: nat,
)
    requires
        run.wf(),
        run.checked_by(c),
        run.has_sums(sums, query),
        query < pow2(run.num_vars() + run.log_blowup),
        query <= usize::MAX,
        start == run.num_vars() - run.plan.k,
        run.plan.k > 0,
        start <= i <= run.num_vars(),
        run.before_merge(s, query, i),
    ensures
        query::tail_rounds(c, sums, s, Some(run.word(i)), start, i) is Ok,
        run.before_merge(
            query::tail_rounds(c, sums, s, Some(run.word(i)), start, i)->Ok_0,
            query,
            run.num_vars(),
        ),
    decreases run.num_vars() - i,
{
    let n = run.num_vars();
    lemma_run(run, n);
    if i < n {
        let m = query::merged(s, sums, c.betas, c.log_len(i));
        lemma_merge(run, c, sums, s, query, i);
        let at = query / pow2(i);
        let j = at as int / 2;
        let word = run.word(i);
        let even = (m.query / 2) * 2;
        let row = seq![word[even], word[even + 1]];
        assert(even == 2 * j);
        lemma_step(run, c, m, row, query, i);
        lemma_challenge(run, c, i);
        lemma_no_merge(run, c, i + 1);
        assert(fold::folded(word, c.challenges[i as int]) == run.word(i + 1));
        lemma_tail(
            run,
            c,
            sums,
            query::stepped(
                m,
                row,
                c.log_len(i),
                c.challenges[i as int],
                c.point[c.num_vars() - 1 - i],
            ),
            query,
            start,
            i + 1,
        );
    }
}

/// At the end a query has the entry that is left of the table.
proof fn lemma_end<F: MerkleField, EF: TwoAdicExtension<F>>(
    run: Run<F, EF>,
    c: Iopp<F, EF>,
    s: QueryState<EF>,
    query: nat,
)
    requires
        run.wf(),
        run.checked_by(c),
        query < pow2(run.num_vars() + run.log_blowup),
        run.num_vars() > 0,
        run.before_merge(s, query, run.num_vars()),
    ensures
        s.folded == c.expected,
{
    let n = run.num_vars();
    lemma_run(run, n);
    lemma_no_merge(run, c, n);
    let f = run.at(n).f;
    assert(pow2(0) == 1) by {
        lemma2_to64();
    }
    assert(f =~= linear::constant(f[0], 1));
    assert(f[0].valid());
    bits::lemma_log2_pow2(0);
    linear::law_constant_encoding(f[0], 1, run.log_blowup);
    lemma_quotient_bound(query, n + run.log_blowup, n);
}

/// The folding that follows the committed rounds checks out.
pub proof fn lemma_finished<F: MerkleField, EF: TwoAdicExtension<F>>(
    run: Run<F, EF>,
    c: Iopp<F, EF>,
    sums: Seq<(usize, EF)>,
    s: QueryState<EF>,
    query: nat,
    start: nat,
)
    requires
        run.wf(),
        run.checked_by(c),
        run.has_sums(sums, query),
        query < pow2(run.num_vars() + run.log_blowup),
        query <= usize::MAX,
        run.num_vars() > 0,
        run.plan.k > 0 ==> start == run.num_vars() - run.plan.k && run.before_merge(s, query, start),
        run.plan.k == 0 ==> start >= run.num_vars() && run.before_merge(
            s,
            query,
            run.num_vars(),
        ),
    ensures
        query::finished(c, sums, s, start) == Ok::<(), BaseFoldError>(()),
{
    lemma_run(run, run.num_vars());
    if run.plan.k > 0 {
        lemma_tail(run, c, sums, s, query, start, start);
        lemma_end(
            run,
            c,
            query::tail_rounds(c, sums, s, c.final_codeword, start, start)->Ok_0,
            query,
        );
    } else {
        lemma_end(run, c, s, query);
    }
}

/// A query of an honest prover that is opened round by round is accepted.
pub proof fn law_query_accepted<F: MerkleField, EF: TwoAdicExtension<F>>(
    run: Run<F, EF>,
    c: Iopp<F, EF>,
    sums: Seq<(usize, EF)>,
    openings: Seq<CommitPhaseProofStep<F, EF>>,
    query: usize,
)
    requires
        run.wf(),
        run.checked_by(c),
        run.has_sums(sums, query as nat),
        query < pow2(run.num_vars() + run.log_blowup),
        run.num_vars() > 0,
        run.plan.k > 0 ==> openings.len() == c.oracles.len() == run.num_vars() - run.plan.k,
        run.plan.k == 0 ==> openings.len() >= run.num_vars() && c.oracles.len() >= run.num_vars(),
        pairs_opened(run, c, openings, query as nat, query::committed(c, openings.len())),
    ensures
        query::query_verdict(c, sums, openings, query) == Ok::<(), BaseFoldError>(()),
{
    lemma_run(run, run.num_vars());
    assert(pow2(0) == 1) by {
        lemma2_to64();
    }
    let s = query::started::<EF>(query);
    assert(query as nat / pow2(0) == query as nat) by {
        vstd::arithmetic::div_mod::lemma_div_basics(query as int);
    }
    lemma_committed(run, c, sums, openings, s, query as nat, 0);
    let end = query::committed_rounds(c, sums, openings, s, 0)->Ok_0;
    lemma_finished(run, c, sums, end, query as nat, openings.len());
}

/// A row of a codeword that is cut into rows of `2^log_folding` entries.
pub open spec fn word_row<EF>(word: Seq<EF>, log_folding: nat, index: nat) -> Seq<EF> {
    word.subrange(
        (index * pow2(log_folding)) as int,
        (index * pow2(log_folding) + pow2(log_folding)) as int,
    )
}

/// The groups of rounds cover the rounds up to the one at which the folding stops, and no table is
/// merged within a group.
pub open spec fn schedule_of_run<F: MerkleField, EF: TwoAdicExtension<F>>(
    run: Run<F, EF>,
    schedule: Seq<CommitGroup>,
) -> bool {
    &&& query::rounds_before(schedule, schedule.len()) == run.num_vars() - run.plan.k
    &&& forall|g: int| 0 <= g < schedule.len() ==> (#[trigger] schedule[g]).log_folding > 0
    &&& forall|g: int, j: nat, m: int|
        0 <= g < schedule.len() && 0 < j < schedule[g].log_folding && 0 <= m
            < run.plan.groups.len() ==> (#[trigger] run.plan.groups[m]).log_height
            != run.num_vars() - (query::rounds_before(schedule, g as nat) + #[trigger] id(g, j))
}

/// The number itself.
pub open spec fn id(g: int, j: nat) -> nat {
    j
}

/// No table is merged at the height.
pub open spec fn merges_nothing<F: MerkleField, EF: TwoAdicExtension<F>>(run: Run<F, EF>, i: nat) -> bool {
    forall|m: int|
        0 <= m < run.plan.groups.len() ==> (#[trigger] run.plan.groups[m]).log_height
            != run.num_vars() - i
}

/// Where no table is merged, the table is bound and the equality polynomial goes on.
proof fn lemma_unmerged<F: MerkleField, EF: TwoAdicExtension<F>>(
    run: Run<F, EF>,
    c: Iopp<F, EF>,
    i: nat,
)
    requires
        run.wf(),
        run.checked_by(c),
        0 < i <= run.num_vars(),
        merges_nothing(run, i),
    ensures
        run.at(i).f == mlpoly::bound_bottom(
            run.at((i - 1) as nat).f,
            c.challenges[i - 1],
        ),
        run.at(i).eq == run.at((i - 1) as nat).eq.times(
            eqpoly::eq_factor(run.point[run.num_vars() - i], c.challenges[i - 1]),
        ),
        run.at(i).s.group == run.at((i - 1) as nat).s.group,
{
    let k = (i - 1) as nat;
    lemma_run(run, k);
    lemma_challenge(run, c, k);
    let h = run.at(k);
    honest::lemma_announced_wf(run.plan, h.s, (run.num_vars() - k) as nat);
}

/// The folds of a group of rounds.
proof fn lemma_group_folds<F: MerkleField, EF: TwoAdicExtension<F>>(
    run: Run<F, EF>,
    c: Iopp<F, EF>,
    round: nat,
    lf: nat,
)
    requires
        run.wf(),
        run.checked_by(c),
        lf > 0,
        round + lf <= run.num_vars(),
        forall|j: nat| 0 < j < lf ==> #[trigger] merges_nothing(run, round + j),
    ensures
        fold::folded_all(
            run.word(round),
            c.challenges.subrange(round as int, (round + lf) as int),
        ) == encode::encoded(
            mlpoly::bound_bottom(
                run.at((round + lf - 1) as nat).f,
                c.challenges[round + lf - 1],
            ),
            run.log_blowup,
        ),
        run.at((round + lf - 1) as nat).s.group == run.at(round).s.group,
    decreases lf,
{
    let n = run.num_vars();
    lemma_run(run, round);
    lemma_run(run, n);
    lemma_challenge(run, c, round);
    let ch = c.challenges.subrange(round as int, (round + lf) as int);
    let r = c.challenges[round as int];
    assert(ch[0] == r);
    lemma_pow2_unfold((n - round) as nat);
    lemma_pow2_pos((n - round - 1) as nat);
    encode::law_fold_encodes_binding(run.at(round).f, run.log_blowup, r);
    if lf == 1 {
        assert(ch.drop_first().len() == 0);
        reveal_with_fuel(fold::folded_all, 2);
    } else {
        assert(merges_nothing(run, round + 1));
        lemma_unmerged(run, c, round + 1);
        assert(ch.drop_first() =~= c.challenges.subrange(
            (round + 1) as int,
            (round + 1 + (lf - 1)) as int,
        ));
        assert forall|j: nat| 0 < j < lf - 1 implies #[trigger] merges_nothing(
            run,
            (round + 1) + j,
        ) by {
            assert(merges_nothing(run, round + (j + 1)));
        }
        lemma_group_folds(run, c, round + 1, (lf - 1) as nat);
    }
}

/// The equality polynomial over a group of rounds.
proof fn lemma_group_eq<F: MerkleField, EF: TwoAdicExtension<F>>(
    run: Run<F, EF>,
    c: Iopp<F, EF>,
    round: nat,
    n: nat,
    lf: nat,
)
    requires
        run.wf(),
        run.checked_by(c),
        n < lf,
        round + lf <= run.num_vars(),
        forall|j: nat| 0 < j < lf ==> #[trigger] merges_nothing(run, round + j),
    ensures
        query::eq_stepped(c, run.at(round).eq, round, n) == run.at(round + n).eq,
    decreases n,
{
    lemma_run(run, run.num_vars());
    if n > 0 {
        lemma_group_eq(run, c, round, (n - 1) as nat, lf);
        assert(merges_nothing(run, round + n));
        lemma_unmerged(run, c, round + n);
    }
}

/// The fold of a whole row of a codeword.
pub proof fn lemma_row_step<F: MerkleField, EF: TwoAdicExtension<F>>(
    run: Run<F, EF>,
    c: Iopp<F, EF>,
    s: QueryState<EF>,
    row: Seq<EF>,
    query: nat,
    round: nat,
    lf: nat,
)
    requires
        run.wf(),
        run.checked_by(c),
        query < pow2(run.num_vars() + run.log_blowup),
        query <= usize::MAX,
        lf > 0,
        round + lf <= run.num_vars(),
        run.after_merge(s, query, round),
        row == word_row(run.word(round), lf, (query / pow2(round)) / pow2(lf)),
        forall|j: nat| 0 < j < lf ==> #[trigger] merges_nothing(run, round + j),
    ensures
        run.before_merge(query::row_stepped(c, s, row, round, lf), query, round + lf),
        s.folded == row[(s.query as nat % pow2(lf)) as int],
        row.len() == pow2(lf),
        (query / pow2(round)) / pow2(lf) == query / pow2(round + lf),
{
    let n = run.num_vars();
    let lb = run.log_blowup;
    lemma_run(run, round);
    lemma_run(run, n);
    let at = query / pow2(round);
    let index = at / pow2(lf);
    let word = run.word(round);
    let ch = c.challenges.subrange(round as int, (round + lf) as int);
    lemma_pow2_adds(round, lf);
    lemma_pow2_pos(round);
    lemma_pow2_pos(lf);
    vstd::arithmetic::div_mod::lemma_div_denominator(
        query as int,
        pow2(round) as int,
        pow2(lf) as int,
    );
    lemma_quotient_bound(query, n + lb, round);
    lemma_quotient_bound(query, n + lb, round + lf);
    lemma_quotient_bound(at, (n + lb - round) as nat, lf);
    vstd::arithmetic::div_mod::lemma_fundamental_div_mod(at as int, pow2(lf) as int);
    assert(pow2(lf) * index == index * pow2(lf)) by (nonlinear_arith);
    lemma_pow2_adds((n + lb - round - lf) as nat, lf);
    assert(index * pow2(lf) + pow2(lf) <= word.len()) by (nonlinear_arith)
        requires
            index < pow2((n + lb - round - lf) as nat),
            word.len() == pow2((n + lb - round - lf) as nat) * pow2(lf),
    ;
    vstd::arithmetic::div_mod::lemma_mod_bound(at as int, pow2(lf) as int);
    assert(row[(at % pow2(lf)) as int] == word[at as int]);
    fold::law_row_fold_matches_codeword_fold(word, (n + lb - round) as nat, ch, index);
    assert(pow2(ch.len()) == pow2(lf));
    assert(row =~= word.subrange(
        index * pow2(ch.len()) as int,
        index * pow2(ch.len()) as int + pow2(ch.len()) as int,
    ));
    lemma_group_folds(run, c, round, lf);
    lemma_group_eq(run, c, round, (lf - 1) as nat, lf);
    let last = (round + lf - 1) as nat;
    lemma_challenge(run, c, last);
    let next = query::row_stepped(c, s, row, round, lf);
    assert(next.eq == run.at(last).eq.times(
        eqpoly::eq_factor(run.point[n - (round + lf)], c.challenges[last as int]),
    ));
}

/// The rounds of a group start where those before it end, and end before the folding stops.
pub proof fn lemma_group<F: MerkleField, EF: TwoAdicExtension<F>>(
    run: Run<F, EF>,
    schedule: Seq<CommitGroup>,
    g: nat,
)
    requires
        schedule_of_run(run, schedule),
        g < schedule.len(),
        run.plan.k <= run.num_vars(),
    ensures
        ({
            let round = query::rounds_before(schedule, g);
            let lf = schedule[g as int].log_folding as nat;
            &&& lf > 0
            &&& round + lf <= run.num_vars()
            &&& query::rounds_before(schedule, g + 1) == round + lf
            &&& forall|j: nat| 0 < j < lf ==> #[trigger] merges_nothing(run, round + j)
        }),
{
    query::lemma_rounds_before(schedule, g + 1, schedule.len());
    let round = query::rounds_before(schedule, g);
    let lf = schedule[g as int].log_folding as nat;
    assert forall|j: nat| 0 < j < lf implies #[trigger] merges_nothing(run, round + j) by {
        assert forall|m: int| 0 <= m < run.plan.groups.len() implies (
        #[trigger] run.plan.groups[m]).log_height != run.num_vars() - (round + j) by {
            assert(id(g as int, j) == j);
        }
    }
}

/// The opening of one group holds the row of the query and an accepted opening of it.
pub open spec fn row_opened<F: MerkleField, EF: TwoAdicExtension<F>>(
    run: Run<F, EF>,
    c: Iopp<F, EF>,
    schedule: Seq<CommitGroup>,
    openings: Seq<CrossRoundProofStep<F, EF>>,
    query: nat,
    g: nat,
) -> bool {
    let round = query::rounds_before(schedule, g);
    let lf = schedule[g as int].log_folding as nat;
    let index = (query / pow2(round)) / pow2(lf);
    &&& openings[g as int].row_values@ == word_row(run.word(round), lf, index)
    &&& ext_mmcs::accepts_row::<F, EF>(
        c.rounds,
        c.oracles[g as int],
        pow2((c.log_len(round) - lf) as nat),
        index,
        openings[g as int].row_values@,
        mmcs::rows_of(openings[g as int].opening_proof@),
    )
}

/// The openings of the groups hold the rows of the query.
pub open spec fn rows_opened<F: MerkleField, EF: TwoAdicExtension<F>>(
    run: Run<F, EF>,
    c: Iopp<F, EF>,
    schedule: Seq<CommitGroup>,
    openings: Seq<CrossRoundProofStep<F, EF>>,
    query: nat,
) -> bool {
    forall|g: nat|
        g < schedule.len() ==> #[trigger] row_opened(run, c, schedule, openings, query, g)
}

proof fn lemma_groups<F: MerkleField, EF: TwoAdicExtension<F>>(
    run: Run<F, EF>,
    c: Iopp<F, EF>,
    sums: Seq<(usize, EF)>,
    schedule: Seq<CommitGroup>,
    openings: Seq<CrossRoundProofStep<F, EF>>,
    s: QueryState<EF>,
    query: nat,
    g: nat,
)
    requires
        run.wf(),
        run.checked_by(c),
        run.has_sums(sums, query),
        query < pow2(run.num_vars() + run.log_blowup),
        query <= usize::MAX,
        schedule_of_run(run, schedule),
        g <= schedule.len(),
        run.before_merge(s, query, query::rounds_before(schedule, g)),
        rows_opened(run, c, schedule, openings, query),
    ensures
        query::group_rounds(c, sums, schedule, openings, s, g) is Ok,
        run.before_merge(
            query::group_rounds(c, sums, schedule, openings, s, g)->Ok_0,
            query,
            query::rounds_before(schedule, schedule.len()),
        ),
    decreases schedule.len() - g,
{
    lemma_run(run, run.num_vars());
    lemma_low(run);
    if g < schedule.len() {
        let round = query::rounds_before(schedule, g);
        let lf = schedule[g as int].log_folding as nat;
        lemma_group(run, schedule, g);
        let m = query::merged(s, sums, c.betas, c.log_len(round));
        lemma_merge(run, c, sums, s, query, round);
        assert(row_opened(run, c, schedule, openings, query, g));
        let row = openings[g as int].row_values@;
        lemma_row_step(run, c, m, row, query, round, lf);
        lemma_groups(
            run,
            c,
            sums,
            schedule,
            openings,
            query::row_stepped(c, m, row, round, lf),
            query,
            g + 1,
        );
    }
}

/// The lowest height is at most the greatest.
pub proof fn lemma_low<F: MerkleField, EF: TwoAdicExtension<F>>(run: Run<F, EF>)
    requires
        run.wf(),
    ensures
        run.plan.groups.last().log_height <= run.num_vars(),
{
    if run.plan.groups.len() > 1 {
        assert(run.plan.groups[0].log_height > run.plan.groups[run.plan.groups.len()
            - 1].log_height);
    }
}

pub proof fn lemma_started<F: MerkleField, EF: TwoAdicExtension<F>>(run: Run<F, EF>, query: usize)
    ensures
        run.before_merge(query::started::<EF>(query), query as nat, 0),
{
    assert(pow2(0) == 1) by {
        lemma2_to64();
    }
    assert(query as nat / pow2(0) == query as nat) by {
        vstd::arithmetic::div_mod::lemma_div_basics(query as int);
    }
}

/// A query of an honest prover that is opened group by group is accepted.
pub proof fn law_cross_round_query_accepted<F: MerkleField, EF: TwoAdicExtension<F>>(
    run: Run<F, EF>,
    c: Iopp<F, EF>,
    sums: Seq<(usize, EF)>,
    schedule: Seq<CommitGroup>,
    openings: Seq<CrossRoundProofStep<F, EF>>,
    query: usize,
)
    requires
        run.wf(),
        run.checked_by(c),
        run.has_sums(sums, query as nat),
        query < pow2(run.num_vars() + run.log_blowup),
        run.num_vars() > 0,
        schedule_of_run(run, schedule),
        rows_opened(run, c, schedule, openings, query as nat),
    ensures
        query::cross_round_verdict(c, sums, schedule, openings, query) == Ok::<(), BaseFoldError>(
            (),
        ),
{
    lemma_low(run);
    let s = query::started::<EF>(query);
    lemma_started(run, query);
    lemma_groups(run, c, sums, schedule, openings, s, query as nat, 0);
    let end = query::group_rounds(c, sums, schedule, openings, s, 0)->Ok_0;
    lemma_finished(
        run,
        c,
        sums,
        end,
        query as nat,
        query::rounds_before(schedule, schedule.len()),
    );
}

} // verus!
