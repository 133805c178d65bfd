//! The answers of an opening to the queries.
use vstd::prelude::*;
use vstd::arithmetic::power2::*;
use crate::basefold::encode;
use crate::basefold::ext_mmcs;
use crate::basefold::ext_mmcs::{open_row, open_rows};
use crate::basefold::honest_pruned;
use crate::basefold::honest_queries;
use crate::basefold::honest_queries::Run;
use crate::basefold::mmcs;
use crate::basefold::mmcs::{MerkleField, PrunedProof};
use crate::basefold::openings::{
    CommitPhaseProofStep,
    CrossRoundProofStep,
    CrossRoundPrunedOpenings,
    CrossRoundQueryProof,
    PrunedFriQueryProof,
    QueryProof,
};
use crate::basefold::pcs::BaseFoldPcs;
use crate::basefold::poseidon::Rounds;
use crate::basefold::prove_rounds;
use crate::basefold::pruned;
use crate::basefold::pruned::{find_index, sort_unique};
use crate::basefold::query;
use crate::basefold::query::Iopp;
use crate::basefold::rounds;
use crate::basefold::schedule;
use crate::basefold::schedule::CommitGroup;
use crate::bits;
use crate::field;
use crate::field::TwoAdicExtension;

verus! {

impl<F: MerkleField, EF: TwoAdicExtension<F>> Run<F, EF> {
    /// What the queries of the run are checked against.
    pub open spec fn iopp(self, rounds: Rounds<F>) -> Iopp<F, EF> {
        let last = self.at(self.num_vars());
        Iopp {
            rounds,
            log_blowup: self.log_blowup,
            oracles: self.plan.oracles,
            challenges: last.s.challenges,
            betas: last.s.betas,
            point: self.point,
            expected: last.f[0],
            final_codeword: if self.plan.k > 0 {
                Some(self.word((self.num_vars() - self.plan.k) as nat))
            } else {
                None
            },
        }
    }
}

/// The Merkle path of a row of a codeword.
pub open spec fn row_path<F: MerkleField, EF: TwoAdicExtension<F>>(
    rounds: Rounds<F>,
    word: Seq<EF>,
    log_folding: nat,
    index: nat,
) -> Seq<Seq<F>> {
    F::path(rounds, seq![ext_mmcs::ext_matrix::<F, EF>(word, pow2(log_folding))], index)
}

/// The Merkle opening of several rows of a codeword.
pub open spec fn is_rows_path<F: MerkleField, EF: TwoAdicExtension<F>>(
    rounds: Rounds<F>,
    word: Seq<EF>,
    log_folding: nat,
    indices: Seq<usize>,
    proof: mmcs::PrunedModel<F>,
) -> bool {
    &&& mmcs::same_indices(proof.sorted_indices, pruned::unique_indices(indices))
    &&& proof == F::pruned_path(
        rounds,
        seq![ext_mmcs::ext_matrix::<F, EF>(word, pow2(log_folding))],
        proof.sorted_indices,
    )
}

/// The codeword before round `done` of a run.
proof fn lemma_word<F: MerkleField, EF: TwoAdicExtension<F>>(run: Run<F, EF>, done: nat)
    requires
        run.sound(),
        done <= run.num_vars(),
    ensures
        run.word(done).len() == pow2((run.num_vars() - done + run.log_blowup) as nat),
        field::all_valid(run.word(done)),
{
    honest_queries::lemma_run(run, done);
    let f = run.at(done).f;
    assert forall|j: int| 0 <= j < run.word(done).len() implies (
    #[trigger] run.word(done)[j]).valid() by {
        encode::lemma_encoded_valid(f, run.log_blowup, j);
    }
}

impl<F: MerkleField> BaseFoldPcs<F> {
    /// Opens the row of a codeword that a query falls into.
    pub(crate) fn open_word_row<EF: TwoAdicExtension<F>>(
        &self,
        tree: &F::Tree,
        query: usize,
        done: usize,
        log_folding: usize,
        Ghost(root): Ghost<Seq<F>>,
        Ghost(word): Ghost<Seq<EF>>,
        Ghost(log_len): Ghost<nat>,
    ) -> (r: (Vec<EF>, Vec<Vec<F>>))
        requires
            self.commits_to(root, *tree, word, pow2(log_folding as nat)),
            word.len() == pow2(log_len),
            log_folding <= log_len,
            done + log_len < usize::BITS,
            query < pow2(done as nat + log_len),
            field::all_valid(word),
        ensures
            ({
                let lf = log_folding as nat;
                let index = (query as nat / pow2(done as nat)) / pow2(lf);
                &&& r.0@ == honest_queries::word_row(word, lf, index)
                &&& r.0@.len() == pow2(lf)
                &&& ext_mmcs::accepts_row::<F, EF>(
                    self.rounds(),
                    root,
                    pow2((log_len - lf) as nat),
                    index,
                    r.0@,
                    mmcs::rows_of(r.1@),
                )
                &&& mmcs::are_digests(mmcs::rows_of(r.1@))
                &&& mmcs::rows_of(r.1@) == row_path(self.rounds(), word, lf, index)
            }),
    {
        let ghost lf = log_folding as nat;
        let ghost height = pow2((log_len - lf) as nat);
        let index: usize = bits::shift_right(bits::shift_right(query, done), log_folding);
        let width: usize = bits::two_to_the(log_folding);
        proof {
            query::lemma_shifted(query as nat, done as nat + log_len, done as nat);
            query::lemma_shifted(query as nat / pow2(done as nat), log_len, lf);
            lemma_pow2_adds((log_len - lf) as nat, lf);
            lemma_pow2_pos(lf);
            bits::lemma_log2_pow2((log_len - lf) as nat);
            assert(index * pow2(lf) + pow2(lf) <= height * pow2(lf)) by (nonlinear_arith)
                requires
                    index < height,
            ;
        }
        open_row(&self.permutation, index, tree, width, Ghost(word), Ghost(height))
    }

    /// Opens the rows of a codeword that the queries fall into.
    pub(crate) fn open_word_rows<EF: TwoAdicExtension<F>>(
        &self,
        tree: &F::Tree,
        queries: &Vec<usize>,
        done: usize,
        log_folding: usize,
        Ghost(root): Ghost<Seq<F>>,
        Ghost(word): Ghost<Seq<EF>>,
        Ghost(log_len): Ghost<nat>,
    ) -> (r: (Vec<usize>, Vec<Vec<EF>>, PrunedProof<F>))
        requires
            self.commits_to(root, *tree, word, pow2(log_folding as nat)),
            word.len() == pow2(log_len),
            log_folding <= log_len,
            done + log_len < usize::BITS,
            done + log_len <= 32,
            queries@.len() > 0,
            forall|q: int| 0 <= q < queries@.len() ==> (#[trigger] queries@[q]) < pow2(
                done as nat + log_len,
            ),
            field::all_valid(word),
        ensures
            ({
                let lf = log_folding as nat;
                let u = pruned::unique_indices(r.0@);
                &&& r.0@ == honest_pruned::row_numbers(queries@, done as nat, lf)
                &&& forall|q: int|
                    0 <= q < r.0@.len() ==> (#[trigger] r.0@[q]) < pow2((log_len - lf) as nat)
                        && r.0@[q] < 0x1_0000_0000
                &&& mmcs::rows_of(r.1@) == Seq::new(
                    u.len(),
                    |k: int| honest_queries::word_row(word, lf, u[k] as nat),
                )
                &&& ext_mmcs::accepts_rows::<F, EF>(
                    self.rounds(),
                    root,
                    pow2((log_len - lf) as nat),
                    mmcs::rows_of(r.1@),
                    r.2@,
                )
                &&& mmcs::are_digests(r.2@.siblings)
                &&& is_rows_path(self.rounds(), word, lf, r.0@, r.2@)
            }),
    {
        let ghost lf = log_folding as nat;
        let ghost height = pow2((log_len - lf) as nat);
        let n: usize = queries.len();
        let mut indices: Vec<usize> = Vec::new();
        let mut q: usize = 0;
        while q < n
            invariant
                q <= n,
                n == queries@.len(),
                lf == log_folding,
                done < usize::BITS,
                log_folding < usize::BITS,
                indices@.len() == q,
                forall|j: int|
                    0 <= j < q ==> #[trigger] indices@[j] as nat == (queries@[j] as nat / pow2(
                        done as nat,
                    )) / pow2(lf),
            decreases n - q,
        {
            indices.push(bits::shift_right(bits::shift_right(queries[q], done), log_folding));
            q += 1;
        }
        let width: usize = bits::two_to_the(log_folding);
        proof {
            lemma_pow2_adds((log_len - lf) as nat, lf);
            lemma_pow2_pos(lf);
            bits::lemma_log2_pow2((log_len - lf) as nat);
            assert(pow2(32) == 0x1_0000_0000) by {
                lemma2_to64();
            }
            if log_len - lf < 32 {
                lemma_pow2_strictly_increases((log_len - lf) as nat, 32);
            }
            assert forall|j: int| 0 <= j < indices@.len() implies (#[trigger] indices@[j]) < height
                && indices@[j] < 0x1_0000_0000 by {
                assert(queries@[j] < pow2(done as nat + log_len));
                query::lemma_shifted(queries@[j] as nat, done as nat + log_len, done as nat);
                query::lemma_shifted(queries@[j] as nat / pow2(done as nat), log_len, lf);
            }
            assert(indices@ =~= honest_pruned::row_numbers(queries@, done as nat, lf));
        }
        let (rows, proof) = open_rows(
            &self.permutation,
            &indices,
            tree,
            width,
            Ghost(word),
            Ghost(height),
        );
        proof {
            let u = pruned::unique_indices(indices@);
            assert(mmcs::rows_of(rows@) =~= Seq::new(
                u.len(),
                |k: int| honest_queries::word_row(word, lf, u[k] as nat),
            ));
        }
        (indices, rows, proof)
    }
}

/// The schedule whose groups are single rounds.
proof fn lemma_single_rounds(num_vars: nat, k: nat, j: nat)
    requires
        k <= num_vars,
        j <= num_vars - k,
    ensures
        query::rounds_before(schedule::per_round_schedule(num_vars, k), j) == j,
    decreases j,
{
    if j > 0 {
        lemma_single_rounds(num_vars, k, (j - 1) as nat);
    }
}

/// The codewords of a run whose groups are single rounds.
proof fn lemma_single_words<F: MerkleField, EF: TwoAdicExtension<F>>(run: Run<F, EF>, j: nat)
    requires
        run.plan.k <= run.num_vars(),
        run.plan.schedule == schedule::per_round_schedule(run.num_vars(), run.plan.k),
        j < prove_rounds::roots_in_all(run.plan.schedule, run.plan.k),
    ensures
        j <= run.num_vars(),
        prove_rounds::round_at(run.plan.schedule, run.num_vars(), j) == j,
        prove_rounds::width_at(run.plan.schedule, j) == 2,
        run.plan.schedule.len() == run.num_vars() - run.plan.k,
{
    lemma2_to64();
    if j < run.plan.schedule.len() {
        lemma_single_rounds(run.num_vars(), run.plan.k, j);
    }
}

/// The path of the pair of a query.
pub open spec fn pair_path<F: MerkleField, EF: TwoAdicExtension<F>>(
    rounds: Rounds<F>,
    run: Run<F, EF>,
    query: nat,
    i: nat,
) -> Seq<Seq<F>> {
    row_path(rounds, run.word(i), 1, (query / pow2(i)) / 2)
}

impl<F: MerkleField> BaseFoldPcs<F> {
    /// The answer to a query, round by round.
    #[verifier::spinoff_prover]
    #[verifier::rlimit(50)]
    pub(crate) fn answer_query<EF: TwoAdicExtension<F>>(
        &self,
        trees: &Vec<F::Tree>,
        query: usize,
        Ghost(run): Ghost<Run<F, EF>>,
    ) -> (r: QueryProof<F, EF>)
        requires
            run.sound(),
            run.plan.k <= run.num_vars(),
            run.plan.schedule == schedule::per_round_schedule(run.num_vars(), run.plan.k),
            self.rounds_made(run, trees@),
            run.log_blowup == self.fri.log_blowup,
            run.log_blowup >= 1,
            query < pow2(run.num_vars() + run.log_blowup),
        ensures
            r.commit_phase_openings@.len() == trees@.len(),
            honest_queries::pairs_opened(
                run,
                run.iopp(self.rounds()),
                r.commit_phase_openings@,
                query as nat,
                trees@.len(),
            ),
            forall|i: int|
                0 <= i < trees@.len() ==> mmcs::rows_of(
                    (#[trigger] r.commit_phase_openings@[i]).opening_proof@,
                ) == pair_path(self.rounds(), run, query as nat, i as nat),
            query::steps_wf(r.commit_phase_openings@),
    {
        let ghost c = run.iopp(self.rounds());
        let ghost n = run.num_vars();
        let count: usize = trees.len();
        let mut steps: Vec<CommitPhaseProofStep<F, EF>> = Vec::new();
        let mut i: usize = 0;
        while i < count
            invariant
                i <= count,
                count == trees@.len(),
                run.sound(),
                run.plan.k <= run.num_vars(),
                run.plan.schedule == schedule::per_round_schedule(run.num_vars(), run.plan.k),
                self.rounds_made(run, trees@),
                run.log_blowup == self.fri.log_blowup,
                run.log_blowup >= 1,
                query < pow2(run.num_vars() + run.log_blowup),
                c == run.iopp(self.rounds()),
                n == run.num_vars(),
                steps@.len() == i,
                forall|j: nat|
                    j < i ==> #[trigger] honest_queries::pair_opened(
                        run,
                        c,
                        steps@,
                        query as nat,
                        j,
                    ),
                forall|j: int|
                    0 <= j < i ==> mmcs::rows_of((#[trigger] steps@[j]).opening_proof@)
                        == pair_path(self.rounds(), run, query as nat, j as nat),
                query::steps_wf(steps@),
            decreases count - i,
        {
            let ghost word = run.word(i as nat);
            proof {
                honest_queries::lemma_run(run, n);
                lemma_single_words(run, i as nat);
                lemma_word(run, i as nat);
                lemma2_to64();
                assert(self.commits_to(
                    run.plan.oracles[i as int],
                    trees@[i as int],
                    run.word(prove_rounds::round_at(run.plan.schedule, n, i as nat)),
                    prove_rounds::width_at(run.plan.schedule, i as nat),
                ));
            }
            let (row, path) = self.open_word_row(
                &trees[i],
                query,
                i,
                1,
                Ghost(run.plan.oracles[i as int]),
                Ghost(word),
                Ghost((n - i + run.log_blowup) as nat),
            );
            let at: usize = bits::shift_right(query, i);
            let ghost j = at as int / 2;
            proof {
                query::lemma_shifted(query as nat, n + run.log_blowup, i as nat);
                lemma_pow2_unfold((n - i + run.log_blowup) as nat);
                assert(row@ =~= seq![word[2 * j], word[2 * j + 1]]);
                assert(word[2 * j].valid() && word[2 * j + 1].valid());
            }
            let sibling: EF = if at % 2 == 0 {
                row[1]
            } else {
                row[0]
            };
            let ghost old_steps = steps@;
            steps.push(CommitPhaseProofStep { sibling_value: sibling, opening_proof: path });
            proof {
                assert(c.log_len(i as nat) == n - i + run.log_blowup);
                assert forall|m: nat| m < i + 1 implies #[trigger] honest_queries::pair_opened(
                    run,
                    c,
                    steps@,
                    query as nat,
                    m,
                ) by {
                    if m < i {
                        assert(honest_queries::pair_opened(run, c, old_steps, query as nat, m));
                        assert(steps@[m as int] == old_steps[m as int]);
                    }
                }
                assert forall|m: int| 0 <= m < i + 1 implies mmcs::rows_of(
                    (#[trigger] steps@[m]).opening_proof@,
                ) == pair_path(self.rounds(), run, query as nat, m as nat) by {
                    if m < i {
                        assert(steps@[m] == old_steps[m]);
                    }
                }
            }
            i += 1;
        }
        QueryProof { commit_phase_openings: steps }
    }

    /// The answer to a query, group by group.
    #[verifier::spinoff_prover]
    #[verifier::rlimit(50)]
    pub(crate) fn answer_cross_round<EF: TwoAdicExtension<F>>(
        &self,
        trees: &Vec<F::Tree>,
        schedule: &Vec<CommitGroup>,
        query: usize,
        Ghost(run): Ghost<Run<F, EF>>,
    ) -> (r: CrossRoundQueryProof<F, EF>)
        requires
            run.sound(),
            run.plan.k <= run.num_vars(),
            run.plan.schedule == schedule@,
            schedule::tiles(schedule@, run.num_vars(), run.plan.k),
            self.rounds_made(run, trees@),
            run.log_blowup == self.fri.log_blowup,
            query < pow2(run.num_vars() + run.log_blowup),
        ensures
            r.group_openings@.len() == schedule@.len(),
            honest_queries::rows_opened(
                run,
                run.iopp(self.rounds()),
                schedule@,
                r.group_openings@,
                query as nat,
            ),
            forall|g: int|
                0 <= g < schedule@.len() ==> mmcs::rows_of(
                    (#[trigger] r.group_openings@[g]).opening_proof@,
                ) == group_path(self.rounds(), run, query as nat, g as nat),
            query::group_steps_wf(r.group_openings@),
    {
        let ghost c = run.iopp(self.rounds());
        let ghost n = run.num_vars();
        let count: usize = schedule.len();
        let mut steps: Vec<CrossRoundProofStep<F, EF>> = Vec::new();
        let mut done: usize = 0;
        let mut g: usize = 0;
        while g < count
            invariant
                g <= count,
                count == schedule@.len(),
                done == query::rounds_before(schedule@, g as nat),
                run.sound(),
                run.plan.k <= run.num_vars(),
                run.plan.schedule == schedule@,
                schedule::tiles(schedule@, run.num_vars(), run.plan.k),
                self.rounds_made(run, trees@),
                run.log_blowup == self.fri.log_blowup,
                query < pow2(run.num_vars() + run.log_blowup),
                c == run.iopp(self.rounds()),
                n == run.num_vars(),
                steps@.len() == g,
                forall|j: nat|
                    j < g ==> #[trigger] honest_queries::row_opened(
                        run,
                        c,
                        schedule@,
                        steps@,
                        query as nat,
                        j,
                    ),
                forall|j: int|
                    0 <= j < g ==> mmcs::rows_of((#[trigger] steps@[j]).opening_proof@)
                        == group_path(self.rounds(), run, query as nat, j as nat),
                query::group_steps_wf(steps@),
            decreases count - g,
        {
            let ghost word = run.word(done as nat);
            proof {
                honest_queries::lemma_run(run, n);
                prove_rounds::lemma_starts(schedule@, n, run.plan.k, g as nat);
                lemma_word(run, done as nat);
                assert(self.commits_to(
                    run.plan.oracles[g as int],
                    trees@[g as int],
                    run.word(prove_rounds::round_at(run.plan.schedule, n, g as nat)),
                    prove_rounds::width_at(run.plan.schedule, g as nat),
                ));
            }
            let lf: usize = schedule[g].log_folding;
            let (row, path) = self.open_word_row(
                &trees[g],
                query,
                done,
                lf,
                Ghost(run.plan.oracles[g as int]),
                Ghost(word),
                Ghost((n - done + run.log_blowup) as nat),
            );
            let ghost old_steps = steps@;
            proof {
                let len = (n - done + run.log_blowup) as nat;
                let index = (query as nat / pow2(done as nat)) / pow2(lf as nat);
                query::lemma_shifted(query as nat, n + run.log_blowup, done as nat);
                query::lemma_shifted(query as nat / pow2(done as nat), len, lf as nat);
                lemma_pow2_adds((len - lf) as nat, lf as nat);
                lemma_row_in_word(word, lf as nat, index, pow2((len - lf) as nat));
            }
            steps.push(CrossRoundProofStep { row_values: row, opening_proof: path });
            proof {
                assert(c.log_len(done as nat) == n - done + run.log_blowup);
                assert forall|m: nat| m < g + 1 implies #[trigger] honest_queries::row_opened(
                    run,
                    c,
                    schedule@,
                    steps@,
                    query as nat,
                    m,
                ) by {
                    if m < g {
                        assert(honest_queries::row_opened(
                            run,
                            c,
                            schedule@,
                            old_steps,
                            query as nat,
                            m,
                        ));
                        assert(steps@[m as int] == old_steps[m as int]);
                    }
                }
                assert forall|m: int| 0 <= m < g + 1 implies mmcs::rows_of(
                    (#[trigger] steps@[m]).opening_proof@,
                ) == group_path(self.rounds(), run, query as nat, m as nat) by {
                    if m < g {
                        assert(steps@[m] == old_steps[m]);
                    }
                }
            }
            done = done + lf;
            g += 1;
        }
        CrossRoundQueryProof { group_openings: steps }
    }
}

/// A row of a codeword lies within it, so that its entries are canonical.
proof fn lemma_row_in_word<EF: field::Field>(word: Seq<EF>, lf: nat, index: nat, height: nat)
    requires
        field::all_valid(word),
        word.len() == height * pow2(lf),
        index < height,
    ensures
        field::all_valid(honest_queries::word_row(word, lf, index)),
        honest_queries::word_row(word, lf, index).len() == pow2(lf),
{
    assert(index * pow2(lf) + pow2(lf) <= height * pow2(lf)) by (nonlinear_arith)
        requires
            index < height,
    ;
    let row = honest_queries::word_row(word, lf, index);
    assert forall|i: int| 0 <= i < row.len() implies (#[trigger] row[i]).valid() by {
        assert(row[i] == word[index * pow2(lf) + i]);
    }
}

/// The path of the row of a query in the codeword of a group.
pub open spec fn group_path<F: MerkleField, EF: TwoAdicExtension<F>>(
    rounds: Rounds<F>,
    run: Run<F, EF>,
    query: nat,
    g: nat,
) -> Seq<Seq<F>> {
    let done = query::rounds_before(run.plan.schedule, g);
    let lf = run.plan.schedule[g as int].log_folding as nat;
    row_path(rounds, run.word(done), lf, (query / pow2(done)) / pow2(lf))
}

/// The place of each index among the distinct ones.
pub open spec fn are_slots(slots: Seq<u32>, indices: Seq<usize>) -> bool {
    let u = pruned::unique_indices(indices);
    &&& slots.len() == indices.len()
    &&& forall|q: int|
        0 <= q < slots.len() ==> (#[trigger] slots[q]) < u.len() && u[slots[q] as int] == indices[q]
}

/// Ascending numbers are at least as great as their places.
proof fn lemma_at_least(u: Seq<usize>, k: nat)
    requires
        pruned::ascending(u),
        k < u.len(),
    ensures
        u[k as int] >= k,
    decreases k,
{
    if k > 0 {
        lemma_at_least(u, (k - 1) as nat);
        assert(u[k - 1] < u[k as int]);
    }
}

/// The place of each index among the distinct ones.
pub(crate) fn find_slots(indices: &Vec<usize>) -> (r: Vec<u32>)
    requires
        forall|q: int| 0 <= q < indices@.len() ==> (#[trigger] indices@[q]) < 0x1_0000_0000,
    ensures
        are_slots(r@, indices@),
{
    let unique = sort_unique(indices);
    let n: usize = indices.len();
    let mut r: Vec<u32> = Vec::new();
    let mut q: usize = 0;
    while q < n
        invariant
            q <= n,
            n == indices@.len(),
            unique@ == pruned::unique_indices(indices@),
            forall|q: int| 0 <= q < indices@.len() ==> (#[trigger] indices@[q]) < 0x1_0000_0000,
            r@.len() == q,
            forall|j: int|
                0 <= j < q ==> (#[trigger] r@[j]) < unique@.len() && unique@[r@[j] as int]
                    == indices@[j],
        decreases n - q,
    {
        proof {
            pruned::law_unique_indices(indices@);
            assert(indices@.contains(indices@[q as int]));
        }
        let k: usize = find_index(&unique, indices[q]);
        proof {
            lemma_at_least(unique@, k as nat);
        }
        r.push(k as u32);
        q += 1;
    }
    r
}

/// The rows of the table as its columns.
pub(crate) fn transpose<EF: Copy>(rows: &Vec<Vec<EF>>, n: usize) -> (r: Vec<Vec<EF>>)
    requires
        forall|i: int| 0 <= i < rows@.len() ==> (#[trigger] rows@[i])@.len() == n,
    ensures
        r@.len() == n,
        forall|q: int| 0 <= q < n ==> (#[trigger] r@[q])@.len() == rows@.len(),
        forall|q: int, i: int|
            0 <= q < n && 0 <= i < rows@.len() ==> #[trigger] r@[q]@[i] == rows@[i]@[q],
{
    let count: usize = rows.len();
    let mut r: Vec<Vec<EF>> = Vec::new();
    let mut q: usize = 0;
    while q < n
        invariant
            q <= n,
            count == rows@.len(),
            forall|i: int| 0 <= i < rows@.len() ==> (#[trigger] rows@[i])@.len() == n,
            r@.len() == q,
            forall|j: int| 0 <= j < q ==> (#[trigger] r@[j])@.len() == rows@.len(),
            forall|j: int, i: int|
                0 <= j < q && 0 <= i < rows@.len() ==> #[trigger] r@[j]@[i] == rows@[i]@[j],
        decreases n - q,
    {
        let mut column: Vec<EF> = Vec::new();
        let mut i: usize = 0;
        while i < count
            invariant
                i <= count,
                q < n,
                count == rows@.len(),
                forall|i: int| 0 <= i < rows@.len() ==> (#[trigger] rows@[i])@.len() == n,
                column@.len() == i,
                forall|j: int| 0 <= j < i ==> #[trigger] column@[j] == rows@[j]@[q as int],
            decreases count - i,
        {
            assert(rows@[i as int]@.len() == n);
            column.push(rows[i][q]);
            i += 1;
        }
        r.push(column);
        q += 1;
    }
    r
}

/// The Merkle opening of the pairs of the queries in a round.
pub open spec fn is_pairs_path<F: MerkleField, EF: TwoAdicExtension<F>>(
    rounds: Rounds<F>,
    run: Run<F, EF>,
    queries: Seq<usize>,
    proof: mmcs::PrunedModel<F>,
    i: nat,
) -> bool {
    is_rows_path(
        rounds,
        run.word(i),
        1,
        honest_pruned::row_numbers(queries, i, 1),
        proof,
    )
}

/// The Merkle opening of the rows of the queries in a group.
pub open spec fn is_group_path<F: MerkleField, EF: TwoAdicExtension<F>>(
    rounds: Rounds<F>,
    run: Run<F, EF>,
    queries: Seq<usize>,
    proof: mmcs::PrunedModel<F>,
    g: nat,
) -> bool {
    let done = query::rounds_before(run.plan.schedule, g);
    let lf = run.plan.schedule[g as int].log_folding as nat;
    is_rows_path(
        rounds,
        run.word(done),
        lf,
        honest_pruned::row_numbers(queries, done, lf),
        proof,
    )
}

/// The other entries of the pairs of the queries in a round.
pub open spec fn others<F: MerkleField, EF: TwoAdicExtension<F>>(
    run: Run<F, EF>,
    queries: Seq<usize>,
    i: nat,
) -> Seq<EF> {
    Seq::new(
        queries.len(),
        |q: int|
            if (queries[q] as nat / pow2(i)) % 2 == 0 {
                run.word(i)[2 * ((queries[q] as nat / pow2(i)) / 2) as int + 1]
            } else {
                run.word(i)[2 * ((queries[q] as nat / pow2(i)) / 2) as int]
            },
    )
}

/// A halved quotient is a machine number.
pub(crate) proof fn lemma_halved(query: usize, i: nat)
    ensures
        ((query as nat / pow2(i)) / pow2(1)) as usize as nat == (query as nat / pow2(i)) / 2,
        pow2(1) == 2,
{
    lemma2_to64();
    lemma_pow2_pos(i);
    vstd::arithmetic::div_mod::lemma_div_is_ordered_by_denominator(
        query as int,
        1,
        pow2(i) as int,
    );
    vstd::arithmetic::div_mod::lemma_div_basics(query as int);
}

/// The rows that the queries of a round fall into are the pairs of the codeword at their places.
proof fn lemma_pair_rows<EF>(
    queries: Seq<usize>,
    i: nat,
    word: Seq<EF>,
    len: nat,
    indices: Seq<usize>,
)
    requires
        indices == honest_pruned::row_numbers(queries, i, 1),
        len >= 1,
        word.len() == pow2(len),
        forall|q: int| 0 <= q < indices.len() ==> (#[trigger] indices[q]) < pow2((len - 1) as nat),
    ensures
        pow2(len) == 2 * pow2((len - 1) as nat),
        forall|q: int|
            0 <= q < indices.len() ==> (#[trigger] indices[q]) as nat == (queries[q] as nat / pow2(
                i,
            )) / 2,
        ({
            let u = pruned::unique_indices(indices);
            Seq::new(u.len(), |k: int| honest_queries::word_row(word, 1, u[k] as nat)) == Seq::new(
                u.len(),
                |k: int| honest_pruned::pair_at(word, u[k] as int),
            )
        }),
{
    lemma2_to64();
    lemma_pow2_unfold(len);
    pruned::law_unique_indices(indices);
    assert forall|q: int| 0 <= q < indices.len() implies (#[trigger] indices[q]) as nat == (
    queries[q] as nat / pow2(i)) / 2 by {
        lemma_halved(queries[q], i);
    }
    let u = pruned::unique_indices(indices);
    let rows = Seq::new(u.len(), |k: int| honest_queries::word_row(word, 1, u[k] as nat));
    let pairs = Seq::new(u.len(), |k: int| honest_pruned::pair_at(word, u[k] as int));
    assert forall|k: int| 0 <= k < u.len() implies rows[k] == pairs[k] by {
        assert(u.contains(u[k]));
        assert(indices.contains(u[k]));
        let q = indices.index_of(u[k]);
        assert(indices[q] < pow2((len - 1) as nat));
        assert(rows[k] =~= pairs[k]);
    }
    assert(rows =~= pairs);
}

impl<F: MerkleField> BaseFoldPcs<F> {
    /// The answers to all queries for one round, with shared Merkle paths.
    #[verifier::spinoff_prover]
    #[verifier::rlimit(50)]
    fn answer_round_pruned<EF: TwoAdicExtension<F>>(
        &self,
        trees: &Vec<F::Tree>,
        queries: &Vec<usize>,
        i: usize,
        Ghost(run): Ghost<Run<F, EF>>,
    ) -> (r: (Vec<EF>, Vec<u32>, PrunedProof<F>))
        requires
            run.sound(),
            run.plan.k <= run.num_vars(),
            run.plan.schedule == schedule::per_round_schedule(run.num_vars(), run.plan.k),
            self.rounds_made(run, trees@),
            run.log_blowup == self.fri.log_blowup,
            run.log_blowup >= 1,
            run.num_vars() + run.log_blowup <= 32,
            queries@.len() > 0,
            honest_pruned::in_word(run, queries@),
            i < trees@.len(),
        ensures
            r.0@ == others(run, queries@, i as nat),
            field::all_valid(r.0@),
            are_slots(r.1@, honest_pruned::row_numbers(queries@, i as nat, 1)),
            is_pairs_path(self.rounds(), run, queries@, r.2@, i as nat),
            mmcs::are_digests(r.2@.siblings),
            ({
                let u = pruned::unique_indices(honest_pruned::row_numbers(queries@, i as nat, 1));
                ext_mmcs::accepts_rows::<F, EF>(
                    self.rounds(),
                    run.plan.oracles[i as int],
                    pow2((run.num_vars() - i + run.log_blowup - 1) as nat),
                    Seq::new(
                        u.len(),
                        |k: int| honest_pruned::pair_at(run.word(i as nat), u[k] as int),
                    ),
                    r.2@,
                )
            }),
    {
        let ghost n = run.num_vars();
        let ghost word = run.word(i as nat);
        let ghost len = (n - i + run.log_blowup) as nat;
        proof {
            lemma_single_words(run, i as nat);
            lemma_word(run, i as nat);
            lemma2_to64();
            lemma_pow2_unfold(len);
            assert(self.commits_to(
                run.plan.oracles[i as int],
                trees@[i as int],
                run.word(prove_rounds::round_at(run.plan.schedule, n, i as nat)),
                prove_rounds::width_at(run.plan.schedule, i as nat),
            ));
            assert forall|q: int| 0 <= q < queries@.len() implies (#[trigger] queries@[q]) < pow2(
                i as nat + len,
            ) by {}
        }
        let (indices, rows, proof) = self.open_word_rows(
            &trees[i],
            queries,
            i,
            1,
            Ghost(run.plan.oracles[i as int]),
            Ghost(word),
            Ghost(len),
        );
        let ghost u = pruned::unique_indices(indices@);
        let ghost pairs = Seq::new(u.len(), |k: int| honest_pruned::pair_at(word, u[k] as int));
        proof {
            lemma_pair_rows(queries@, i as nat, word, len, indices@);
            assert(mmcs::rows_of(rows@) == pairs);
        }
        let slots = find_slots(&indices);
        let count: usize = queries.len();
        let mut values: Vec<EF> = Vec::new();
        let mut q: usize = 0;
        while q < count
            invariant
                q <= count,
                count == queries@.len(),
                i < usize::BITS,
                word == run.word(i as nat),
                word.len() == pow2(len),
                pow2(len) == 2 * pow2((len - 1) as nat),
                field::all_valid(word),
                u == pruned::unique_indices(indices@),
                pairs == Seq::new(u.len(), |k: int| honest_pruned::pair_at(word, u[k] as int)),
                mmcs::rows_of(rows@) == pairs,
                indices@.len() == queries@.len(),
                are_slots(slots@, indices@),
                forall|q: int|
                    0 <= q < indices@.len() ==> (#[trigger] indices@[q]) < pow2((len - 1) as nat)
                        && indices@[q] as nat == (queries@[q] as nat / pow2(i as nat)) / 2,
                values@.len() == q,
                forall|j: int|
                    0 <= j < q ==> #[trigger] values@[j] == others(run, queries@, i as nat)[j]
                        && values@[j].valid(),
            decreases count - q,
        {
            let at: usize = bits::shift_right(queries[q], i);
            proof {
                assert(slots@[q as int] < u.len() && u[slots@[q as int] as int] == indices@[q as int]);
                assert(indices@[q as int] < pow2((len - 1) as nat));
                let k = slots@[q as int] as int;
                assert(mmcs::rows_of(rows@).len() == rows@.len());
                assert(mmcs::rows_of(rows@)[k] == rows@[k]@);
                assert(pairs[k] == honest_pruned::pair_at(word, indices@[q as int] as int));
                assert(word[2 * indices@[q as int]].valid());
                assert(word[2 * indices@[q as int] + 1].valid());
            }
            let row: &Vec<EF> = &rows[slots[q] as usize];
            values.push(
                if at % 2 == 0 {
                    row[1]
                } else {
                    row[0]
                },
            );
            q += 1;
        }
        assert(values@ =~= others(run, queries@, i as nat));
        (values, slots, proof)
    }

    /// The answers to all queries with shared Merkle paths, round by round.
    #[verifier::spinoff_prover]
    #[verifier::rlimit(50)]
    pub(crate) fn answer_queries_pruned<EF: TwoAdicExtension<F>>(
        &self,
        trees: &Vec<F::Tree>,
        queries: &Vec<usize>,
        Ghost(run): Ghost<Run<F, EF>>,
    ) -> (r: PrunedFriQueryProof<F, EF>)
        requires
            run.sound(),
            run.plan.k <= run.num_vars(),
            run.plan.schedule == schedule::per_round_schedule(run.num_vars(), run.plan.k),
            self.rounds_made(run, trees@),
            run.log_blowup == self.fri.log_blowup,
            run.log_blowup >= 1,
            run.num_vars() + run.log_blowup <= 32,
            queries@.len() > 0,
            honest_pruned::in_word(run, queries@),
        ensures
            self.pruned_answers_made(run, queries@, r),
    {
        let ghost c = run.iopp(self.rounds());
        let ghost n = run.num_vars();
        let count: usize = trees.len();
        let mut proofs: Vec<PrunedProof<F>> = Vec::new();
        let mut by_round: Vec<Vec<EF>> = Vec::new();
        let mut slots: Vec<Vec<u32>> = Vec::new();
        let mut i: usize = 0;
        while i < count
            invariant
                i <= count,
                count == trees@.len(),
                n == run.num_vars(),
                run.sound(),
                run.plan.k <= run.num_vars(),
                run.plan.schedule == schedule::per_round_schedule(run.num_vars(), run.plan.k),
                self.rounds_made(run, trees@),
                run.log_blowup == self.fri.log_blowup,
                run.log_blowup >= 1,
                run.num_vars() + run.log_blowup <= 32,
                queries@.len() > 0,
                honest_pruned::in_word(run, queries@),
                proofs@.len() == i,
                by_round@.len() == i,
                slots@.len() == i,
                pruned::proofs_wf(proofs@),
                forall|j: int|
                    0 <= j < i ==> (#[trigger] by_round@[j])@ == others(run, queries@, j as nat)
                        && field::all_valid(by_round@[j]@),
                forall|j: int|
                    0 <= j < i ==> are_slots(
                        (#[trigger] slots@[j])@,
                        honest_pruned::row_numbers(queries@, j as nat, 1),
                    ),
                forall|j: int|
                    0 <= j < i ==> is_pairs_path(
                        self.rounds(),
                        run,
                        queries@,
                        (#[trigger] proofs@[j])@,
                        j as nat,
                    ),
                forall|j: int|
                    0 <= j < i ==> ({
                        let u = pruned::unique_indices(
                            honest_pruned::row_numbers(queries@, j as nat, 1),
                        );
                        ext_mmcs::accepts_rows::<F, EF>(
                            self.rounds(),
                            run.plan.oracles[j],
                            pow2((n - j + run.log_blowup - 1) as nat),
                            Seq::new(
                                u.len(),
                                |k: int| honest_pruned::pair_at(run.word(j as nat), u[k] as int),
                            ),
                            (#[trigger] proofs@[j])@,
                        )
                    }),
            decreases count - i,
        {
            let (values, places, proof) = self.answer_round_pruned(trees, queries, i, Ghost(run));
            by_round.push(values);
            slots.push(places);
            proofs.push(proof);
            i += 1;
        }
        proof {
            assert forall|j: int| 0 <= j < by_round@.len() implies (
            #[trigger] by_round@[j])@.len() == queries@.len() by {
                assert(by_round@[j]@ == others(run, queries@, j as nat));
            }
        }
        let siblings = transpose(&by_round, queries.len());
        let r = PrunedFriQueryProof {
            round_pruned_proofs: proofs,
            sibling_values: siblings,
            query_to_unique_slot: slots,
        };
        proof {
            honest_queries::lemma_run(run, n);
            let rows = mmcs::rows_of(r.sibling_values@);
            let models = pruned::proof_models(r.round_pruned_proofs@);
            assert forall|j: nat| j < count implies #[trigger] honest_pruned::pairs_shared(
                run,
                c,
                queries@,
                rows,
                models,
                j,
            ) by {
                lemma_single_words(run, j);
                assert(by_round@[j as int]@ == others(run, queries@, j));
                assert forall|q: int| 0 <= q < queries@.len() implies (#[trigger] rows[q])[j as int]
                    == others(run, queries@, j)[q] by {
                    assert(siblings@[q]@[j as int] == by_round@[j as int]@[q]);
                }
                assert(models[j as int] == proofs@[j as int]@);
                assert(c.log_len(j) == n - j + run.log_blowup);
            }
            assert forall|q: int| 0 <= q < rows.len() implies field::all_valid(
                #[trigger] rows[q],
            ) by {
                assert forall|j: int| 0 <= j < rows[q].len() implies (
                #[trigger] rows[q][j]).valid() by {
                    assert(siblings@[q]@[j] == by_round@[j]@[q]);
                    assert(field::all_valid(by_round@[j]@));
                }
            }
        }
        r
    }

    /// The answers to all queries, round by round, are those of the run.
    pub open spec fn pruned_answers_made<EF: TwoAdicExtension<F>>(
        self,
        run: Run<F, EF>,
        queries: Seq<usize>,
        r: PrunedFriQueryProof<F, EF>,
    ) -> bool {
        let rounds = run.plan.oracles.len();
        &&& r.round_pruned_proofs@.len() == rounds
        &&& r.query_to_unique_slot@.len() == rounds
        &&& r.sibling_values@.len() == queries.len()
        &&& forall|q: int|
            0 <= q < queries.len() ==> (#[trigger] r.sibling_values@[q])@.len() == rounds
        &&& forall|j: nat|
            j < rounds ==> #[trigger] honest_pruned::pairs_shared(
                run,
                run.iopp(self.rounds()),
                queries,
                mmcs::rows_of(r.sibling_values@),
                pruned::proof_models(r.round_pruned_proofs@),
                j,
            )
        &&& forall|j: int|
            0 <= j < rounds ==> are_slots(
                (#[trigger] r.query_to_unique_slot@[j])@,
                honest_pruned::row_numbers(queries, j as nat, 1),
            )
        &&& forall|j: int|
            0 <= j < rounds ==> is_pairs_path(
                self.rounds(),
                run,
                queries,
                (#[trigger] r.round_pruned_proofs@[j])@,
                j as nat,
            )
        &&& pruned::proofs_wf(r.round_pruned_proofs@)
        &&& mmcs::rows_valid(mmcs::rows_of(r.sibling_values@))
    }

    /// The answers to all queries, group by group, are those of the run.
    pub open spec fn group_answers_made<EF: TwoAdicExtension<F>>(
        self,
        run: Run<F, EF>,
        queries: Seq<usize>,
        r: CrossRoundPrunedOpenings<F, EF>,
    ) -> bool {
        let s = run.plan.schedule;
        &&& r.group_pruned@.len() == s.len()
        &&& r.query_to_unique_slot@.len() == s.len()
        &&& r.group_opened_rows@.len() == s.len()
        &&& forall|j: nat|
            j < s.len() ==> #[trigger] honest_pruned::rows_shared(
                run,
                run.iopp(self.rounds()),
                s,
                queries,
                mmcs::row_sets_of(r.group_opened_rows@),
                pruned::proof_models(r.group_pruned@),
                j,
            )
        &&& forall|j: int|
            0 <= j < s.len() ==> are_slots(
                (#[trigger] r.query_to_unique_slot@[j])@,
                honest_pruned::row_numbers(
                    queries,
                    query::rounds_before(s, j as nat),
                    s[j].log_folding as nat,
                ),
            )
        &&& forall|j: int|
            0 <= j < s.len() ==> is_group_path(
                self.rounds(),
                run,
                queries,
                (#[trigger] r.group_pruned@[j])@,
                j as nat,
            )
        &&& pruned::proofs_wf(r.group_pruned@)
        &&& mmcs::row_sets_valid(mmcs::row_sets_of(r.group_opened_rows@))
    }

    /// The answers to all queries with shared Merkle paths, group by group.
    #[verifier::spinoff_prover]
    #[verifier::rlimit(50)]
    pub(crate) fn answer_groups_pruned<EF: TwoAdicExtension<F>>(
        &self,
        trees: &Vec<F::Tree>,
        schedule: &Vec<CommitGroup>,
        queries: &Vec<usize>,
        Ghost(run): Ghost<Run<F, EF>>,
    ) -> (r: CrossRoundPrunedOpenings<F, EF>)
        requires
            run.sound(),
            run.plan.k <= run.num_vars(),
            run.plan.schedule == schedule@,
            schedule::tiles(schedule@, run.num_vars(), run.plan.k),
            self.rounds_made(run, trees@),
            run.log_blowup == self.fri.log_blowup,
            run.num_vars() + run.log_blowup <= 32,
            queries@.len() > 0,
            honest_pruned::in_word(run, queries@),
        ensures
            self.group_answers_made(run, queries@, r),
    {
        let ghost c = run.iopp(self.rounds());
        let ghost n = run.num_vars();
        let count: usize = schedule.len();
        let mut proofs: Vec<PrunedProof<F>> = Vec::new();
        let mut opened: Vec<Vec<Vec<EF>>> = Vec::new();
        let mut slots: Vec<Vec<u32>> = Vec::new();
        let mut done: usize = 0;
        let mut g: usize = 0;
        while g < count
            invariant
                g <= count,
                count == schedule@.len(),
                n == run.num_vars(),
                done == query::rounds_before(schedule@, g as nat),
                c == run.iopp(self.rounds()),
                run.sound(),
                run.plan.k <= run.num_vars(),
                run.plan.schedule == schedule@,
                schedule::tiles(schedule@, run.num_vars(), run.plan.k),
                self.rounds_made(run, trees@),
                run.log_blowup == self.fri.log_blowup,
                run.num_vars() + run.log_blowup <= 32,
                queries@.len() > 0,
                honest_pruned::in_word(run, queries@),
                proofs@.len() == g,
                opened@.len() == g,
                slots@.len() == g,
                pruned::proofs_wf(proofs@),
                mmcs::row_sets_valid(mmcs::row_sets_of(opened@)),
                forall|j: nat|
                    j < g ==> #[trigger] honest_pruned::rows_shared(
                        run,
                        c,
                        schedule@,
                        queries@,
                        mmcs::row_sets_of(opened@),
                        pruned::proof_models(proofs@),
                        j,
                    ),
                forall|j: int|
                    0 <= j < g ==> are_slots(
                        (#[trigger] slots@[j])@,
                        honest_pruned::row_numbers(
                            queries@,
                            query::rounds_before(schedule@, j as nat),
                            schedule@[j].log_folding as nat,
                        ),
                    ),
                forall|j: int|
                    0 <= j < g ==> is_group_path(
                        self.rounds(),
                        run,
                        queries@,
                        (#[trigger] proofs@[j])@,
                        j as nat,
                    ),
            decreases count - g,
        {
            let ghost word = run.word(done as nat);
            let ghost len = (n - done + run.log_blowup) as nat;
            let lf: usize = schedule[g].log_folding;
            proof {
                honest_queries::lemma_run(run, n);
                prove_rounds::lemma_starts(schedule@, n, run.plan.k, g as nat);
                lemma_word(run, done as nat);
                assert(self.commits_to(
                    run.plan.oracles[g as int],
                    trees@[g as int],
                    run.word(prove_rounds::round_at(run.plan.schedule, n, g as nat)),
                    prove_rounds::width_at(run.plan.schedule, g as nat),
                ));
                assert forall|q: int| 0 <= q < queries@.len() implies (
                #[trigger] queries@[q]) < pow2(done as nat + len) by {}
            }
            let (indices, rows, proof) = self.open_word_rows(
                &trees[g],
                queries,
                done,
                lf,
                Ghost(run.plan.oracles[g as int]),
                Ghost(word),
                Ghost(len),
            );
            let ghost u = pruned::unique_indices(indices@);
            let ghost height = pow2((len - lf) as nat);
            proof {
                pruned::law_unique_indices(indices@);
                lemma_pow2_adds((len - lf) as nat, lf as nat);
                assert forall|k: int| 0 <= k < rows@.len() implies field::all_valid(
                    (#[trigger] rows@[k])@,
                ) by {
                    assert(mmcs::rows_of(rows@).len() == rows@.len());
                    assert(u.contains(u[k]));
                    assert(indices@.contains(u[k]));
                    let q = indices@.index_of(u[k]);
                    assert(indices@[q] < height);
                    lemma_row_in_word(word, lf as nat, u[k] as nat, height);
                    assert(mmcs::rows_of(rows@)[k] == rows@[k]@);
                }
            }
            let places = find_slots(&indices);
            let ghost old_opened = opened@;
            let ghost old_proofs = proofs@;
            let ghost old_slots = slots@;
            opened.push(rows);
            proofs.push(proof);
            slots.push(places);
            proof {
                assert(c.log_len(done as nat) == len);
                let sets = mmcs::row_sets_of(opened@);
                let models = pruned::proof_models(proofs@);
                assert(sets[g as int] == mmcs::rows_of(rows@));
                assert(models[g as int] == proof@);
                assert forall|j: nat| j < g + 1 implies #[trigger] honest_pruned::rows_shared(
                    run,
                    c,
                    schedule@,
                    queries@,
                    sets,
                    models,
                    j,
                ) by {
                    if j < g {
                        assert(honest_pruned::rows_shared(
                            run,
                            c,
                            schedule@,
                            queries@,
                            mmcs::row_sets_of(old_opened),
                            pruned::proof_models(old_proofs),
                            j,
                        ));
                        assert(sets[j as int] == mmcs::row_sets_of(old_opened)[j as int]);
                        assert(models[j as int] == pruned::proof_models(old_proofs)[j as int]);
                    }
                }
                assert forall|j: int| 0 <= j < sets.len() implies mmcs::rows_valid(
                    #[trigger] sets[j],
                ) by {
                    if j < g {
                        assert(sets[j] == mmcs::row_sets_of(old_opened)[j]);
                    } else {
                        assert forall|k: int| 0 <= k < sets[j].len() implies field::all_valid(
                            #[trigger] sets[j][k],
                        ) by {
                            assert(sets[j][k] == rows@[k]@);
                        }
                    }
                }
            }
            done = done + lf;
            g += 1;
        }
        CrossRoundPrunedOpenings {
            group_pruned: proofs,
            group_opened_rows: opened,
            query_to_unique_slot: slots,
        }
    }
}

} // verus!
