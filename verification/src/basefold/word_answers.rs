//! The answers to the queries where a codeword is committed to in every round.
use vstd::prelude::*;
use vstd::arithmetic::power2::*;
use crate::basefold::answers;
use crate::basefold::answers::{find_slots, transpose};
use crate::basefold::ext_mmcs;
use crate::basefold::honest_pruned;
use crate::basefold::honest_queries;
use crate::basefold::mmcs;
use crate::basefold::mmcs::{MerkleField, PrunedProof};
use crate::basefold::openings::{CommitPhaseProofStep, PrunedFriQueryProof, QueryProof};
use crate::basefold::pcs::BaseFoldPcs;
use crate::basefold::poseidon::Rounds;
use crate::basefold::pruned;
use crate::basefold::query;
use crate::bits;
use crate::field;
use crate::field::TwoAdicExtension;

verus! {

/// The codewords of the rounds with their roots, and the logarithm of the first one's length.
#[verifier::ext_equal]
pub struct Words<F, EF> {
    pub roots: Seq<Seq<F>>,
    pub words: Seq<Seq<EF>>,
    pub log_len: nat,
}

impl<F: MerkleField, EF: TwoAdicExtension<F>> Words<F, EF> {
    /// Each codeword is half as long as the one before; the last has at least two entries.
    pub open spec fn wf(self) -> bool {
        &&& self.roots.len() == self.words.len()
        &&& self.words.len() <= self.log_len
        &&& self.log_len < usize::BITS
        &&& forall|i: int|
            0 <= i < self.words.len() ==> (#[trigger] self.words[i]).len() == pow2(
                (self.log_len - i) as nat,
            ) && field::all_valid(self.words[i])
    }

    /// The entry beside that of a query in its pair.
    pub open spec fn other(self, query: nat, i: nat) -> EF {
        let at = query / pow2(i);
        let j = at as int / 2;
        if at % 2 == 0 {
            self.words[i as int][2 * j + 1]
        } else {
            self.words[i as int][2 * j]
        }
    }

    /// The pair of a query.
    pub open spec fn pair(self, query: nat, i: nat) -> Seq<EF> {
        let j = (query / pow2(i)) as int / 2;
        seq![self.words[i as int][2 * j], self.words[i as int][2 * j + 1]]
    }

    /// One round of a query is answered: the entry beside, and an accepted opening of the pair.
    pub open spec fn answered(
        self,
        rounds: Rounds<F>,
        steps: Seq<CommitPhaseProofStep<F, EF>>,
        query: nat,
        i: nat,
    ) -> bool {
        let path = mmcs::rows_of(steps[i as int].opening_proof@);
        let index = (query / pow2(i)) / 2;
        &&& steps[i as int].sibling_value == self.other(query, i)
        &&& path == answers::row_path(rounds, self.words[i as int], 1, index)
        &&& ext_mmcs::accepts_row::<F, EF>(
            rounds,
            self.roots[i as int],
            pow2((self.log_len - i - 1) as nat),
            index,
            self.pair(query, i),
            path,
        )
    }

    /// All rounds of a query are answered.
    pub open spec fn all_answered(
        self,
        rounds: Rounds<F>,
        query: nat,
        r: QueryProof<F, EF>,
    ) -> bool {
        let steps = r.commit_phase_openings@;
        &&& steps.len() == self.words.len()
        &&& forall|i: nat| i < steps.len() ==> #[trigger] self.answered(rounds, steps, query, i)
        &&& query::steps_wf(steps)
    }

    /// All queries are answered with shared Merkle paths.
    pub open spec fn all_shared(
        self,
        rounds: Rounds<F>,
        queries: Seq<usize>,
        r: PrunedFriQueryProof<F, EF>,
    ) -> bool {
        let count = self.words.len();
        &&& r.round_pruned_proofs@.len() == count
        &&& r.query_to_unique_slot@.len() == count
        &&& r.sibling_values@.len() == queries.len()
        &&& forall|q: int|
            0 <= q < queries.len() ==> (#[trigger] r.sibling_values@[q])@.len() == count
        &&& forall|q: int, i: int|
            0 <= q < queries.len() && 0 <= i < count ==> #[trigger] r.sibling_values@[q]@[i]
                == self.other(queries[q] as nat, i as nat)
        &&& forall|i: int|
            0 <= i < count ==> answers::are_slots(
                (#[trigger] r.query_to_unique_slot@[i])@,
                honest_pruned::row_numbers(queries, i as nat, 1),
            )
        &&& forall|i: int|
            0 <= i < count ==> answers::is_rows_path(
                rounds,
                self.words[i],
                1,
                honest_pruned::row_numbers(queries, i as nat, 1),
                (#[trigger] r.round_pruned_proofs@[i])@,
            )
        &&& pruned::proofs_wf(r.round_pruned_proofs@)
        &&& mmcs::rows_valid(mmcs::rows_of(r.sibling_values@))
    }
}

/// The pair of a query lies in its codeword.
proof fn lemma_pair<F: MerkleField, EF: TwoAdicExtension<F>>(
    w: Words<F, EF>,
    query: usize,
    i: nat,
)
    requires
        w.wf(),
        i < w.words.len(),
        query < pow2(w.log_len),
    ensures
        ({
            let index = (query as nat / pow2(i)) / 2;
            &&& 2 * index + 1 < w.words[i as int].len()
            &&& w.pair(query as nat, i)[0].valid()
            &&& w.pair(query as nat, i)[1].valid()
            &&& w.other(query as nat, i).valid()
            &&& honest_queries::word_row(w.words[i as int], 1, index) == w.pair(query as nat, i)
        }),
{
    let word = w.words[i as int];
    assert(word.len() == pow2((w.log_len - i) as nat));
    query::lemma_shifted(query as nat, w.log_len, i);
    lemma_pow2_unfold((w.log_len - i) as nat);
    lemma2_to64();
    let at = query as nat / pow2(i);
    let j = at as int / 2;
    let half = pow2((w.log_len - i - 1) as nat);
    lemma_pow2_pos(i);
    vstd::arithmetic::div_mod::lemma_div_pos_is_pos(query as int, pow2(i) as int);
    assert(at < pow2((w.log_len - i) as nat));
    assert(pow2((w.log_len - i) as nat) == 2 * half);
    assert(2 * j + 1 < word.len());
    assert(field::all_valid(word));
    assert(word[2 * j].valid() && word[2 * j + 1].valid());
    assert(pow2(1) == 2);
    assert(honest_queries::word_row(word, 1, j as nat) =~= w.pair(query as nat, i));
}

impl<F: MerkleField> BaseFoldPcs<F> {
    /// The trees and their roots commit to the codewords, cut into pairs.
    pub open spec fn words_committed<EF: TwoAdicExtension<F>>(
        self,
        w: Words<F, EF>,
        trees: Seq<F::Tree>,
    ) -> bool {
        &&& trees.len() == w.words.len()
        &&& forall|i: int|
            0 <= i < trees.len() ==> self.commits_to(
                w.roots[i],
                #[trigger] trees[i],
                w.words[i],
                2,
            )
    }

    /// The answer to a query.
    pub(crate) fn answer_word_query<EF: TwoAdicExtension<F>>(
        &self,
        trees: &Vec<F::Tree>,
        query: usize,
        Ghost(w): Ghost<Words<F, EF>>,
    ) -> (r: QueryProof<F, EF>)
        requires
            w.wf(),
            self.words_committed(w, trees@),
            query < pow2(w.log_len),
        ensures
            w.all_answered(self.rounds(), query as nat, r),
    {
        let count: usize = trees.len();
        let mut steps: Vec<CommitPhaseProofStep<F, EF>> = Vec::new();
        let mut i: usize = 0;
        while i < count
            invariant
                i <= count,
                count == trees@.len(),
                w.wf(),
                self.words_committed(w, trees@),
                query < pow2(w.log_len),
                steps@.len() == i,
                forall|j: nat|
                    j < i ==> #[trigger] w.answered(self.rounds(), steps@, query as nat, j),
                query::steps_wf(steps@),
            decreases count - i,
        {
            proof {
                lemma2_to64();
                lemma_pair(w, query, i as nat);
                assert(self.commits_to(w.roots[i as int], trees@[i as int], w.words[i as int], 2));
                assert(w.words[i as int].len() == pow2((w.log_len - i) as nat));
            }
            let (row, path) = self.open_word_row(
                &trees[i],
                query,
                i,
                1,
                Ghost(w.roots[i as int]),
                Ghost(w.words[i as int]),
                Ghost((w.log_len - i) as nat),
            );
            let at: usize = bits::shift_right(query, i);
            let sibling: EF = if at % 2 == 0 {
                row[1]
            } else {
                row[0]
            };
            let ghost old_steps = steps@;
            steps.push(CommitPhaseProofStep { sibling_value: sibling, opening_proof: path });
            proof {
                assert forall|m: nat| m < i + 1 implies #[trigger] w.answered(
                    self.rounds(),
                    steps@,
                    query as nat,
                    m,
                ) by {
                    if m < i {
                        assert(w.answered(self.rounds(), old_steps, query as nat, m));
                        assert(steps@[m as int] == old_steps[m as int]);
                    }
                }
            }
            i += 1;
        }
        QueryProof { commit_phase_openings: steps }
    }

    /// The answers to all queries.
    pub(crate) fn answer_word_queries<EF: TwoAdicExtension<F>>(
        &self,
        trees: &Vec<F::Tree>,
        queries: &Vec<usize>,
        Ghost(w): Ghost<Words<F, EF>>,
    ) -> (r: Vec<QueryProof<F, EF>>)
        requires
            w.wf(),
            self.words_committed(w, trees@),
            forall|q: int| 0 <= q < queries@.len() ==> (#[trigger] queries@[q]) < pow2(w.log_len),
        ensures
            r@.len() == queries@.len(),
            forall|q: int|
                0 <= q < queries@.len() ==> w.all_answered(
                    self.rounds(),
                    queries@[q] as nat,
                    #[trigger] r@[q],
                ),
    {
        let n: usize = queries.len();
        let mut r: Vec<QueryProof<F, EF>> = Vec::new();
        let mut q: usize = 0;
        while q < n
            invariant
                q <= n,
                n == queries@.len(),
                w.wf(),
                self.words_committed(w, trees@),
                forall|q: int|
                    0 <= q < queries@.len() ==> (#[trigger] queries@[q]) < pow2(w.log_len),
                r@.len() == q,
                forall|j: int|
                    0 <= j < q ==> w.all_answered(
                        self.rounds(),
                        queries@[j] as nat,
                        #[trigger] r@[j],
                    ),
            decreases n - q,
        {
            assert(queries@[q as int] < pow2(w.log_len));
            let answer = self.answer_word_query(trees, queries[q], Ghost(w));
            r.push(answer);
            q += 1;
        }
        r
    }

    /// The answers to all queries for one round, with shared Merkle paths.
    #[verifier::spinoff_prover]
    #[verifier::rlimit(30)]
    fn share_word_round<EF: TwoAdicExtension<F>>(
        &self,
        trees: &Vec<F::Tree>,
        queries: &Vec<usize>,
        i: usize,
        Ghost(w): Ghost<Words<F, EF>>,
    ) -> (r: (Vec<EF>, Vec<u32>, PrunedProof<F>))
        requires
            w.wf(),
            w.log_len <= 32,
            self.words_committed(w, trees@),
            queries@.len() > 0,
            forall|q: int| 0 <= q < queries@.len() ==> (#[trigger] queries@[q]) < pow2(w.log_len),
            i < trees@.len(),
        ensures
            r.0@.len() == queries@.len(),
            forall|q: int|
                0 <= q < queries@.len() ==> #[trigger] r.0@[q] == w.other(
                    queries@[q] as nat,
                    i as nat,
                ) && r.0@[q].valid(),
            answers::are_slots(r.1@, honest_pruned::row_numbers(queries@, i as nat, 1)),
            answers::is_rows_path(
                self.rounds(),
                w.words[i as int],
                1,
                honest_pruned::row_numbers(queries@, i as nat, 1),
                r.2@,
            ),
            mmcs::are_digests(r.2@.siblings),
    {
        let ghost word = w.words[i as int];
        let ghost len = (w.log_len - i) as nat;
        proof {
            lemma2_to64();
            lemma_pow2_unfold(len);
            assert(self.commits_to(w.roots[i as int], trees@[i as int], word, 2));
            assert(word.len() == pow2(len));
            assert forall|q: int| 0 <= q < queries@.len() implies (#[trigger] queries@[q]) < pow2(
                i as nat + len,
            ) by {}
        }
        let (indices, rows, pruned) = self.open_word_rows(
            &trees[i],
            queries,
            i,
            1,
            Ghost(w.roots[i as int]),
            Ghost(word),
            Ghost(len),
        );
        let ghost u = pruned::unique_indices(indices@);
        proof {
            assert forall|q: int| 0 <= q < indices@.len() implies (
            #[trigger] indices@[q]) as nat == (queries@[q] as nat / pow2(i as nat)) / 2 by {
                answers::lemma_halved(queries@[q], i as nat);
            }
        }
        let slots = find_slots(&indices);
        let count: usize = queries.len();
        let mut values: Vec<EF> = Vec::new();
        let mut q: usize = 0;
        while q < count
            invariant
                q <= count,
                count == queries@.len(),
                i < usize::BITS,
                i < w.words.len(),
                w.wf(),
                word == w.words[i as int],
                u == pruned::unique_indices(indices@),
                mmcs::rows_of(rows@) == Seq::new(
                    u.len(),
                    |k: int| honest_queries::word_row(word, 1, u[k] as nat),
                ),
                indices@.len() == queries@.len(),
                answers::are_slots(slots@, indices@),
                forall|q: int| 0 <= q < queries@.len() ==> (#[trigger] queries@[q]) < pow2(
                    w.log_len,
                ),
                forall|q: int|
                    0 <= q < indices@.len() ==> (#[trigger] indices@[q]) as nat == (
                    queries@[q] as nat / pow2(i as nat)) / 2,
                values@.len() == q,
                forall|j: int|
                    0 <= j < q ==> #[trigger] values@[j] == w.other(queries@[j] as nat, i as nat)
                        && values@[j].valid(),
            decreases count - q,
        {
            let at: usize = bits::shift_right(queries[q], i);
            proof {
                let k = slots@[q as int] as int;
                assert(slots@[q as int] < u.len() && u[k] == indices@[q as int]);
                assert(queries@[q as int] < pow2(w.log_len));
                assert(indices@[q as int] as nat == (queries@[q as int] as nat / pow2(i as nat))
                    / 2);
                lemma_pair(w, queries@[q as int], i as nat);
                assert(mmcs::rows_of(rows@).len() == rows@.len());
                assert(mmcs::rows_of(rows@)[k] == rows@[k]@);
                assert(rows@[k]@ == w.pair(queries@[q as int] as nat, i as nat));
            }
            let row: &Vec<EF> = &rows[slots[q] as usize];
            values.push(
                if at % 2 == 0 {
                    row[1]
                } else {
                    row[0]
                },
            );
            q += 1;
        }
        (values, slots, pruned)
    }

    /// The answers to all queries with shared Merkle paths.
    pub(crate) fn share_word_queries<EF: TwoAdicExtension<F>>(
        &self,
        trees: &Vec<F::Tree>,
        queries: &Vec<usize>,
        Ghost(w): Ghost<Words<F, EF>>,
    ) -> (r: PrunedFriQueryProof<F, EF>)
        requires
            w.wf(),
            w.log_len <= 32,
            self.words_committed(w, trees@),
            queries@.len() > 0,
            forall|q: int| 0 <= q < queries@.len() ==> (#[trigger] queries@[q]) < pow2(w.log_len),
        ensures
            w.all_shared(self.rounds(), queries@, r),
    {
        let count: usize = trees.len();
        let mut proofs: Vec<PrunedProof<F>> = Vec::new();
        let mut by_round: Vec<Vec<EF>> = Vec::new();
        let mut slots: Vec<Vec<u32>> = Vec::new();
        let mut i: usize = 0;
        while i < count
            invariant
                i <= count,
                count == trees@.len(),
                w.wf(),
                w.log_len <= 32,
                self.words_committed(w, trees@),
                queries@.len() > 0,
                forall|q: int|
                    0 <= q < queries@.len() ==> (#[trigger] queries@[q]) < pow2(w.log_len),
                proofs@.len() == i,
                by_round@.len() == i,
                slots@.len() == i,
                pruned::proofs_wf(proofs@),
                forall|j: int|
                    0 <= j < i ==> (#[trigger] by_round@[j])@.len() == queries@.len(),
                forall|j: int, q: int|
                    0 <= j < i && 0 <= q < queries@.len() ==> #[trigger] by_round@[j]@[q]
                        == w.other(queries@[q] as nat, j as nat) && by_round@[j]@[q].valid(),
                forall|j: int|
                    0 <= j < i ==> answers::are_slots(
                        (#[trigger] slots@[j])@,
                        honest_pruned::row_numbers(queries@, j as nat, 1),
                    ),
                forall|j: int|
                    0 <= j < i ==> answers::is_rows_path(
                        self.rounds(),
                        w.words[j],
                        1,
                        honest_pruned::row_numbers(queries@, j as nat, 1),
                        (#[trigger] proofs@[j])@,
                    ),
            decreases count - i,
        {
            let (values, places, pruned) = self.share_word_round(trees, queries, i, Ghost(w));
            by_round.push(values);
            slots.push(places);
            proofs.push(pruned);
            i += 1;
        }
        let siblings = transpose(&by_round, queries.len());
        let r = PrunedFriQueryProof {
            round_pruned_proofs: proofs,
            sibling_values: siblings,
            query_to_unique_slot: slots,
        };
        proof {
            let rows = mmcs::rows_of(r.sibling_values@);
            assert forall|q: int, i: int|
                0 <= q < queries@.len() && 0 <= i < count implies #[trigger] r.sibling_values@[q]@[i]
                == w.other(queries@[q] as nat, i as nat) by {
                assert(siblings@[q]@[i] == by_round@[i]@[q]);
            }
            assert forall|q: int| 0 <= q < rows.len() implies field::all_valid(
                #[trigger] rows[q],
            ) by {
                assert forall|i: int| 0 <= i < rows[q].len() implies (
                #[trigger] rows[q][i]).valid() by {
                    assert(siblings@[q]@[i] == by_round@[i]@[q]);
                }
            }
        }
        r
    }
}

} // verus!
