//! The checks of all queries at once, with shared Merkle paths.
use vstd::prelude::*;
use vstd::arithmetic::power2::*;
use crate::basefold::ext_mmcs;
use crate::basefold::ext_mmcs::verify_rows;
use crate::basefold::mmcs;
use crate::basefold::mmcs::{MerkleField, PrunedModel, PrunedProof};
use crate::basefold::openings::{BaseFoldError, PrunedFriQueryProof};
use crate::basefold::pcs::BaseFoldPcs;
use crate::basefold::query;
use crate::basefold::query::{merge_height, step_query, tail_query, Iopp, QueryState};
use crate::bits;
use crate::field;
use crate::field::{Field, TwoAdicExtension};

verus! {

/// The ascending sequence with the element put in its place, where it is not there yet.
pub open spec fn with_index(s: Seq<usize>, x: usize) -> Seq<usize>
    decreases s.len(),
{
    if s.len() == 0 {
        seq![x]
    } else if s.last() < x {
        s.push(x)
    } else if s.last() == x {
        s
    } else {
        with_index(s.drop_last(), x).push(s.last())
    }
}

/// The elements in ascending order and without repetition.
pub open spec fn unique_indices(all: Seq<usize>) -> Seq<usize>
    decreases all.len(),
{
    if all.len() == 0 {
        Seq::empty()
    } else {
        with_index(unique_indices(all.drop_last()), all.last())
    }
}

pub open spec fn ascending(s: Seq<usize>) -> bool {
    forall|i: int, j: int| 0 <= i < j < s.len() ==> (#[trigger] s[i]) < (#[trigger] s[j])
}

proof fn lemma_with_index(s: Seq<usize>, x: usize)
    requires
        ascending(s),
    ensures
        ascending(with_index(s, x)),
        forall|y: usize| #[trigger] with_index(s, x).contains(y) <==> s.contains(y) || y == x,
    decreases s.len(),
{
    let r = with_index(s, x);
    if s.len() == 0 {
        assert(r[0] == x);
    } else if s.last() < x {
        assert forall|y: usize| #[trigger] r.contains(y) <==> s.contains(y) || y == x by {
            assert(r[s.len() as int] == x);
            if s.contains(y) {
                let i = choose|i: int| 0 <= i < s.len() && s[i] == y;
                assert(r[i] == y);
            }
            if r.contains(y) {
                let i = choose|i: int| 0 <= i < r.len() && r[i] == y;
                if i < s.len() {
                    assert(s[i] == y);
                }
            }
        }
    } else if s.last() > x {
        let d = s.drop_last();
        lemma_with_index(d, x);
        let w = with_index(d, x);
        assert(r == w.push(s.last()));
        assert forall|i: int, j: int| 0 <= i < j < r.len() implies (#[trigger] r[i]) < (
        #[trigger] r[j]) by {
            if j == r.len() - 1 {
                assert(w.contains(r[i]));
                if d.contains(r[i]) {
                    let k = choose|k: int| 0 <= k < d.len() && d[k] == r[i];
                    assert(s[k] < s[s.len() - 1]);
                }
            }
        }
        assert forall|y: usize| #[trigger] r.contains(y) <==> s.contains(y) || y == x by {
            if s.contains(y) {
                let i = choose|i: int| 0 <= i < s.len() && s[i] == y;
                if i < d.len() {
                    assert(d[i] == y);
                    assert(w.contains(y));
                    let k = choose|k: int| 0 <= k < w.len() && w[k] == y;
                    assert(r[k] == y);
                } else {
                    assert(r[w.len() as int] == y);
                }
            }
            if y == x {
                assert(w.contains(x));
                let k = choose|k: int| 0 <= k < w.len() && w[k] == x;
                assert(r[k] == x);
            }
            if r.contains(y) {
                let i = choose|i: int| 0 <= i < r.len() && r[i] == y;
                if i < w.len() {
                    assert(w[i] == y);
                    assert(w.contains(y));
                    if d.contains(y) {
                        let k = choose|k: int| 0 <= k < d.len() && d[k] == y;
                        assert(s[k] == y);
                    }
                } else {
                    assert(s[s.len() - 1] == y);
                }
            }
        }
    } else {
        assert(s[s.len() - 1] == x);
    }
}

/// Law: [`unique_indices`] holds the elements in ascending order and without repetition.
pub proof fn law_unique_indices(all: Seq<usize>)
    ensures
        mmcs::sorted_unique(unique_indices(all), all),
        unique_indices(all).len() <= all.len(),
    decreases all.len(),
{
    if all.len() > 0 {
        let d = all.drop_last();
        law_unique_indices(d);
        let u = unique_indices(d);
        lemma_with_index(u, all.last());
        lemma_with_index_len(u, all.last());
        assert forall|y: usize| unique_indices(all).contains(y) <==> all.contains(y) by {
            if all.contains(y) {
                let i = choose|i: int| 0 <= i < all.len() && all[i] == y;
                if i < d.len() {
                    assert(d[i] == y);
                }
            }
            if d.contains(y) {
                let i = choose|i: int| 0 <= i < d.len() && d[i] == y;
                assert(all[i] == y);
            }
            assert(all[all.len() - 1] == all.last());
        }
    }
}

/// There is one ascending sequence of the same elements.
pub proof fn lemma_sorted_unique_same(a: Seq<usize>, b: Seq<usize>, all: Seq<usize>)
    requires
        mmcs::sorted_unique(a, all),
        mmcs::sorted_unique(b, all),
    ensures
        a == b,
{
    lemma_ascending_same(a, b, 0);
    assert(a =~= b);
}

proof fn lemma_ascending_same(a: Seq<usize>, b: Seq<usize>, k: nat)
    requires
        ascending(a),
        ascending(b),
        forall|x: usize| a.contains(x) <==> b.contains(x),
        k <= a.len(),
        k <= b.len(),
        forall|i: int| 0 <= i < k ==> a[i] == b[i],
    ensures
        a.len() == b.len(),
        forall|i: int| 0 <= i < a.len() ==> a[i] == b[i],
    decreases a.len() - k,
{
    if k < a.len() && k < b.len() {
        let x = a[k as int];
        let y = b[k as int];
        assert(a.contains(x));
        assert(b.contains(x));
        assert(b.contains(y));
        assert(a.contains(y));
        let j = choose|j: int| 0 <= j < b.len() && b[j] == x;
        let i = choose|i: int| 0 <= i < a.len() && a[i] == y;
        if j < k {
            assert(a[j] == x);
            assert(a[j] < a[k as int]);
        }
        if i < k {
            assert(b[i] == y);
            assert(b[i] < b[k as int]);
        }
        if j > k {
            assert(b[k as int] < b[j]);
        }
        if i > k {
            assert(a[k as int] < a[i]);
        }
        assert(x == y);
        lemma_ascending_same(a, b, k + 1);
    } else if k < a.len() {
        assert(a.contains(a[k as int]));
        assert(b.contains(a[k as int]));
        let j = choose|j: int| 0 <= j < b.len() && b[j] == a[k as int];
        assert(a[j] < a[k as int]);
    } else if k < b.len() {
        assert(b.contains(b[k as int]));
        assert(a.contains(b[k as int]));
        let i = choose|i: int| 0 <= i < a.len() && a[i] == b[k as int];
        assert(b[i] < b[k as int]);
    }
}

proof fn lemma_with_index_len(s: Seq<usize>, x: usize)
    ensures
        with_index(s, x).len() <= s.len() + 1,
    decreases s.len(),
{
    if s.len() > 0 {
        lemma_with_index_len(s.drop_last(), x);
    }
}

/// Puts an element in its place, where it is not there yet.
fn insert_index(s: &mut Vec<usize>, x: usize)
    requires
        ascending(old(s)@),
    ensures
        final(s)@ == with_index(old(s)@, x),
{
    let ghost start = s@;
    let mut above: Vec<usize> = Vec::new();
    let ghost mut tail: Seq<usize> = Seq::empty();
    proof {
        assert(with_index(start, x) =~= with_index(s@, x) + tail);
    }
    while s.len() > 0 && s[s.len() - 1] > x
        invariant
            with_index(start, x) == with_index(s@, x) + tail,
            tail.len() == above@.len(),
            forall|i: int| 0 <= i < tail.len() ==> tail[i] == above@[tail.len() - 1 - i],
        decreases s@.len(),
    {
        let n: usize = s.len();
        let top: usize = s[n - 1];
        let ghost before = s@;
        s.truncate(n - 1);
        above.push(top);
        proof {
            assert(s@ =~= before.drop_last());
            let old_tail = tail;
            tail = seq![top] + old_tail;
            assert(with_index(before, x) + old_tail =~= with_index(s@, x) + tail);
        }
    }
    let ghost low = s@;
    if s.len() == 0 || s[s.len() - 1] < x {
        s.push(x);
    }
    proof {
        assert(s@ =~= with_index(low, x));
    }
    let ghost base = s@;
    let total: usize = above.len();
    let mut k: usize = total;
    while k > 0
        invariant
            k <= total,
            total == above@.len(),
            tail.len() == total,
            forall|i: int| 0 <= i < tail.len() ==> tail[i] == above@[tail.len() - 1 - i],
            s@ == base + tail.take(total - k),
        decreases k,
    {
        k -= 1;
        s.push(above[k]);
        proof {
            assert(tail.take(total - k) =~= tail.take(total - k - 1).push(tail[total - k - 1]));
            assert(s@ =~= base + tail.take(total - k));
        }
    }
    proof {
        assert(tail.take(total as int) =~= tail);
    }
}

/// The elements in ascending order and without repetition.
pub fn sort_unique(all: &Vec<usize>) -> (r: Vec<usize>)
    ensures
        r@ == unique_indices(all@),
        mmcs::sorted_unique(r@, all@),
{
    let mut r: Vec<usize> = Vec::new();
    let mut i: usize = 0;
    proof {
        assert(all@.take(0) =~= Seq::empty());
    }
    while i < all.len()
        invariant
            i <= all@.len(),
            r@ == unique_indices(all@.take(i as int)),
        decreases all@.len() - i,
    {
        proof {
            law_unique_indices(all@.take(i as int));
            assert(all@.take(i + 1).drop_last() =~= all@.take(i as int));
        }
        insert_index(&mut r, all[i]);
        i += 1;
    }
    proof {
        assert(all@.take(i as int) =~= all@);
        law_unique_indices(all@);
    }
    r
}

/// The place of an element of the sequence.
pub fn find_index(s: &Vec<usize>, x: usize) -> (r: usize)
    requires
        s@.contains(x),
        ascending(s@),
    ensures
        r < s@.len(),
        s@[r as int] == x,
        r == s@.index_of(x),
{
    let n: usize = s.len();
    let mut i: usize = 0;
    while s[i] != x
        invariant
            i < n,
            n == s@.len(),
            s@.contains(x),
            ascending(s@),
            forall|j: int| 0 <= j < i ==> s@[j] != x,
        decreases s@.len() - i,
    {
        proof {
            let k = choose|k: int| 0 <= k < s@.len() && s@[k] == x;
            assert(k > i);
        }
        i += 1;
    }
    proof {
        let k = s@.index_of(x);
        assert(s@[i as int] == x);
        assert(0 <= k < s@.len() && s@[k] == x);
        if k < i {
            assert(s@[k] < s@[i as int]);
        }
        if k > i {
            assert(s@[i as int] < s@[k]);
        }
    }
    i
}

/// The linear combinations of the opened rows, mathematically.
pub open spec fn all_sums<EF>(sums: Seq<Vec<(usize, EF)>>) -> Seq<Seq<(usize, EF)>> {
    Seq::new(sums.len(), |i: int| sums[i]@)
}

pub open spec fn proof_models<F>(proofs: Seq<PrunedProof<F>>) -> Seq<PrunedModel<F>> {
    Seq::new(proofs.len(), |i: int| proofs[i]@)
}

/// All queries at their start.
pub open spec fn all_started<EF: Field>(queries: Seq<usize>) -> Seq<QueryState<EF>> {
    Seq::new(queries.len(), |q: int| query::started::<EF>(queries[q]))
}

/// All queries after a height was merged, where there is one.
pub open spec fn all_merged<EF: Field>(
    states: Seq<QueryState<EF>>,
    sums: Seq<Seq<(usize, EF)>>,
    betas: Seq<EF>,
    log_len: nat,
) -> Seq<QueryState<EF>> {
    Seq::new(states.len(), |q: int| query::merged(states[q], sums[q], betas, log_len))
}

/// The indices of the rows of all queries.
pub open spec fn row_indices<EF>(states: Seq<QueryState<EF>>, log_folding: nat) -> Seq<usize> {
    Seq::new(states.len(), |q: int| (states[q].query as nat / pow2(log_folding)) as usize)
}

/// The pairs of codeword entries of all queries.
pub open spec fn pair_rows<EF: Field>(
    states: Seq<QueryState<EF>>,
    siblings: Seq<Seq<EF>>,
    round: nat,
) -> Seq<Seq<EF>> {
    Seq::new(states.len(), |q: int| query::pair_row(states[q], siblings[q][round as int]))
}

/// Queries with the same index have the same row.
pub open spec fn rows_agree<EF>(indices: Seq<usize>, rows: Seq<Seq<EF>>) -> bool {
    forall|a: int, b: int|
        0 <= a < b < indices.len() && #[trigger] indices[a] == #[trigger] indices[b] ==> rows[a]
            == rows[b]
}

/// The row of each index, in ascending order of the indices.
pub open spec fn unique_rows<EF>(indices: Seq<usize>, rows: Seq<Seq<EF>>) -> Seq<Seq<EF>> {
    let u = unique_indices(indices);
    Seq::new(u.len(), |k: int| rows[indices.index_of(u[k])])
}

/// The rounds from `round` on up to `limit` that are checked against Merkle roots.
pub open spec fn pruned_rounds<F: MerkleField, EF: TwoAdicExtension<F>>(
    c: Iopp<F, EF>,
    sums: Seq<Seq<(usize, EF)>>,
    siblings: Seq<Seq<EF>>,
    proofs: Seq<PrunedModel<F>>,
    states: Seq<QueryState<EF>>,
    limit: nat,
    round: nat,
) -> Result<Seq<QueryState<EF>>, BaseFoldError>
    decreases limit - round,
{
    if round >= limit {
        Ok(states)
    } else {
        let ms = all_merged(states, sums, c.betas, c.log_len(round));
        let rows = pair_rows(ms, siblings, round);
        let indices = row_indices(ms, 1);
        if !rows_agree(indices, rows) {
            Err(BaseFoldError::InvalidInputError)
        } else if !ext_mmcs::accepts_rows::<F, EF>(
            c.rounds,
            c.oracles[round as int],
            pow2((c.log_len(round) - 1) as nat),
            unique_rows(indices, rows),
            proofs[round as int],
        ) {
            Err(BaseFoldError::CommitPhaseMmcsError)
        } else {
            pruned_rounds(
                c,
                sums,
                siblings,
                proofs,
                Seq::new(
                    states.len(),
                    |q: int|
                        query::stepped(
                            ms[q],
                            rows[q],
                            c.log_len(round),
                            c.challenges[round as int],
                            c.point[c.num_vars() - 1 - round],
                        ),
                ),
                limit,
                round + 1,
            )
        }
    }
}

/// A query after all rounds.
pub open spec fn tail_of<F: MerkleField, EF: TwoAdicExtension<F>>(
    c: Iopp<F, EF>,
    sums: Seq<Seq<(usize, EF)>>,
    states: Seq<QueryState<EF>>,
    start: nat,
    q: int,
) -> Result<QueryState<EF>, BaseFoldError> {
    query::tail_rounds(c, sums[q], states[q], c.final_codeword, start, start)
}

/// The verdict on the rounds from `start` on, where the codeword of the final table is folded.
pub open spec fn pruned_finished<F: MerkleField, EF: TwoAdicExtension<F>>(
    c: Iopp<F, EF>,
    sums: Seq<Seq<(usize, EF)>>,
    states: Seq<QueryState<EF>>,
    start: nat,
) -> Result<(), BaseFoldError> {
    if start < c.num_vars() && c.final_codeword is None {
        Err(BaseFoldError::FriFinalStepMisMatch)
    } else if exists|q: int|
        0 <= q < states.len() && (#[trigger] tail_of(c, sums, states, start, q)) is Err {
        Err(BaseFoldError::FriFinalStepMisMatch)
    } else if exists|q: int|
        0 <= q < states.len() && (#[trigger] tail_of(c, sums, states, start, q))->Ok_0.folded
            != c.expected {
        Err(BaseFoldError::FinalPolyMismatch)
    } else {
        Ok(())
    }
}

/// The verdict on all queries, whose codewords are opened round by round.
pub open spec fn pruned_verdict<F: MerkleField, EF: TwoAdicExtension<F>>(
    c: Iopp<F, EF>,
    queries: Seq<usize>,
    sums: Seq<Seq<(usize, EF)>>,
    opened: PrunedFriQueryProof<F, EF>,
) -> Result<(), BaseFoldError> {
    let limit = if c.oracles.len() <= c.num_vars() {
        c.oracles.len()
    } else {
        c.num_vars()
    };
    let siblings = mmcs::rows_of(opened.sibling_values@);
    if siblings.len() != queries.len() || opened.round_pruned_proofs@.len() < limit || sums.len()
        != queries.len() || exists|q: int|
        0 <= q < siblings.len() && (#[trigger] siblings[q]).len() < limit {
        Err(BaseFoldError::InvalidInputError)
    } else {
        match pruned_rounds(
            c,
            sums,
            siblings,
            proof_models(opened.round_pruned_proofs@),
            all_started(queries),
            limit,
            0,
        ) {
            Err(e) => Err(e),
            Ok(states) => pruned_finished(c, sums, states, limit),
        }
    }
}

/// The linear combinations of all queries hold canonical elements.
pub open spec fn all_sums_wf<EF: Field>(sums: Seq<Seq<(usize, EF)>>, betas: Seq<EF>) -> bool {
    forall|q: int| 0 <= q < sums.len() ==> query::sums_wf(#[trigger] sums[q], betas)
}

/// The proofs hold digests.
pub open spec fn proofs_wf<F: Field>(proofs: Seq<PrunedProof<F>>) -> bool {
    forall|i: int| 0 <= i < proofs.len() ==> mmcs::are_digests((#[trigger] proofs[i])@.siblings)
}

/// The states lie in a codeword of length `2^log_len` and hold canonical elements.
pub open spec fn states_wf<EF: Field>(states: Seq<QueryState<EF>>, log_len: nat) -> bool {
    forall|q: int|
        0 <= q < states.len() ==> (#[trigger] states[q]).folded.valid() && states[q].query < pow2(
            log_len,
        )
}

/// Merges a height into all queries, where there is one.
pub(crate) fn merge_all<EF: Field>(
    states: &Vec<QueryState<EF>>,
    sums: &Vec<Vec<(usize, EF)>>,
    betas: &Vec<EF>,
    log_len: usize,
) -> (r: Vec<QueryState<EF>>)
    requires
        states@.len() == sums@.len(),
        all_sums_wf(all_sums(sums@), betas@),
        states_wf(states@, log_len as nat),
    ensures
        r@ == all_merged(states@, all_sums(sums@), betas@, log_len as nat),
        states_wf(r@, log_len as nat),
{
    let mut r: Vec<QueryState<EF>> = Vec::new();
    let mut q: usize = 0;
    while q < states.len()
        invariant
            q <= states@.len(),
            states@.len() == sums@.len(),
            all_sums_wf(all_sums(sums@), betas@),
            states_wf(states@, log_len as nat),
            r@.len() == q,
            states_wf(r@, log_len as nat),
            forall|j: int|
                0 <= j < q ==> #[trigger] r@[j] == query::merged(
                    states@[j],
                    sums@[j]@,
                    betas@,
                    log_len as nat,
                ),
        decreases states@.len() - q,
    {
        proof {
            assert(query::sums_wf(all_sums(sums@)[q as int], betas@));
            assert(states@[q as int].folded.valid());
            query::lemma_merged_valid(states@[q as int], sums@[q as int]@, betas@, log_len as nat);
        }
        r.push(merge_height(states[q], &sums[q], betas, log_len));
        q += 1;
    }
    proof {
        assert(r@ =~= all_merged(states@, all_sums(sums@), betas@, log_len as nat));
    }
    r
}

/// The indices of the rows of all queries.
pub(crate) fn compute_row_indices<EF: Field>(states: &Vec<QueryState<EF>>, log_folding: usize) -> (r: Vec<
    usize,
>)
    requires
        log_folding < usize::BITS,
    ensures
        r@ == row_indices(states@, log_folding as nat),
{
    let mut r: Vec<usize> = Vec::new();
    let mut q: usize = 0;
    while q < states.len()
        invariant
            q <= states@.len(),
            log_folding < usize::BITS,
            r@.len() == q,
            forall|j: int|
                0 <= j < q ==> #[trigger] r@[j] as nat == states@[j].query as nat / pow2(
                    log_folding as nat,
                ),
        decreases states@.len() - q,
    {
        r.push(bits::shift_right(states[q].query, log_folding));
        q += 1;
    }
    proof {
        assert(r@ =~= row_indices(states@, log_folding as nat));
    }
    r
}

/// The rows hold the same elements.
fn same_rows<EF: Field>(a: &Vec<EF>, b: &Vec<EF>) -> (r: bool)
    ensures
        r == (a@ == b@),
{
    if a.len() != b.len() {
        return false;
    }
    let mut i: usize = 0;
    while i < a.len()
        invariant
            i <= a@.len() == b@.len(),
            forall|j: int| 0 <= j < i ==> a@[j] == b@[j],
        decreases a@.len() - i,
    {
        if !a[i].is_equal(&b[i]) {
            return false;
        }
        i += 1;
    }
    proof {
        assert(a@ =~= b@);
    }
    true
}

/// Queries with the same index have the same row.
fn check_rows_agree<EF: Field>(indices: &Vec<usize>, rows: &Vec<Vec<EF>>) -> (r: bool)
    requires
        indices@.len() == rows@.len(),
    ensures
        r == rows_agree(indices@, mmcs::rows_of(rows@)),
{
    let ghost all = mmcs::rows_of(rows@);
    let mut b: usize = 0;
    while b < indices.len()
        invariant
            b <= indices@.len(),
            indices@.len() == rows@.len(),
            all == mmcs::rows_of(rows@),
            forall|i: int, j: int|
                0 <= i < j < b && #[trigger] indices@[i] == #[trigger] indices@[j] ==> all[i]
                    == all[j],
        decreases indices@.len() - b,
    {
        let mut a: usize = 0;
        while a < b
            invariant
                a <= b < indices@.len(),
                indices@.len() == rows@.len(),
                all == mmcs::rows_of(rows@),
                forall|i: int|
                    0 <= i < a && #[trigger] indices@[i] == indices@[b as int] ==> all[i]
                        == all[b as int],
            decreases b - a,
        {
            if indices[a] == indices[b] && !same_rows(&rows[a], &rows[b]) {
                assert(all[a as int] != all[b as int]);
                return false;
            }
            a += 1;
        }
        b += 1;
    }
    true
}

/// The row of each index, in ascending order of the indices.
fn collect_unique_rows<EF: Field>(indices: &Vec<usize>, rows: &Vec<Vec<EF>>) -> (r: Vec<Vec<EF>>)
    requires
        indices@.len() == rows@.len(),
        rows_agree(indices@, mmcs::rows_of(rows@)),
    ensures
        mmcs::rows_of(r@) == unique_rows(indices@, mmcs::rows_of(rows@)),
        forall|k: int|
            0 <= k < r@.len() ==> mmcs::rows_of(rows@).contains((#[trigger] r@[k])@),
{
    let ghost all = mmcs::rows_of(rows@);
    let u: Vec<usize> = sort_unique(indices);
    let mut r: Vec<Vec<EF>> = Vec::new();
    let mut k: usize = 0;
    while k < u.len()
        invariant
            k <= u@.len(),
            indices@.len() == rows@.len(),
            all == mmcs::rows_of(rows@),
            rows_agree(indices@, all),
            u@ == unique_indices(indices@),
            mmcs::sorted_unique(u@, indices@),
            r@.len() == k,
            forall|j: int|
                0 <= j < k ==> (#[trigger] r@[j])@ == all[indices@.index_of(u@[j])] && all.contains(
                    r@[j]@,
                ),
        decreases u@.len() - k,
    {
        let x: usize = u[k];
        proof {
            assert(u@.contains(x));
        }
        let n: usize = indices.len();
        let mut q: usize = 0;
        while indices[q] != x
            invariant
                q < n,
                n == indices@.len(),
                indices@.contains(x),
                forall|j: int| 0 <= j < q ==> indices@[j] != x,
            decreases indices@.len() - q,
        {
            proof {
                let j = choose|j: int| 0 <= j < indices@.len() && indices@[j] == x;
                assert(j > q);
            }
            q += 1;
        }
        proof {
            let j = indices@.index_of(x);
            assert(0 <= j < indices@.len() && indices@[j] == x);
            assert(all[j] == all[q as int]);
            assert(all.contains(all[q as int]));
        }
        r.push(crate::basefold::challenger::copy_elements(&rows[q]));
        k += 1;
    }
    proof {
        assert(mmcs::rows_of(r@) =~= unique_rows(indices@, all));
    }
    r
}

/// Some row has fewer than `limit` entries.
fn any_shorter<EF: Field>(rows: &Vec<Vec<EF>>, limit: usize) -> (r: bool)
    ensures
        r == exists|q: int|
            0 <= q < rows@.len() && (#[trigger] mmcs::rows_of(rows@)[q]).len() < limit,
{
    let mut q: usize = 0;
    while q < rows.len()
        invariant
            q <= rows@.len(),
            forall|k: int| 0 <= k < q ==> (#[trigger] mmcs::rows_of(rows@)[k]).len() >= limit,
        decreases rows@.len() - q,
    {
        if rows[q].len() < limit {
            assert(mmcs::rows_of(rows@)[q as int].len() < limit);
            return true;
        }
        q += 1;
    }
    false
}

impl<F: MerkleField> BaseFoldPcs<F> {
    /// Folds all queries through the rounds from `start` on, where the codeword of the final table
    /// is folded, and checks their final values.
    fn finish_all<EF: TwoAdicExtension<F>>(
        Ghost(c): Ghost<Iopp<F, EF>>,
        log_blowup: usize,
        sums: &Vec<Vec<(usize, EF)>>,
        challenges: &Vec<EF>,
        betas: &Vec<EF>,
        point: &Vec<EF>,
        expected: &EF,
        final_codeword: &Option<Vec<EF>>,
        states: &Vec<QueryState<EF>>,
        start: usize,
    ) -> (r: Result<(), BaseFoldError>)
        requires
            c.wf(),
            c.log_blowup == log_blowup,
            c.challenges == challenges@,
            c.betas == betas@,
            c.point == point@,
            c.expected == *expected,
            final_codeword is Some <==> c.final_codeword is Some,
            final_codeword matches Some(v) ==> c.final_codeword == Some(v@),
            all_sums_wf(all_sums(sums@), betas@),
            sums@.len() == states@.len(),
            forall|q: int|
                0 <= q < states@.len() ==> query::tail_fits(
                    c,
                    (#[trigger] states@[q]).query as nat,
                    start as nat,
                ),
        ensures
            r == pruned_finished(c, all_sums(sums@), states@, start as nat),
    {
        let num_vars: usize = challenges.len();
        if start < num_vars && final_codeword.is_none() {
            return Err(BaseFoldError::FriFinalStepMisMatch);
        }
        let mut all_equal: bool = true;
        let mut q: usize = 0;
        while q < states.len()
            invariant
                q <= states@.len(),
                c.wf(),
                c.log_blowup == log_blowup,
                c.challenges == challenges@,
                c.betas == betas@,
                c.point == point@,
                c.expected == *expected,
                num_vars == challenges@.len(),
                !(start < num_vars && c.final_codeword is None),
                final_codeword is Some <==> c.final_codeword is Some,
                final_codeword matches Some(v) ==> c.final_codeword == Some(v@),
                all_sums_wf(all_sums(sums@), betas@),
                sums@.len() == states@.len(),
                forall|k: int|
                    0 <= k < states@.len() ==> query::tail_fits(
                        c,
                        (#[trigger] states@[k]).query as nat,
                        start as nat,
                    ),
                forall|k: int|
                    0 <= k < q ==> (#[trigger] tail_of(
                        c,
                        all_sums(sums@),
                        states@,
                        start as nat,
                        k,
                    )) is Ok,
                all_equal <==> forall|k: int|
                    0 <= k < q ==> (#[trigger] tail_of(
                        c,
                        all_sums(sums@),
                        states@,
                        start as nat,
                        k,
                    ))->Ok_0.folded == c.expected,
            decreases states@.len() - q,
        {
            proof {
                assert(query::sums_wf(all_sums(sums@)[q as int], betas@));
                assert(query::tail_fits(c, states@[q as int].query as nat, start as nat));
            }
            let t: Result<QueryState<EF>, BaseFoldError> = tail_query(
                Ghost(c),
                log_blowup,
                &sums[q],
                challenges,
                betas,
                point,
                final_codeword,
                states[q],
                start,
            );
            assert(t == tail_of(c, all_sums(sums@), states@, start as nat, q as int));
            match t {
                Err(e) => {
                    return Err(e);
                },
                Ok(s) => {
                    if !s.folded.is_equal(expected) {
                        all_equal = false;
                    }
                },
            }
            q += 1;
        }
        if !all_equal {
            return Err(BaseFoldError::FinalPolyMismatch);
        }
        Ok(())
    }

    /// Checks all queries, whose codewords are opened round by round with shared Merkle paths.
    pub fn verify_queries_iopp_p3_pruned_basefold<EF: TwoAdicExtension<F>>(
        &self,
        iopp_commitments: &Vec<Vec<F>>,
        query_points: &Vec<usize>,
        leaf_sums_per_query: &Vec<Vec<(usize, EF)>>,
        iopp_pruned: &PrunedFriQueryProof<F, EF>,
        folding_challenges: &Vec<EF>,
        merge_betas: &Vec<EF>,
        opening_point: &Vec<EF>,
        expected_final_value: &EF,
        final_codeword: &Option<Vec<EF>>,
    ) -> (r: Result<(), BaseFoldError>)
        requires
            self.iopp(
                iopp_commitments@,
                folding_challenges@,
                merge_betas@,
                opening_point@,
                *expected_final_value,
                *final_codeword,
            ).wf(),
            all_sums_wf(all_sums(leaf_sums_per_query@), merge_betas@),
            proofs_wf(iopp_pruned.round_pruned_proofs@),
            mmcs::rows_valid(mmcs::rows_of(iopp_pruned.sibling_values@)),
            forall|q: int|
                0 <= q < query_points@.len() ==> (#[trigger] query_points@[q]) < pow2(
                    folding_challenges@.len() + self.fri.log_blowup as nat,
                ),
            2 * EF::degree() <= usize::MAX,
            (final_codeword matches Some(word) ==> iopp_commitments@.len()
                < folding_challenges@.len() ==> word@.len() >= pow2(
                (folding_challenges@.len() + self.fri.log_blowup - iopp_commitments@.len()) as nat,
            )),
        ensures
            r == pruned_verdict(
                self.iopp(
                    iopp_commitments@,
                    folding_challenges@,
                    merge_betas@,
                    opening_point@,
                    *expected_final_value,
                    *final_codeword,
                ),
                query_points@,
                all_sums(leaf_sums_per_query@),
                *iopp_pruned,
            ),
    {
        let ghost c = self.iopp(
            iopp_commitments@,
            folding_challenges@,
            merge_betas@,
            opening_point@,
            *expected_final_value,
            *final_codeword,
        );
        let n: usize = query_points.len();
        let num_vars: usize = folding_challenges.len();
        let log_blowup: usize = self.fri.log_blowup;
        let limit: usize = if iopp_commitments.len() <= num_vars {
            iopp_commitments.len()
        } else {
            num_vars
        };
        let ghost siblings = mmcs::rows_of(iopp_pruned.sibling_values@);
        let ghost proofs = proof_models(iopp_pruned.round_pruned_proofs@);
        let ghost sums = all_sums(leaf_sums_per_query@);
        if iopp_pruned.sibling_values.len() != n || iopp_pruned.round_pruned_proofs.len() < limit
            || leaf_sums_per_query.len() != n || any_shorter(&iopp_pruned.sibling_values, limit) {
            return Err(BaseFoldError::InvalidInputError);
        }
        let mut states: Vec<QueryState<EF>> = Vec::new();
        let mut q: usize = 0;
        while q < n
            invariant
                q <= n,
                n == query_points@.len(),
                states@ == all_started::<EF>(query_points@).take(q as int),
            decreases n - q,
        {
            states.push(
                QueryState {
                    folded: EF::zero(),
                    merges: 0,
                    eq: EF::one(),
                    query: query_points[q],
                },
            );
            q += 1;
            proof {
                assert(states@ =~= all_started::<EF>(query_points@).take(q as int));
            }
        }
        proof {
            assert(states@ =~= all_started::<EF>(query_points@));
            EF::law_constants();
        }
        let ghost goal = pruned_rounds(
            c,
            sums,
            siblings,
            proofs,
            all_started(query_points@),
            limit as nat,
            0,
        );
        let ghost verdict = pruned_verdict(c, query_points@, sums, *iopp_pruned);
        assert(goal is Err ==> verdict == Err::<(), BaseFoldError>(goal->Err_0));
        let mut round: usize = 0;
        while round < limit
            invariant
                verdict == pruned_verdict(c, query_points@, sums, *iopp_pruned),
                goal is Err ==> verdict == Err::<(), BaseFoldError>(goal->Err_0),
                round <= limit,
                limit <= num_vars,
                limit <= iopp_commitments@.len(),
                n == query_points@.len(),
                c == self.iopp(
                    iopp_commitments@,
                    folding_challenges@,
                    merge_betas@,
                    opening_point@,
                    *expected_final_value,
                    *final_codeword,
                ),
                c.wf(),
                num_vars == folding_challenges@.len(),
                log_blowup == self.fri.log_blowup,
                siblings == mmcs::rows_of(iopp_pruned.sibling_values@),
                proofs == proof_models(iopp_pruned.round_pruned_proofs@),
                sums == all_sums(leaf_sums_per_query@),
                siblings.len() == n,
                sums.len() == n,
                proofs.len() >= limit,
                forall|k: int| 0 <= k < n ==> (#[trigger] siblings[k]).len() >= limit,
                all_sums_wf(sums, merge_betas@),
                proofs_wf(iopp_pruned.round_pruned_proofs@),
                mmcs::rows_valid(siblings),
                2 * EF::degree() <= usize::MAX,
                states@.len() == n,
                states_wf(states@, c.log_len(round as nat)),
                goal == pruned_rounds(
                    c,
                    sums,
                    siblings,
                    proofs,
                    states@,
                    limit as nat,
                    round as nat,
                ),
                goal == pruned_rounds(
                    c,
                    sums,
                    siblings,
                    proofs,
                    all_started(query_points@),
                    limit as nat,
                    0,
                ),
            decreases limit - round,
        {
            let log_len: usize = num_vars + log_blowup - round;
            let ms: Vec<QueryState<EF>> = merge_all(
                &states,
                leaf_sums_per_query,
                merge_betas,
                log_len,
            );
            let mut rows: Vec<Vec<EF>> = Vec::new();
            let mut q: usize = 0;
            while q < n
                invariant
                    q <= n,
                    n == ms@.len(),
                    siblings == mmcs::rows_of(iopp_pruned.sibling_values@),
                    siblings.len() == n,
                    forall|k: int| 0 <= k < n ==> (#[trigger] siblings[k]).len() >= limit,
                    mmcs::rows_valid(siblings),
                    states_wf(ms@, log_len as nat),
                    round < limit,
                    rows@.len() == q,
                    forall|k: int|
                        0 <= k < q ==> (#[trigger] rows@[k])@ == query::pair_row(
                            ms@[k],
                            siblings[k][round as int],
                        ) && field::all_valid(rows@[k]@) && rows@[k]@.len() == 2,
                decreases n - q,
            {
                let m: QueryState<EF> = ms[q];
                proof {
                    assert(siblings[q as int].len() >= limit);
                    assert(siblings[q as int][round as int].valid());
                    assert(ms@[q as int].folded.valid());
                }
                let sibling: EF = iopp_pruned.sibling_values[q][round];
                let row: Vec<EF> = if m.query % 2 == 0 {
                    vec![m.folded, sibling]
                } else {
                    vec![sibling, m.folded]
                };
                proof {
                    assert(row@ =~= query::pair_row(m, sibling));
                }
                rows.push(row);
                q += 1;
            }
            let ghost all_rows = mmcs::rows_of(rows@);
            proof {
                assert(all_rows =~= pair_rows(ms@, siblings, round as nat));
            }
            let indices: Vec<usize> = compute_row_indices(&ms, 1);
            if !check_rows_agree(&indices, &rows) {
                return Err(BaseFoldError::InvalidInputError);
            }
            let unique: Vec<Vec<EF>> = collect_unique_rows(&indices, &rows);
            proof {
                if log_len - 1 < usize::BITS - 1 {
                    lemma_pow2_strictly_increases(
                        (log_len - 1) as nat,
                        (usize::BITS - 1) as nat,
                    );
                }
                assert(c.oracles[round as int] == iopp_commitments@[round as int]@);
                assert(mmcs::is_digest(c.oracles[round as int]));
                assert forall|k: int| 0 <= k < unique@.len() implies (
                #[trigger] unique@[k])@.len() * EF::degree() <= usize::MAX && field::all_valid(
                    unique@[k]@,
                ) by {
                    assert(all_rows.contains(unique@[k]@));
                    let q = choose|q: int| 0 <= q < all_rows.len() && all_rows[q] == unique@[k]@;
                    assert(rows@[q]@.len() == 2);
                }
                assert(proofs[round as int] == iopp_pruned.round_pruned_proofs@[round as int]@);
            }
            let height: usize = bits::two_to_the(log_len - 1);
            if !verify_rows(
                &self.permutation,
                &iopp_commitments[round],
                height,
                &unique,
                &iopp_pruned.round_pruned_proofs[round],
            ) {
                return Err(BaseFoldError::CommitPhaseMmcsError);
            }
            let mut next: Vec<QueryState<EF>> = Vec::new();
            let mut q: usize = 0;
            while q < n
                invariant
                    q <= n,
                    n == ms@.len(),
                    rows@.len() == n,
                    all_rows == mmcs::rows_of(rows@),
                    c.wf(),
                    c.challenges == folding_challenges@,
                    c.point == opening_point@,
                    num_vars == folding_challenges@.len(),
                    round < limit <= num_vars,
                    log_len == c.log_len(round as nat),
                    log_len > 0,
                    states_wf(ms@, log_len as nat),
                    forall|k: int| 0 <= k < n ==> (#[trigger] rows@[k])@.len() == 2,
                    next@.len() == q,
                    states_wf(next@, (log_len - 1) as nat),
                    forall|k: int|
                        0 <= k < q ==> #[trigger] next@[k] == query::stepped(
                            ms@[k],
                            all_rows[k],
                            c.log_len(round as nat),
                            c.challenges[round as int],
                            c.point[c.num_vars() - 1 - round],
                        ),
                decreases n - q,
            {
                proof {
                    assert(rows@[q as int]@.len() == 2);
                    query::lemma_stepped_valid(
                        ms@[q as int],
                        rows@[q as int]@,
                        log_len as nat,
                        folding_challenges@[round as int],
                        opening_point@[num_vars - 1 - round],
                    );
                    assert(ms@[q as int].query < pow2(log_len as nat));
                    query::lemma_halved(ms@[q as int].query as nat, log_len as nat);
                }
                next.push(
                    step_query(
                        ms[q],
                        &rows[q],
                        log_len,
                        folding_challenges[round],
                        opening_point[num_vars - 1 - round],
                    ),
                );
                q += 1;
            }
            proof {
                assert(next@ =~= Seq::new(
                    states@.len(),
                    |q: int|
                        query::stepped(
                            ms@[q],
                            all_rows[q],
                            c.log_len(round as nat),
                            c.challenges[round as int],
                            c.point[c.num_vars() - 1 - round],
                        ),
                ));
            }
            states = next;
            round += 1;
        }
        proof {
            assert forall|k: int| 0 <= k < states@.len() implies query::tail_fits(
                c,
                (#[trigger] states@[k]).query as nat,
                limit as nat,
            ) by {
                if c.final_codeword is Some && limit < num_vars {
                    let word = c.final_codeword->0;
                    let m = bits::log2(word.len());
                    if m < c.log_len(limit as nat) {
                        lemma_pow2_strictly_increases(m, c.log_len(limit as nat));
                    }
                }
            }
        }
        Self::finish_all(
            Ghost(c),
            log_blowup,
            leaf_sums_per_query,
            folding_challenges,
            merge_betas,
            opening_point,
            expected_final_value,
            final_codeword,
            &states,
            limit,
        )
    }
}

} // verus!
