//! Openings of true values with values out of the domain are accepted.
use vstd::prelude::*;
use vstd::arithmetic::power2::*;
use crate::basefold::batch;
use crate::basefold::challenger::Transcript;
use crate::basefold::completeness;
use crate::basefold::groups;
use crate::basefold::honest_queries::Run;
use crate::basefold::linear;
use crate::basefold::mmcs;
use crate::basefold::mmcs::{Dimensions, MerkleField};
use crate::basefold::opening;
use crate::basefold::opening::Request;
use crate::basefold::openings::{BaseFoldError, BasefoldProof};
use crate::basefold::pcs::BaseFoldPcs;
use crate::basefold::prover;
use crate::basefold::query;
use crate::basefold::rounds;
use crate::basefold::verdict;
use crate::basefold::whir;
use crate::basefold::whir_honest;
use crate::basefold::whir_honest::WhirRun;
use crate::basefold::whir_honest_queries;
use crate::basefold::whir_rounds;
use crate::bits;
use crate::field;
use crate::field::algebra;
use crate::field::TwoAdicExtension;

verus! {

/// The value of the combined equality polynomials at the challenges of a run.
pub open spec fn whir_eq_sum<F: MerkleField, EF: TwoAdicExtension<F>>(run: WhirRun<F, EF>) -> EF {
    whir_rounds::combined_eq(
        run.point,
        run.plan.groups,
        run.at(run.num_vars()).s,
        run.num_vars(),
    )
}

/// The sampled queries lie in the first codeword.
proof fn lemma_in_word<F: MerkleField>(t: Transcript<F>, len: nat, n: nat)
    requires
        len < usize::BITS,
    ensures
        t.next_bits_n(len, n).len() == n,
        forall|i: int| 0 <= i < n ==> (#[trigger] t.next_bits_n(len, n)[i]) < pow2(len),
{
    let queries = t.next_bits_n(len, n);
    vstd::bits::lemma_usize_pow2_no_overflow(len);
    lemma_pow2_pos(len);
    assert forall|i: int| 0 <= i < n implies (#[trigger] queries[i]) < pow2(len) by {
        let x = t.sampled_n(i as nat).next().to_int();
        let m = pow2(len) as int;
        assert(0 <= x % m && x % m < m);
    }
}

/// The last codeword is constant.
proof fn lemma_last_root<F: MerkleField, EF: TwoAdicExtension<F>>(
    pcs: BaseFoldPcs<F>,
    run: WhirRun<F, EF>,
)
    requires
        pcs.whir_rounds_made(run),
        run.log_blowup == pcs.fri.log_blowup,
    ensures
        run.plan.oracles.last() == F::root(
            pcs.rounds(),
            seq![
                verdict::constant_matrix::<F, EF>(
                    run.at(run.num_vars()).f[0],
                    pcs.fri.log_blowup as nat,
                ),
            ],
        ),
{
    let n = run.num_vars();
    let lb = run.log_blowup;
    whir_honest::lemma_in_order(run, n);
    lemma2_to64();
    let f = run.at(n).f;
    let v = f[0];
    assert(v.valid());
    assert(f =~= linear::constant(v, 1));
    bits::lemma_log2_pow2(0);
    EF::law_generators(0);
    linear::law_constant_encoding(v, 1, lb);
    assert(run.plan.oracles[n as int] == pcs.word_root(run.word(n), 2));
    assert(linear::constant(v, pow2(lb)) =~= Seq::new(pow2(lb), |i: int| v));
}

/// The queries of an opening of true values are accepted.
proof fn lemma_queries<F: MerkleField, EF: TwoAdicExtension<F>>(
    pcs: BaseFoldPcs<F>,
    q: Request<F, EF>,
    run: WhirRun<F, EF>,
    queries: Seq<usize>,
    p: BasefoldProof<F, EF>,
)
    requires
        pcs.can_open(q),
        q.matches(),
        prover::true_groups(q.groups(), q.tables(), q.point) == q.groups(),
        run.wf(),
        run == pcs.whir_run(q, p),
        pcs.whir_answers_made(q, run, queries, p),
        !pcs.use_path_pruning,
        forall|i: int|
            0 <= i < queries.len() ==> (#[trigger] queries[i]) < pow2(
                q.num_vars() + pcs.fri.log_blowup as nat,
            ),
    ensures
        whir::queries_accepted(
            pcs.joined_iopp(
                p.iopp_oracles@,
                run.at(run.num_vars()).s.challenges,
                run.at(run.num_vars()).s.merging,
                run.at(run.num_vars()).f[0],
            ),
            pcs.roots_of(q.trees),
            q.sizes(),
            q.groups(),
            p,
            queries,
        ),
        p.iopp_queries@.len() == queries.len(),
        p.query_openings.per_query@.len() == queries.len(),
{
    let n = q.num_vars();
    let lb = pcs.fri.log_blowup as nat;
    let end = run.at(n);
    let c = pcs.joined_iopp(p.iopp_oracles@, end.s.challenges, end.s.merging, end.f[0]);
    whir_honest::lemma_in_order(run, n);
    assert forall|i: int| 0 <= i < queries.len() implies (#[trigger] whir::verdict_at(
        c,
        pcs.roots_of(q.trees),
        q.sizes(),
        q.groups(),
        p,
        queries,
        i,
    )) is Ok by {
        let leaves = p.query_openings.per_query@[i]@;
        let query = queries[i];
        assert(pcs.leaves_opened(q.sizes(), q.trees, n, query as nat, leaves));
        assert(query < pow2(n + lb));
        completeness::lemma_leaves(pcs, q, leaves, query as nat);
        let rows = batch::opening_rows(leaves);
        let proxy = Run {
            plan: pcs.base_plan(q),
            tables: q.tables(),
            point: q.point,
            transcript: q.transcript,
            log_blowup: lb,
        };
        completeness::lemma_has_sums(pcs, q, proxy, rows, query as nat);
        let sums = batch::leaf_sums(q.groups(), rows, lb);
        assert(run.has_sums(sums, query as nat)) by {
            assert forall|g: int| 0 <= g < sums.len() implies (#[trigger] sums[g]).0
                == run.plan.groups[g].log_height + lb && sums[g].1
                == crate::basefold::encode::encoded(run.tables[g], lb)[(query as nat / pow2(
                (n - run.plan.groups[g].log_height) as nat,
            )) as int] by {}
        }
        let steps = p.iopp_queries@[i].commit_phase_openings@;
        assert(run.words().all_answered(pcs.rounds(), query as nat, p.iopp_queries@[i]));
        assert forall|j: nat| j < n implies #[trigger] whir_honest_queries::pair_opened(
            run,
            c,
            steps,
            query as nat,
            j,
        ) by {
            let w = run.words();
            assert(w.answered(pcs.rounds(), steps, query as nat, j));
            assert(w.words[j as int] == run.word(j));
            assert(c.log_len(j) == n + lb - j);
            lemma_pow2_pos(j);
            vstd::arithmetic::div_mod::lemma_div_pos_is_pos(query as int, pow2(j) as int);
            let at = query as nat / pow2(j);
            assert((at as int / 2) as nat == at / 2);
            assert(w.roots[j as int] == c.oracles[j as int]);
        }
        whir_honest_queries::law_whir_query_accepted(run, c, sums, steps, query);
    }
}

/// An opening of true values with values out of the domain is accepted, and leaves the prover and
/// the verifier with the same transcript. Every matrix has at least two rows, and the combined
/// equality polynomials do not vanish at the challenges. Openings with values out of the domain do
/// not share their Merkle paths: the verifier asks for an answer to each query.
#[verifier::spinoff_prover]
#[verifier::rlimit(80)]
pub proof fn law_whir_accepted<F: MerkleField, EF: TwoAdicExtension<F>>(
    pcs: BaseFoldPcs<F>,
    q: Request<F, EF>,
    p: BasefoldProof<F, EF>,
    end: Transcript<F>,
    dims: Seq<Vec<Dimensions>>,
    values: Seq<Vec<Vec<EF>>>,
)
    requires
        pcs.can_open(q),
        q.matches(),
        q.is_true(),
        pcs.whir_made(q, p, end),
        batch::size_heights(dims) == q.sizes(),
        groups::all_widths(dims) == opening::matrix_widths(q.matrices),
        mmcs::row_sets_of(values) == q.values,
        q.heights().last() >= 1,
        !pcs.use_path_pruning,
        field::is_unit(whir_eq_sum(pcs.whir_run(q, p))),
    ensures
        pcs.whir_outcome(pcs.roots_of(q.trees), dims, q.point, values, p, q.transcript) == (
            Ok::<(), BaseFoldError>(()),
            end,
        ),
{
    opening::lemma_request(pcs, q);
    completeness::lemma_true_groups(pcs, q);
    let n = q.num_vars();
    let lb = pcs.fri.log_blowup as nat;
    let run = pcs.whir_run(q, p);
    let plan = run.plan;
    let gs = q.groups();
    let heights = q.heights();
    assert(plan.groups == gs);
    assert(gs[gs.len() - 1].log_height == heights[gs.len() - 1]);
    assert(gs[0].log_height == heights[0]);
    assert(run.wf());
    assert(groups::value_lens(values) =~= opening::lens(q.values)) by {
        assert forall|b: int| 0 <= b < values.len() implies groups::value_lens(values)[b]
            == opening::lens(q.values)[b] by {
            assert(q.values[b] == mmcs::rows_of(values[b]@));
            assert(groups::value_lens(values)[b] =~= opening::lens(q.values)[b]);
        }
        assert(q.values.len() == values.len());
    }
    whir_honest::law_whir_rounds_check(run, 0);
    whir_honest::lemma_in_order(run, n);
    whir_honest_queries::law_last_whir_claim(run);
    algebra::lemma_unit(whir_eq_sum(run));
    lemma_last_root(pcs, run);
    let s = whir_rounds::announced(plan, run.at(n).s, 0);
    let queried = s.transcript.observed(p.grinding_query_witness@[0]).checked_witness(
        p.grinding_query_witness@[1],
    );
    let queries = queried.next_bits_n(n + lb, pcs.fri.num_queries as nat);
    lemma_in_word(queried, n + lb, pcs.fri.num_queries as nat);
    lemma_queries(pcs, q, run, queries, p);
    assert(pcs.whir_plan(n, gs, p) == plan);
    lemma_same_eq(run, s, n);
    assert(queries.len() == pcs.fri.num_queries);
    assert(pcs.whir_finish(pcs.roots_of(q.trees), q.sizes(), q.point, gs, p, s) == (
        Ok::<(), BaseFoldError>(()),
        end,
    ));
    assert(p.iopp_oracles@.len() == plan.oracles.len());
    assert(whir_rounds::rounds_from(plan, whir_rounds::first_state(plan, run.transcript), n) == (
        s,
        None::<BaseFoldError>,
    ));
}

/// The combined equality polynomials do not depend on the transcript.
proof fn lemma_same_eq<F: MerkleField, EF: TwoAdicExtension<F>>(
    run: WhirRun<F, EF>,
    s: whir_rounds::WhirState<F, EF>,
    i: nat,
)
    requires
        s.challenges == run.at(run.num_vars()).s.challenges,
        s.merging == run.at(run.num_vars()).s.merging,
        s.alphas == run.at(run.num_vars()).s.alphas,
        s.gammas == run.at(run.num_vars()).s.gammas,
    ensures
        whir_rounds::combined_eq(run.point, run.plan.groups, s, i) == whir_rounds::combined_eq(
            run.point,
            run.plan.groups,
            run.at(run.num_vars()).s,
            i,
        ),
    decreases i,
{
    if i > 0 {
        lemma_same_eq(run, s, (i - 1) as nat);
    }
}

/// The polynomials of the first rounds are canonical.
proof fn lemma_polys<F: MerkleField, EF: TwoAdicExtension<F>>(run: WhirRun<F, EF>, i: nat, j: int)
    requires
        run.sound(),
        i <= run.num_vars(),
        0 <= j < run.at(i).s.polys,
    ensures
        run.plan.polys[j].len() > 0,
        field::all_valid(run.plan.polys[j]),
    decreases i,
{
    if i > 0 {
        let k = (i - 1) as nat;
        assert(run.round_made(k));
        if j < run.at(k).s.polys {
            lemma_polys(run, k, j);
        }
    }
}

/// An opening with values out of the domain is one that the verifier takes: its numbers are
/// canonical.
#[verifier::spinoff_prover]
#[verifier::rlimit(100)]
pub proof fn law_whir_fits<F: MerkleField, EF: TwoAdicExtension<F>>(
    pcs: BaseFoldPcs<F>,
    q: Request<F, EF>,
    p: BasefoldProof<F, EF>,
    end: Transcript<F>,
)
    requires
        pcs.can_open(q),
        q.matches(),
        pcs.whir_made(q, p, end),
    ensures
        mmcs::are_digests(pcs.roots_of(q.trees)),
        batch::sizes_wf(q.sizes(), q.num_vars()),
        pcs.proof_canonical(p),
{
    opening::lemma_request(pcs, q);
    let n = q.num_vars();
    let lb = pcs.fri.log_blowup as nat;
    let run = pcs.whir_run(q, p);
    let queried = pcs.after_whir_rounds(run).observed(
        p.grinding_query_witness@[0],
    ).checked_witness(p.grinding_query_witness@[1]);
    let queries = queried.next_bits_n(n + lb, pcs.fri.num_queries as nat);
    lemma_in_word(queried, n + lb, pcs.fri.num_queries as nat);
    assert forall|b: int| 0 <= b < pcs.roots_of(q.trees).len() implies mmcs::is_digest(
        #[trigger] pcs.roots_of(q.trees)[b],
    ) by {
        F::law_root(pcs.rounds(), F::tree_matrices(q.trees[b]));
    }
    let polys = rounds::poly_coeffs(p.sumcheck_transcript.uni_polys@);
    assert forall|j: int| 0 <= j < polys.len() implies (#[trigger] polys[j]).len() > 0
        && field::all_valid(polys[j]) by {
        lemma_polys(run, n, j);
    }
    assert forall|j: int| 0 <= j < whir::responses_of(p).len() implies (
    #[trigger] whir::responses_of(p)[j]).valid() by {
        whir_honest::lemma_in_order(run, j as nat);
        assert(run.round_made(j as nat));
        assert(mmcs::is_digest(run.plan.oracles[j]));
        whir_honest::lemma_asked(run, run.at(j as nat), j as nat);
    }
    assert forall|i: int| 0 <= i < p.iopp_queries@.len() implies query::steps_wf(
        (#[trigger] p.iopp_queries@[i]).commit_phase_openings@,
    ) by {
        assert(run.words().all_answered(pcs.rounds(), queries[i] as nat, p.iopp_queries@[i]));
    }
    assert forall|i: int| 0 <= i < p.query_openings.per_query@.len() implies
        batch::openings_canonical((#[trigger] p.query_openings.per_query@[i])@) by {
        assert(queries[i] < pow2(n + lb));
        completeness::lemma_leaves(pcs, q, p.query_openings.per_query@[i]@, queries[i] as nat);
    }
    assert(run.plan.oracles.len() == p.iopp_oracles@.len());
}

} // verus!
