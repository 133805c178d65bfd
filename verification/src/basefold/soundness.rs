//! What an accepted opening has been checked for in the rounds of its sumcheck.
use vstd::prelude::*;
use crate::basefold::batch;
use crate::basefold::batch::GroupModel;
use crate::basefold::batching;
use crate::basefold::challenger::Transcript;
use crate::basefold::groups;
use crate::basefold::mmcs;
use crate::basefold::mmcs::{Dimensions, MerkleField};
use crate::basefold::openings::BasefoldProof;
use crate::basefold::pcs::BaseFoldPcs;
use crate::basefold::poseidon::PermutationField;
use crate::basefold::rounds;
use crate::basefold::rounds::{Plan, RoundState};
use crate::basefold::unipoly;
use crate::bits;
use crate::field;
use crate::field::algebra;
use crate::field::{ExtensionField, Field, TwoAdicExtension};

verus! {

/// The state after `i` rounds.
spec fn arrived_at<F: PermutationField, EF: ExtensionField<F>>(
    p: Plan<F, EF>,
    start: RoundState<F, EF>,
    i: nat,
) -> RoundState<F, EF>
    decreases i,
{
    if i == 0 {
        start
    } else {
        let h = (p.num_vars - i) as nat;
        let before = rounds::announced(p, arrived_at(p, start, (i - 1) as nat), h + 1);
        rounds::merged_round(p, rounds::bound_round(p, before), h)
    }
}

proof fn lemma_rounds_from<F: PermutationField, EF: ExtensionField<F>>(
    p: Plan<F, EF>,
    start: RoundState<F, EF>,
    i: nat,
)
    requires
        i <= p.num_vars,
        rounds::rounds_from(p, arrived_at(p, start, i), (p.num_vars - i) as nat).1 is None,
    ensures
        forall|j: nat|
            i <= j < p.num_vars ==> {
                let a = rounds::announced(
                    p,
                    #[trigger] arrived_at(p, start, j),
                    (p.num_vars - j) as nat,
                );
                a.polys < p.polys.len() && rounds::adds_up(p.polys[a.polys as int], a.claim)
            },
        rounds::rounds_from(p, arrived_at(p, start, i), (p.num_vars - i) as nat).0
            == rounds::announced(p, arrived_at(p, start, p.num_vars), 0),
    decreases p.num_vars - i,
{
    if i < p.num_vars {
        let s = arrived_at(p, start, i);
        assert(arrived_at(p, start, i + 1) == rounds::merged_round(
            p,
            rounds::bound_round(p, rounds::announced(p, s, (p.num_vars - i) as nat)),
            (p.num_vars - i - 1) as nat,
        ));
        lemma_rounds_from(p, start, i + 1);
        assert forall|j: nat| i <= j < p.num_vars implies {
            let a = rounds::announced(
                p,
                #[trigger] arrived_at(p, start, j),
                (p.num_vars - j) as nat,
            );
            a.polys < p.polys.len() && rounds::adds_up(p.polys[a.polys as int], a.claim)
        } by {
            if j > i {
                assert(i + 1 <= j);
            }
        }
    }
}

/// The groups that were merged before the height `h` are those that are no lower.
spec fn merged_above<EF>(g: Seq<GroupModel<EF>>, count: nat, h: int) -> bool {
    &&& 1 <= count <= g.len()
    &&& forall|j: int| 0 <= j < count ==> (#[trigger] g[j]).log_height >= h
    &&& forall|j: int| count <= j < g.len() ==> (#[trigger] g[j]).log_height < h
}

proof fn lemma_arrived<F: PermutationField, EF: ExtensionField<F>>(
    p: Plan<F, EF>,
    start: RoundState<F, EF>,
    i: nat,
)
    requires
        i <= p.num_vars,
        start.polys == 0,
        start.group == 1,
        start.challenges.len() == 0,
        start.betas.len() == 0,
        rounds::groups_descend(p.groups),
        p.groups.len() > 0,
        p.groups[0].log_height == p.num_vars,
    ensures
        ({
            let s = arrived_at(p, start, i);
            &&& s.polys == i
            &&& s.challenges.len() == i
            &&& s.betas.len() + 1 == s.group
            &&& merged_above(p.groups, s.group, p.num_vars - i)
        }),
    decreases i,
{
    if i == 0 {
        assert forall|j: int| 1 <= j < p.groups.len() implies (#[trigger] p.groups[j]).log_height
            < p.num_vars by {
            assert(p.groups[0].log_height > p.groups[j].log_height);
        }
    } else {
        lemma_arrived(p, start, (i - 1) as nat);
        let b = arrived_at(p, start, (i - 1) as nat);
        let s = arrived_at(p, start, i);
        let g = b.group as int;
        assert forall|j: int| s.group <= j < p.groups.len() implies (#[trigger] p.groups[j]).log_height
            < p.num_vars - i by {
            assert(g <= j);
            assert(p.groups[j].log_height < p.num_vars - i + 1);
            if j > g {
                assert(p.groups[g].log_height > p.groups[j].log_height);
            }
        }
    }
}

/// What is announced before the round of the height `h`: where a group of rounds starts there, or the
/// last round is done, the next root; where the folding stops there, the table that remains.
pub open spec fn announces<F: PermutationField, EF: ExtensionField<F>>(
    p: Plan<F, EF>,
    h: int,
    before: RoundState<F, EF>,
    after: RoundState<F, EF>,
) -> bool {
    let starts = exists|g: int|
        0 <= g < p.schedule.len() && (#[trigger] p.schedule[g]).start_log_height == h;
    let root = starts && h < p.num_vars || h == 0 && p.k == 0;
    &&& after.claim == before.claim
    &&& after.challenges == before.challenges
    &&& after.betas == before.betas
    &&& root && before.oracle < p.oracles.len() ==> after.transcript
        == before.transcript.observed_all(p.oracles[before.oracle as int]) && after.oracle
        == before.oracle + 1
    &&& root && before.oracle >= p.oracles.len() ==> after.transcript == before.transcript
    &&& !root && h == p.k && p.k > 0 && !starts ==> after.transcript
        == before.transcript.observed_exts(p.final_poly) && after.oracle == before.oracle
    &&& !root && (h != p.k || p.k == 0 || starts) ==> after.transcript == before.transcript
        && after.oracle == before.oracle
}

/// One round: its polynomial adds up to the claim; the next challenge is drawn after the polynomial
/// was observed; the next claim is the polynomial's value at the challenge, plus, where the matrices
/// of the next height enter, a fresh challenge times their claim.
pub open spec fn round_checked<F: PermutationField, EF: ExtensionField<F>>(
    p: Plan<F, EF>,
    i: int,
    before: RoundState<F, EF>,
    after: RoundState<F, EF>,
) -> bool {
    let g = p.polys[i];
    let seen = before.transcript.observed_exts(g);
    let r = seen.next_ext::<EF>();
    let bound = seen.sampled_ext::<EF>();
    let beta = bound.next_ext::<EF>();
    let value = unipoly::poly_eval(g, r);
    let h = p.num_vars - 1 - i;
    &&& i < p.polys.len()
    &&& unipoly::poly_eval(g, EF::zero_elem()).plus(unipoly::poly_eval(g, EF::one_elem()))
        == before.claim
    &&& after.challenges == before.challenges.push(r)
    &&& forall|j: int|
        0 <= j < p.groups.len() && (#[trigger] p.groups[j]).log_height == h ==> {
            &&& after.claim == value.plus(beta.times(p.groups[j].claim))
            &&& after.betas == before.betas.push(beta)
            &&& after.betas.len() == j
            &&& after.transcript == bound.sampled_ext::<EF>()
        }
    &&& (forall|j: int| 0 <= j < p.groups.len() ==> (#[trigger] p.groups[j]).log_height != h) ==> {
        &&& after.claim == value
        &&& after.betas == before.betas
        &&& after.transcript == bound
    }
}

/// All rounds have been checked: the states in which the rounds are arrived at, and those in which
/// they are ready.
pub open spec fn rounds_checked<F: PermutationField, EF: ExtensionField<F>>(
    p: Plan<F, EF>,
    arrived: Seq<RoundState<F, EF>>,
    ready: Seq<RoundState<F, EF>>,
) -> bool {
    &&& arrived.len() == p.num_vars + 1
    &&& ready.len() == p.num_vars + 1
    &&& arrived[0].claim == p.groups[0].claim
    &&& arrived[0].challenges.len() == 0
    &&& arrived[0].betas.len() == 0
    &&& forall|i: int|
        0 <= i <= p.num_vars ==> announces(p, p.num_vars - i, arrived[i], #[trigger] ready[i])
    &&& forall|i: int|
        0 <= i < p.num_vars ==> round_checked(p, i, #[trigger] ready[i], arrived[i + 1])
}

proof fn lemma_rounds_checked<F: PermutationField, EF: ExtensionField<F>>(
    p: Plan<F, EF>,
    t: Transcript<F>,
) -> (r: (Seq<RoundState<F, EF>>, Seq<RoundState<F, EF>>))
    requires
        rounds::groups_descend(p.groups),
        p.groups.len() > 0,
        p.groups[0].log_height == p.num_vars,
        rounds::rounds_from(p, rounds::first_state(p, t), p.num_vars).1 is None,
    ensures
        rounds_checked(p, r.0, r.1),
        r.0[0].transcript == (if p.oracles.len() > 0 {
            t.observed_all(p.oracles[0])
        } else {
            t
        }),
        r.0[0].oracle == 1,
        r.1.last() == rounds::rounds_from(p, rounds::first_state(p, t), p.num_vars).0,
{
    let start = rounds::first_state(p, t);
    let n = p.num_vars;
    let arrived = Seq::new(n + 1, |i: int| arrived_at(p, start, i as nat));
    let ready = Seq::new(
        n + 1,
        |i: int| rounds::announced(p, arrived_at(p, start, i as nat), (n - i) as nat),
    );
    assert(arrived_at(p, start, 0) == start);
    lemma_rounds_from(p, start, 0);
    assert forall|i: int| 0 <= i <= n implies announces(p, n - i, arrived[i], #[trigger] ready[i]) by {
        let h = n - i;
        assert(rounds::is_start(p.schedule, h as nat) == exists|g: int|
            0 <= g < p.schedule.len() && (#[trigger] p.schedule[g]).start_log_height == h);
    }
    assert forall|i: int| 0 <= i < n implies round_checked(p, i, #[trigger] ready[i], arrived[i + 1]) by {
        lemma_arrived(p, start, i as nat);
        let a = arrived_at(p, start, i as nat);
        let b = ready[i];
        let h = n - 1 - i;
        assert(rounds::adds_up(p.polys[b.polys as int], b.claim));
        assert(arrived[i + 1] == rounds::merged_round(
            p,
            rounds::bound_round(p, b),
            h as nat,
        ));
        assert forall|j: int| 0 <= j < p.groups.len() && (#[trigger] p.groups[j]).log_height
            == h implies j == a.group by {
            if j < a.group {
                assert(p.groups[j].log_height >= n - i);
            } else if j > a.group {
                assert(p.groups[a.group as int].log_height > p.groups[j].log_height);
                assert(p.groups[a.group as int].log_height < n - i);
            }
        }
        if a.group < p.groups.len() && p.groups[a.group as int].log_height == h {
        } else {
            assert forall|j: int| 0 <= j < p.groups.len() implies (
            #[trigger] p.groups[j]).log_height != h by {}
        }
    }
    (arrived, ready)
}

impl<F: MerkleField> BaseFoldPcs<F> {
    /// The transcript after the work for the batching challenge was checked.
    pub open spec fn batched_transcript<EF: TwoAdicExtension<F>>(
        self,
        p: BasefoldProof<F, EF>,
        t: Transcript<F>,
    ) -> Transcript<F> {
        t.sampled_ext::<EF>().observed(p.grinding_batching_witness@[0]).observed(
            p.grinding_batching_witness@[1],
        ).sampled()
    }

    /// What the rounds of a proof are checked against.
    pub open spec fn plan_for<EF: TwoAdicExtension<F>>(
        self,
        dims: Seq<Vec<Dimensions>>,
        point: Seq<EF>,
        values: Seq<Vec<Vec<EF>>>,
        p: BasefoldProof<F, EF>,
        t: Transcript<F>,
    ) -> Plan<F, EF> {
        let sizes = batch::size_heights(dims);
        self.plan_of(
            point.len(),
            groups::group_heights(sizes, point.len() + 1),
            groups::groups_below(
                sizes,
                mmcs::row_sets_of(values),
                t.next_ext::<EF>(),
                0,
                point.len() + 1,
            ),
            p,
        )
    }

    /// The state after the rounds of a proof.
    pub open spec fn rounds_end<EF: TwoAdicExtension<F>>(
        self,
        dims: Seq<Vec<Dimensions>>,
        point: Seq<EF>,
        values: Seq<Vec<Vec<EF>>>,
        p: BasefoldProof<F, EF>,
        t: Transcript<F>,
    ) -> RoundState<F, EF> {
        let plan = self.plan_for(dims, point, values, p, t);
        rounds::rounds_from(
            plan,
            rounds::first_state(plan, self.batched_transcript(p, t)),
            plan.num_vars,
        ).0
    }
}

pub proof fn lemma_accepted<F: MerkleField, EF: TwoAdicExtension<F>>(
    pcs: BaseFoldPcs<F>,
    roots: Seq<Seq<F>>,
    dims: Seq<Vec<Dimensions>>,
    point: Seq<EF>,
    values: Seq<Vec<Vec<EF>>>,
    p: BasefoldProof<F, EF>,
    t: Transcript<F>,
)
    requires
        pcs.verify_outcome(roots, dims, point, values, p, t).0 is Ok,
    ensures
        ({
            let plan = pcs.plan_for(dims, point, values, p, t);
            let t3 = pcs.batched_transcript(p, t);
            let sizes = batch::size_heights(dims);
            let heights = groups::group_heights(sizes, point.len() + 1);
            let end = rounds::rounds_from(
                plan,
                rounds::first_state(plan, t3),
                plan.num_vars,
            );
            &&& plan.groups.len() > 0
            &&& plan.groups.len() == heights.len()
            &&& plan.groups[0].log_height == plan.num_vars
            &&& forall|i: int|
                0 <= i < plan.groups.len() ==> (#[trigger] plan.groups[i]).log_height == heights[i]
            &&& rounds::groups_descend(plan.groups)
            &&& forall|i: int|
                0 <= i < plan.groups.len() ==> (#[trigger] plan.groups[i]).claim.valid()
            &&& end.1 is None
            &&& pcs.finish_outcome(roots, sizes, point, plan.groups, heights, p, end.0).0 is Ok
        }),
{
    let sizes = batch::size_heights(dims);
    let vals = mmcs::row_sets_of(values);
    let alpha = t.next_ext::<EF>();
    let end = (point.len() + 1) as nat;
    groups::lemma_groups_wf(sizes, vals, alpha, 0, end);
    rounds::lemma_groups_below(sizes, vals, alpha, 0, end);
    let g = groups::groups_below(sizes, vals, alpha, 0, end);
    let heights = groups::group_heights(sizes, end);
    assert(g.len() == heights.len());
    assert(heights.len() > 0 && heights[0] == point.len());
    assert(g[0].log_height == heights[0]);
}

/// There is a challenge for each round.
pub proof fn lemma_challenges<F: PermutationField, EF: ExtensionField<F>>(
    p: Plan<F, EF>,
    t: Transcript<F>,
)
    requires
        rounds::groups_descend(p.groups),
        p.groups.len() > 0,
        p.groups[0].log_height == p.num_vars,
        rounds::rounds_from(p, rounds::first_state(p, t), p.num_vars).1 is None,
    ensures
        rounds::rounds_from(p, rounds::first_state(p, t), p.num_vars).0.challenges.len()
            == p.num_vars,
{
    let start = rounds::first_state(p, t);
    assert(arrived_at(p, start, 0) == start);
    lemma_rounds_from(p, start, 0);
    lemma_arrived(p, start, p.num_vars);
}

/// Law: where an opening is accepted, every round of its sumcheck has been checked against the claim
/// that the rounds before and the claimed values leave.
pub proof fn law_accepted_rounds<F: MerkleField, EF: TwoAdicExtension<F>>(
    pcs: BaseFoldPcs<F>,
    roots: Seq<Seq<F>>,
    dims: Seq<Vec<Dimensions>>,
    point: Seq<EF>,
    values: Seq<Vec<Vec<EF>>>,
    p: BasefoldProof<F, EF>,
    t: Transcript<F>,
)
    requires
        pcs.verify_outcome(roots, dims, point, values, p, t).0 is Ok,
    ensures
        exists|arrived: Seq<RoundState<F, EF>>, ready: Seq<RoundState<F, EF>>|
            {
                let plan = pcs.plan_for(dims, point, values, p, t);
                let t3 = pcs.batched_transcript(p, t);
                &&& #[trigger] rounds_checked(
                    pcs.plan_for(dims, point, values, p, t),
                    arrived,
                    ready,
                )
                &&& arrived[0].transcript == (if plan.oracles.len() > 0 {
                    t3.observed_all(plan.oracles[0])
                } else {
                    t3
                })
                &&& arrived[0].oracle == 1
                &&& ready.last() == pcs.rounds_end(dims, point, values, p, t)
            },
{
    lemma_accepted(pcs, roots, dims, point, values, p, t);
    let plan = pcs.plan_for(dims, point, values, p, t);
    let (arrived, ready) = lemma_rounds_checked(plan, pcs.batched_transcript(p, t));
    assert(rounds_checked(plan, arrived, ready));
}

/// The plans differ in the claims of their groups alone.
pub open spec fn same_but_claims<F, EF>(a: Plan<F, EF>, b: Plan<F, EF>) -> bool {
    &&& a.num_vars == b.num_vars
    &&& a.k == b.k
    &&& a.schedule == b.schedule
    &&& a.oracles == b.oracles
    &&& a.final_poly == b.final_poly
    &&& a.polys == b.polys
    &&& a.groups.len() == b.groups.len()
    &&& forall|i: int|
        0 <= i < a.groups.len() ==> (#[trigger] a.groups[i]).log_height == b.groups[i].log_height
}

spec fn same_but_claim<F, EF>(a: RoundState<F, EF>, b: RoundState<F, EF>) -> bool {
    &&& a.transcript == b.transcript
    &&& a.challenges == b.challenges
    &&& a.betas == b.betas
    &&& a.polys == b.polys
    &&& a.oracle == b.oracle
    &&& a.group == b.group
}

proof fn lemma_same_states<F: PermutationField, EF: ExtensionField<F>>(
    a: Plan<F, EF>,
    b: Plan<F, EF>,
    s: RoundState<F, EF>,
    u: RoundState<F, EF>,
    i: nat,
)
    requires
        same_but_claims(a, b),
        same_but_claim(s, u),
        i <= a.num_vars,
    ensures
        same_but_claim(arrived_at(a, s, i), arrived_at(b, u, i)),
    decreases i,
{
    if i > 0 {
        lemma_same_states(a, b, s, u, (i - 1) as nat);
        let x = arrived_at(a, s, (i - 1) as nat);
        let g = x.group as int;
        if g < a.groups.len() {
            assert(a.groups[g].log_height == b.groups[g].log_height);
        }
    }
}

proof fn lemma_betas_prefix<F: PermutationField, EF: ExtensionField<F>>(
    p: Plan<F, EF>,
    s: RoundState<F, EF>,
    i: nat,
    j: nat,
)
    requires
        i <= j,
    ensures
        arrived_at(p, s, i).betas.len() <= arrived_at(p, s, j).betas.len(),
        forall|k: int|
            0 <= k < arrived_at(p, s, i).betas.len() ==> #[trigger] arrived_at(p, s, i).betas[k]
                == arrived_at(p, s, j).betas[k],
    decreases j,
{
    if i < j {
        lemma_betas_prefix(p, s, i, (j - 1) as nat);
    }
}

/// Two plans that differ in the claims alone, and whose rounds all pass, have the same claims.
proof fn lemma_same_claims<F: PermutationField, EF: ExtensionField<F>>(
    a: Plan<F, EF>,
    b: Plan<F, EF>,
    t: Transcript<F>,
    k: int,
)
    requires
        same_but_claims(a, b),
        rounds::groups_descend(a.groups),
        rounds::groups_descend(b.groups),
        a.groups.len() > 0,
        a.groups[0].log_height == a.num_vars,
        rounds::rounds_from(a, rounds::first_state(a, t), a.num_vars).1 is None,
        rounds::rounds_from(b, rounds::first_state(b, t), b.num_vars).1 is None,
        rounds::polys_wf(a.polys),
        a.groups[k].claim.valid(),
        b.groups[k].claim.valid(),
        forall|i: int|
            0 <= i < rounds::rounds_from(a, rounds::first_state(a, t), a.num_vars).0.betas.len()
                ==> field::is_unit(
                #[trigger] rounds::rounds_from(
                    a,
                    rounds::first_state(a, t),
                    a.num_vars,
                ).0.betas[i],
            ) && rounds::rounds_from(a, rounds::first_state(a, t), a.num_vars).0.betas[i].valid(),
        0 <= k < a.groups.len(),
        a.groups[k].log_height >= 1,
    ensures
        a.groups[k].claim == b.groups[k].claim,
{
    broadcast use algebra::group_valid;

    let n = a.num_vars;
    let s = rounds::first_state(a, t);
    let u = rounds::first_state(b, t);
    let h = a.groups[k].log_height;
    assert(b.groups[0].log_height == n) by {
        assert(a.groups[0].log_height == b.groups[0].log_height);
    }
    assert(arrived_at(a, s, 0) == s && arrived_at(b, u, 0) == u);
    lemma_rounds_from(a, s, 0);
    lemma_rounds_from(b, u, 0);
    if k > 0 {
        assert(a.groups[0].log_height > a.groups[k].log_height);
    }
    let i = (n - h) as nat;
    lemma_same_states(a, b, s, u, i);
    lemma_arrived(a, s, i);
    lemma_arrived(b, u, i);
    let x = arrived_at(a, s, i);
    let y = arrived_at(b, u, i);
    let ax = rounds::announced(a, x, h);
    let by = rounds::announced(b, y, h);
    assert(rounds::adds_up(a.polys[ax.polys as int], ax.claim));
    assert(rounds::adds_up(b.polys[by.polys as int], by.claim));
    assert(x.claim == y.claim);
    if k > 0 {
        assert(i > 0);
        let j = (i - 1) as nat;
        lemma_same_states(a, b, s, u, j);
        lemma_arrived(a, s, j);
        lemma_arrived(b, u, j);
        let x0 = rounds::announced(a, arrived_at(a, s, j), h + 1);
        let y0 = rounds::announced(b, arrived_at(b, u, j), h + 1);
        let g = arrived_at(a, s, j).group as int;
        assert(g == k) by {
            if k < g {
                assert(a.groups[k].log_height >= n - j);
            } else if k > g {
                assert(a.groups[g].log_height > a.groups[k].log_height);
                assert(a.groups[g].log_height < n - j);
            }
        }
        assert(b.groups[g].log_height == h) by {
            assert(a.groups[k].log_height == b.groups[k].log_height);
        }
        let bound = rounds::bound_round(a, x0);
        let beta = bound.transcript.next_ext::<EF>();
        assert(x.betas.last() == beta);
        lemma_betas_prefix(a, s, i, n);
        let end = rounds::rounds_from(a, s, n).0;
        let last = x.betas.len() - 1;
        assert(end.betas == arrived_at(a, s, n).betas);
        assert(x.betas[last] == end.betas[last]);
        assert(field::is_unit(beta) && beta.valid());
        let v = unipoly::poly_eval(a.polys[x0.polys as int], bound.challenges.last());
        unipoly::lemma_poly_eval_valid(a.polys[x0.polys as int], bound.challenges.last());
        let (c, d) = (a.groups[k].claim, b.groups[k].claim);
        assert(x.claim == v.plus(beta.times(c)));
        assert(y.claim == v.plus(beta.times(d)));
        algebra::lemma_plus_cancel(v, beta.times(c), beta.times(d));
        lemma_cancel_unit(beta, c, d);
    }
}

pub proof fn lemma_cancel_unit<EF: Field>(u: EF, c: EF, d: EF)
    requires
        u.valid(),
        c.valid(),
        d.valid(),
        field::is_unit(u),
        u.times(c) == u.times(d),
    ensures
        c == d,
{
    algebra::lemma_unit(u);
    let y = field::inverse(u);
    algebra::lemma_products(y, u, c);
    algebra::lemma_products(y, u, d);
    algebra::lemma_products(c, c, c);
    algebra::lemma_products(d, d, d);
}

/// Law: with everything else the same, two lists of values that are both accepted give the same claim
/// for the matrices of every height of two rows or more. No merge challenge vanishes.
pub proof fn law_accepted_claims<F: MerkleField, EF: TwoAdicExtension<F>>(
    pcs: BaseFoldPcs<F>,
    roots: Seq<Seq<F>>,
    dims: Seq<Vec<Dimensions>>,
    point: Seq<EF>,
    values: Seq<Vec<Vec<EF>>>,
    others: Seq<Vec<Vec<EF>>>,
    p: BasefoldProof<F, EF>,
    t: Transcript<F>,
)
    requires
        pcs.verify_outcome(roots, dims, point, values, p, t).0 is Ok,
        pcs.verify_outcome(roots, dims, point, others, p, t).0 is Ok,
        rounds::polys_wf(rounds::poly_coeffs(p.sumcheck_transcript.uni_polys@)),
        forall|i: int|
            0 <= i < pcs.rounds_end(dims, point, values, p, t).betas.len() ==> field::is_unit(
                #[trigger] pcs.rounds_end(dims, point, values, p, t).betas[i],
            ) && pcs.rounds_end(dims, point, values, p, t).betas[i].valid(),
    ensures
        ({
            let a = pcs.plan_for(dims, point, values, p, t).groups;
            let b = pcs.plan_for(dims, point, others, p, t).groups;
            &&& a.len() == b.len()
            &&& forall|i: int|
                0 <= i < a.len() && (#[trigger] a[i]).log_height >= 1 ==> a[i].claim == b[i].claim
                    && a[i].log_height == b[i].log_height
        }),
{
    lemma_accepted(pcs, roots, dims, point, values, p, t);
    lemma_accepted(pcs, roots, dims, point, others, p, t);
    let a = pcs.plan_for(dims, point, values, p, t);
    let b = pcs.plan_for(dims, point, others, p, t);
    let t3 = pcs.batched_transcript(p, t);
    assert(same_but_claims(a, b)) by {
        assert forall|i: int| 0 <= i < a.groups.len() implies (#[trigger] a.groups[i]).log_height
            == b.groups[i].log_height by {
            assert(b.groups[i].log_height == b.groups[i].log_height);
        }
    }
    assert forall|i: int| 0 <= i < a.groups.len() && (#[trigger] a.groups[i]).log_height
        >= 1 implies a.groups[i].claim == b.groups[i].claim && a.groups[i].log_height
        == b.groups[i].log_height by {
        assert(b.groups[i].claim.valid());
        let end = rounds::rounds_from(a, rounds::first_state(a, t3), a.num_vars).0;
        assert(end == pcs.rounds_end(dims, point, values, p, t));
        assert forall|j: int| 0 <= j < end.betas.len() implies field::is_unit(
            #[trigger] end.betas[j],
        ) && end.betas[j].valid() by {
            assert(field::is_unit(pcs.rounds_end(dims, point, values, p, t).betas[j]));
        }
        lemma_same_claims(a, b, t3, i);
    }
}

/// Law: where an opening is accepted, it is not accepted with one of the claimed values changed, where
/// the value is that of a matrix of two rows or more. Neither the batching challenge nor a merge
/// challenge vanishes.
pub proof fn law_changed_value_refused<F: MerkleField, EF: TwoAdicExtension<F>>(
    pcs: BaseFoldPcs<F>,
    roots: Seq<Seq<F>>,
    dims: Seq<Vec<Dimensions>>,
    point: Seq<EF>,
    values: Seq<Vec<Vec<EF>>>,
    others: Seq<Vec<Vec<EF>>>,
    p: BasefoldProof<F, EF>,
    t: Transcript<F>,
    b: int,
    m: int,
    c: int,
    d: EF,
)
    requires
        pcs.verify_outcome(roots, dims, point, values, p, t).0 is Ok,
        rounds::polys_wf(rounds::poly_coeffs(p.sumcheck_transcript.uni_polys@)),
        batching::values_valid(mmcs::row_sets_of(values)),
        0 <= b < values.len(),
        0 <= m < values[b]@.len(),
        0 <= c < values[b]@[m]@.len(),
        d.valid(),
        d != EF::zero_elem(),
        mmcs::row_sets_of(others) == batching::raised(mmcs::row_sets_of(values), b, m, c, d),
        1 <= bits::log2(batch::size_heights(dims)[b][m]) <= point.len(),
        t.next_ext::<EF>().valid(),
        field::is_unit(t.next_ext::<EF>()),
        forall|i: int|
            0 <= i < pcs.rounds_end(dims, point, values, p, t).betas.len() ==> field::is_unit(
                #[trigger] pcs.rounds_end(dims, point, values, p, t).betas[i],
            ) && pcs.rounds_end(dims, point, values, p, t).betas[i].valid(),
    ensures
        pcs.verify_outcome(roots, dims, point, others, p, t).0 is Err,
{
    broadcast use algebra::group_valid;

    if pcs.verify_outcome(roots, dims, point, others, p, t).0 is Ok {
        law_accepted_claims(pcs, roots, dims, point, values, others, p, t);
        lemma_accepted(pcs, roots, dims, point, values, p, t);
        let sizes = batch::size_heights(dims);
        let vals = mmcs::row_sets_of(values);
        let alpha = t.next_ext::<EF>();
        let end = (point.len() + 1) as nat;
        lemma_shape::<F, EF>(pcs, roots, dims, point, values, p, t);
        assert(vals[b] == mmcs::rows_of(values[b]@));
        assert(vals[b][m] == values[b]@[m]@);
        batching::law_values_count(sizes, vals, alpha, 0, end, b, m, c, d);
        let x = groups::groups_below(sizes, vals, alpha, 0, end);
        let y = groups::groups_below(sizes, batching::raised(vals, b, m, c, d), alpha, 0, end);
        let h = bits::log2(sizes[b][m]);
        let i = choose|i: int| 0 <= i < x.len() && (#[trigger] x[i]).log_height == h;
        let plan = pcs.plan_for(dims, point, values, p, t);
        assert(plan.groups == x);
        assert(x[i].claim == y[i].claim);
        assert(batching::grows(x[i].claim, y[i].claim, alpha, d));
        let e = choose|e: nat|
            y[i].claim == x[i].claim.plus((#[trigger] field::power(alpha, e)).times(d));
        let f = field::power(alpha, e);
        algebra::lemma_power_valid(alpha, e);
        algebra::lemma_unit_power(alpha, e);
        let w = x[i].claim;
        assert(w.valid()) by {
            assert(plan.groups[i].claim.valid());
        }
        EF::law_constants();
        EF::law_plus(w, w, w);
        algebra::lemma_plus_cancel(w, f.times(d), EF::zero_elem());
        algebra::lemma_products(f, f, f);
        lemma_cancel_unit(f, d, EF::zero_elem());
    }
}

proof fn lemma_shape<F: MerkleField, EF: TwoAdicExtension<F>>(
    pcs: BaseFoldPcs<F>,
    roots: Seq<Seq<F>>,
    dims: Seq<Vec<Dimensions>>,
    point: Seq<EF>,
    values: Seq<Vec<Vec<EF>>>,
    p: BasefoldProof<F, EF>,
    t: Transcript<F>,
)
    requires
        pcs.verify_outcome(roots, dims, point, values, p, t).0 is Ok,
    ensures
        groups::values_shape(mmcs::row_sets_of(values), batch::size_heights(dims)),
{
    let sizes = batch::size_heights(dims);
    let vals = mmcs::row_sets_of(values);
    let widths = groups::all_widths(dims);
    let lens = groups::value_lens(values);
    assert(groups::inputs_match(EF::degree(), roots.len(), widths, lens));
    assert forall|i: int| 0 <= i < sizes.len() implies (#[trigger] vals[i]).len()
        == sizes[i].len() by {
        assert(groups::values_fit(EF::degree(), widths[i], lens[i]));
        assert(lens[i] == groups::batch_lens(values[i]@));
        assert(widths[i] == groups::widths_of(dims[i]@));
        assert(vals[i] == mmcs::rows_of(values[i]@));
        assert(sizes[i] == mmcs::dim_heights(dims[i]@));
    }
}

} // verus!
