//! What an accepted opening with values out of the domain has been checked for.
use vstd::prelude::*;
use vstd::arithmetic::power2::*;
use crate::basefold::batch;
use crate::basefold::batch::GroupModel;
use crate::basefold::batching;
use crate::basefold::challenger::Transcript;
use crate::basefold::ext_mmcs;
use crate::basefold::groups;
use crate::basefold::mlpoly;
use crate::basefold::mmcs;
use crate::basefold::mmcs::{Dimensions, MerkleField};
use crate::basefold::openings::{BasefoldProof, CommitPhaseProofStep};
use crate::basefold::pcs::BaseFoldPcs;
use crate::basefold::poseidon::PermutationField;
use crate::basefold::query;
use crate::basefold::query::{Iopp, QueryState};
use crate::basefold::query_soundness;
use crate::basefold::rounds;
use crate::basefold::soundness;
use crate::basefold::unipoly;
use crate::basefold::whir;
use crate::basefold::whir_query;
use crate::basefold::whir_rounds;
use crate::basefold::whir_rounds::{WhirPlan, WhirState};
use crate::bits;
use crate::field;
use crate::field::algebra;
use crate::field::{ExtensionField, Field, TwoAdicExtension};

verus! {

/// The two values of a polynomial at zero and one add up to the claim.
pub open spec fn sums_to<EF: Field>(g: Seq<EF>, claim: EF) -> bool {
    unipoly::poly_eval(g, EF::zero_elem()).plus(unipoly::poly_eval(g, EF::one_elem())) == claim
}

/// One round: the root of its codeword is observed, but for the first; the point out of the domain and
/// its weight are drawn, and the value there is observed; the round's polynomial adds up to the claim
/// plus the weighted value; a challenge is drawn, and the claim becomes the polynomial's value there.
/// Where matrices enter, a further polynomial adds up to that claim plus the claim of the matrices,
/// and the claim becomes its value at a further challenge.
pub open spec fn round_checked<F: PermutationField, EF: ExtensionField<F>>(
    p: WhirPlan<F, EF>,
    i: int,
    before: WhirState<F, EF>,
    after: WhirState<F, EF>,
) -> bool {
    let announced = if i > 0 {
        before.transcript.observed_all(p.oracles[i])
    } else {
        before.transcript
    };
    let alpha = announced.next_ext::<EF>();
    let gamma = announced.sampled_ext::<EF>().next_ext::<EF>();
    let answered = announced.sampled_ext::<EF>().sampled_ext::<EF>().observed_ext(p.responses[i]);
    let g = p.polys[before.polys as int];
    let seen = answered.observed_exts(g);
    let r = seen.next_ext::<EF>();
    let value = unipoly::poly_eval(g, r);
    let bound = seen.sampled_ext::<EF>();
    let join = p.polys[(before.polys + 1) as int];
    let met = bound.observed_exts(join);
    let h = p.num_vars - 1 - i;
    &&& i < p.responses.len()
    &&& i > 0 ==> i < p.oracles.len()
    &&& before.polys < p.polys.len()
    &&& sums_to(g, before.claim.plus(gamma.times(p.responses[i])))
    &&& after.alphas == before.alphas.push(alpha)
    &&& after.gammas == before.gammas.push(gamma)
    &&& after.challenges == before.challenges.push(r)
    &&& forall|j: int|
        0 <= j < p.groups.len() && (#[trigger] p.groups[j]).log_height == h ==> {
            &&& before.polys + 1 < p.polys.len()
            &&& sums_to(join, value.plus(p.groups[j].claim))
            &&& after.claim == unipoly::poly_eval(join, met.next_ext::<EF>())
            &&& after.merging == before.merging.push(met.next_ext::<EF>())
            &&& after.merging.len() == j
            &&& after.transcript == met.sampled_ext::<EF>()
            &&& after.polys == before.polys + 2
        }
    &&& (forall|j: int| 0 <= j < p.groups.len() ==> (#[trigger] p.groups[j]).log_height != h) ==> {
        &&& after.claim == value
        &&& after.merging == before.merging
        &&& after.transcript == bound
        &&& after.polys == before.polys + 1
    }
}

/// All rounds have been checked.
pub open spec fn rounds_checked<F: PermutationField, EF: ExtensionField<F>>(
    p: WhirPlan<F, EF>,
    states: Seq<WhirState<F, EF>>,
) -> bool {
    &&& states.len() == p.num_vars + 1
    &&& states[0].claim == p.groups[0].claim
    &&& states[0].polys == 0
    &&& states[0].challenges.len() == 0
    &&& states[0].merging.len() == 0
    &&& states[0].alphas.len() == 0
    &&& states[0].gammas.len() == 0
    &&& forall|i: int|
        0 <= i < p.num_vars ==> round_checked(p, i, #[trigger] states[i], states[i + 1])
}

/// The groups that were joined before the height `h` are those that are no lower.
spec fn joined_above<EF>(g: Seq<GroupModel<EF>>, count: nat, h: int) -> bool {
    &&& 1 <= count <= g.len()
    &&& forall|j: int| 0 <= j < count ==> (#[trigger] g[j]).log_height >= h
    &&& forall|j: int| count <= j < g.len() ==> (#[trigger] g[j]).log_height < h
}

proof fn lemma_rounds<F: PermutationField, EF: ExtensionField<F>>(
    p: WhirPlan<F, EF>,
    s: WhirState<F, EF>,
    i: nat,
) -> (states: Seq<WhirState<F, EF>>)
    requires
        i <= p.num_vars,
        rounds::groups_descend(p.groups),
        joined_above(p.groups, s.group, p.num_vars - i),
        s.merging.len() + 1 == s.group,
        whir_rounds::rounds_from(p, s, (p.num_vars - i) as nat).1 is None,
    ensures
        states.len() == p.num_vars + 1 - i,
        states[0] == s,
        forall|k: int|
            0 <= k < p.num_vars - i ==> round_checked(
                p,
                i + k,
                #[trigger] states[k],
                states[k + 1],
            ),
        whir_rounds::rounds_from(p, s, (p.num_vars - i) as nat).0 == (if p.num_vars > 0 {
            WhirState {
                transcript: states.last().transcript.observed_all(p.oracles[p.num_vars as int]),
                ..states.last()
            }
        } else {
            states.last()
        }),
        p.num_vars > 0 ==> p.num_vars < p.oracles.len(),
    decreases p.num_vars - i,
{
    let round = (p.num_vars - i) as nat;
    if round == 0 {
        seq![s]
    } else {
        let a = whir_rounds::announced(p, s, round);
        let w = whir_rounds::responded(p, a, round);
        let b = whir_rounds::bound(p, w);
        let below = (round - 1) as nat;
        let enters = whir_rounds::enters(p, b, below);
        let next = if enters {
            whir_rounds::met(p, b)
        } else {
            b
        };
        let g = s.group as int;
        assert forall|j: int| 0 <= j < p.groups.len() && (#[trigger] p.groups[j]).log_height
            == below implies j == g by {
            if j > g {
                assert(p.groups[g].log_height > p.groups[j].log_height);
            }
        }
        assert forall|j: int| next.group <= j < p.groups.len() implies (
        #[trigger] p.groups[j]).log_height < below by {
            assert(p.groups[j].log_height < round);
            if j > g {
                assert(p.groups[g].log_height > p.groups[j].log_height);
            }
        }
        let rest = lemma_rounds(p, next, i + 1);
        let states = seq![s] + rest;
        assert(round_checked(p, i as int, s, next));
        assert forall|k: int| 0 <= k < p.num_vars - i implies round_checked(
            p,
            i + k,
            #[trigger] states[k],
            states[k + 1],
        ) by {
            if k > 0 {
                assert(states[k] == rest[k - 1]);
                assert(states[k + 1] == rest[k]);
            } else {
                assert(states[1] == rest[0]);
            }
        }
        states
    }
}

impl<F: MerkleField> BaseFoldPcs<F> {
    /// What the rounds of a proof with values out of the domain are checked against.
    pub open spec fn whir_plan_for<EF: TwoAdicExtension<F>>(
        self,
        dims: Seq<Vec<Dimensions>>,
        point: Seq<EF>,
        values: Seq<Vec<Vec<EF>>>,
        p: BasefoldProof<F, EF>,
        t: Transcript<F>,
    ) -> WhirPlan<F, EF> {
        self.whir_plan(
            point.len(),
            groups::groups_below(
                batch::size_heights(dims),
                mmcs::row_sets_of(values),
                t.next_ext::<EF>(),
                0,
                point.len() + 1,
            ),
            p,
        )
    }

    /// The state after the rounds of a proof with values out of the domain.
    pub open spec fn whir_rounds_end<EF: TwoAdicExtension<F>>(
        self,
        dims: Seq<Vec<Dimensions>>,
        point: Seq<EF>,
        values: Seq<Vec<Vec<EF>>>,
        p: BasefoldProof<F, EF>,
        t: Transcript<F>,
    ) -> WhirState<F, EF> {
        let plan = self.whir_plan_for(dims, point, values, p, t);
        whir_rounds::rounds_from(
            plan,
            whir_rounds::first_state(plan, self.batched_transcript(p, t)),
            plan.num_vars,
        ).0
    }
}

proof fn lemma_accepted<F: MerkleField, EF: TwoAdicExtension<F>>(
    pcs: BaseFoldPcs<F>,
    roots: Seq<Seq<F>>,
    dims: Seq<Vec<Dimensions>>,
    point: Seq<EF>,
    values: Seq<Vec<Vec<EF>>>,
    p: BasefoldProof<F, EF>,
    t: Transcript<F>,
)
    requires
        pcs.whir_outcome(roots, dims, point, values, p, t).0 is Ok,
    ensures
        ({
            let plan = pcs.whir_plan_for(dims, point, values, p, t);
            let t3 = pcs.batched_transcript(p, t);
            let sizes = batch::size_heights(dims);
            let heights = groups::group_heights(sizes, point.len() + 1);
            let end = whir_rounds::rounds_from(
                plan,
                whir_rounds::first_state(plan, t3),
                plan.num_vars,
            );
            &&& plan.groups.len() > 0
            &&& plan.groups.len() == heights.len()
            &&& plan.groups[0].log_height == plan.num_vars
            &&& forall|i: int|
                0 <= i < plan.groups.len() ==> (#[trigger] plan.groups[i]).log_height == heights[i]
                    && plan.groups[i].claim.valid()
            &&& rounds::groups_descend(plan.groups)
            &&& joined_above(plan.groups, 1, plan.num_vars as int)
            &&& end.1 is None
            &&& pcs.whir_finish(roots, sizes, point, plan.groups, p, end.0).0 is Ok
            &&& groups::values_shape(mmcs::row_sets_of(values), sizes)
        }),
{
    let sizes = batch::size_heights(dims);
    let vals = mmcs::row_sets_of(values);
    let alpha = t.next_ext::<EF>();
    let end = (point.len() + 1) as nat;
    groups::lemma_groups_wf(sizes, vals, alpha, 0, end);
    rounds::lemma_groups_below(sizes, vals, alpha, 0, end);
    let g = groups::groups_below(sizes, vals, alpha, 0, end);
    assert forall|j: int| 1 <= j < g.len() implies (#[trigger] g[j]).log_height < point.len() by {
        assert(g[0].log_height > g[j].log_height);
    }
    let widths = groups::all_widths(dims);
    let lens = groups::value_lens(values);
    assert(groups::inputs_match(EF::degree(), roots.len(), widths, lens));
    assert forall|i: int| 0 <= i < sizes.len() implies (#[trigger] vals[i]).len()
        == sizes[i].len() by {
        assert(groups::values_fit(EF::degree(), widths[i], lens[i]));
        assert(lens[i] == groups::batch_lens(values[i]@));
        assert(widths[i] == groups::widths_of(dims[i]@));
        assert(vals[i] == mmcs::rows_of(values[i]@));
        assert(sizes[i] == mmcs::dim_heights(dims[i]@));
    }
}

/// Law: where an opening with values out of the domain is accepted, every round of its sumcheck has
/// been checked against the claim that the rounds before, the values out of the domain and the
/// claimed values leave, and the last root has been observed before the queries.
pub proof fn law_accepted_whir_rounds<F: MerkleField, EF: TwoAdicExtension<F>>(
    pcs: BaseFoldPcs<F>,
    roots: Seq<Seq<F>>,
    dims: Seq<Vec<Dimensions>>,
    point: Seq<EF>,
    values: Seq<Vec<Vec<EF>>>,
    p: BasefoldProof<F, EF>,
    t: Transcript<F>,
)
    requires
        pcs.whir_outcome(roots, dims, point, values, p, t).0 is Ok,
    ensures
        exists|states: Seq<WhirState<F, EF>>|
            {
                let plan = pcs.whir_plan_for(dims, point, values, p, t);
                let end = pcs.whir_rounds_end(dims, point, values, p, t);
                &&& #[trigger] rounds_checked(
                    pcs.whir_plan_for(dims, point, values, p, t),
                    states,
                )
                &&& states[0].transcript == pcs.batched_transcript(p, t).observed_all(
                    plan.oracles[0],
                )
                &&& end.claim == states.last().claim
                &&& end.challenges == states.last().challenges
                &&& end.merging == states.last().merging
                &&& end.alphas == states.last().alphas
                &&& end.gammas == states.last().gammas
                &&& plan.num_vars > 0 ==> plan.num_vars < plan.oracles.len() && end.transcript
                    == states.last().transcript.observed_all(
                    plan.oracles[plan.num_vars as int],
                )
            },
{
    lemma_accepted(pcs, roots, dims, point, values, p, t);
    let plan = pcs.whir_plan_for(dims, point, values, p, t);
    let start = whir_rounds::first_state(plan, pcs.batched_transcript(p, t));
    let states = lemma_rounds(plan, start, 0);
    assert forall|i: int| 0 <= i < plan.num_vars implies round_checked(
        plan,
        i,
        #[trigger] states[i],
        states[i + 1],
    ) by {
        assert(round_checked(plan, 0 + i, states[i], states[i + 1]));
    }
    assert(rounds_checked(plan, states));
}

spec fn same_but_claim<F, EF>(a: WhirState<F, EF>, b: WhirState<F, EF>) -> bool {
    &&& a.transcript == b.transcript
    &&& a.merging == b.merging
    &&& a.polys == b.polys
}

spec fn same_but_claims<F, EF>(a: WhirPlan<F, EF>, b: WhirPlan<F, EF>) -> bool {
    &&& a.num_vars == b.num_vars
    &&& a.oracles == b.oracles
    &&& a.responses == b.responses
    &&& a.polys == b.polys
    &&& a.groups.len() == b.groups.len()
    &&& forall|i: int|
        0 <= i < a.groups.len() ==> (#[trigger] a.groups[i]).log_height == b.groups[i].log_height
}

/// Two runs that differ in the claims alone go through the same transcripts.
proof fn lemma_same_states<F: PermutationField, EF: ExtensionField<F>>(
    a: WhirPlan<F, EF>,
    b: WhirPlan<F, EF>,
    x: Seq<WhirState<F, EF>>,
    y: Seq<WhirState<F, EF>>,
    i: nat,
)
    requires
        same_but_claims(a, b),
        rounds_checked(a, x),
        rounds_checked(b, y),
        x[0].transcript == y[0].transcript,
        i <= a.num_vars,
    ensures
        same_but_claim(x[i as int], y[i as int]),
    decreases i,
{
    if i > 0 {
        let j = i - 1;
        lemma_same_states(a, b, x, y, j as nat);
        assert(round_checked(a, j, x[j], x[j + 1]));
        assert(round_checked(b, j, y[j], y[j + 1]));
        let h = a.num_vars - 1 - j;
        if exists|k: int| 0 <= k < a.groups.len() && (#[trigger] a.groups[k]).log_height == h {
            let k = choose|k: int|
                0 <= k < a.groups.len() && (#[trigger] a.groups[k]).log_height == h;
            assert(b.groups[k].log_height == h);
        } else {
            assert forall|k: int| 0 <= k < b.groups.len() implies (
            #[trigger] b.groups[k]).log_height != h by {
                assert(a.groups[k].log_height == b.groups[k].log_height);
            }
        }
    } else {
        assert(x[0].merging =~= y[0].merging);
    }
}

proof fn lemma_same_claims<F: PermutationField, EF: ExtensionField<F>>(
    a: WhirPlan<F, EF>,
    b: WhirPlan<F, EF>,
    x: Seq<WhirState<F, EF>>,
    y: Seq<WhirState<F, EF>>,
    k: int,
)
    requires
        same_but_claims(a, b),
        rounds_checked(a, x),
        rounds_checked(b, y),
        x[0].transcript == y[0].transcript,
        rounds::groups_descend(a.groups),
        0 <= k < a.groups.len(),
        a.groups[0].log_height == a.num_vars,
        a.num_vars > 0,
        a.groups[k].claim.valid(),
        b.groups[k].claim.valid(),
    ensures
        a.groups[k].claim == b.groups[k].claim,
{
    broadcast use algebra::group_valid;

    if k == 0 {
        assert(round_checked(a, 0, x[0], x[1]));
        assert(round_checked(b, 0, y[0], y[1]));
        let t = x[0].transcript;
        let gamma = t.sampled_ext::<EF>().next_ext::<EF>();
        let e = gamma.times(a.responses[0]);
        let (c, d) = (a.groups[0].claim, b.groups[0].claim);
        assert(c.plus(e) == d.plus(e));
        EF::law_plus(c, e, e);
        EF::law_plus(d, e, e);
        algebra::lemma_plus_cancel(e, c, d);
    } else {
        assert(a.groups[0].log_height > a.groups[k].log_height);
        let h = a.groups[k].log_height;
        let j = a.num_vars - 1 - h;
        lemma_same_states(a, b, x, y, j as nat);
        assert(round_checked(a, j, x[j], x[j + 1]));
        assert(round_checked(b, j, y[j], y[j + 1]));
        assert(a.groups[k].log_height == a.num_vars - 1 - j);
        assert(b.groups[k].log_height == b.num_vars - 1 - j);
        let announced = if j > 0 {
            x[j].transcript.observed_all(a.oracles[j])
        } else {
            x[j].transcript
        };
        let answered = announced.sampled_ext::<EF>().sampled_ext::<EF>().observed_ext(
            a.responses[j],
        );
        let g = a.polys[x[j].polys as int];
        let r = answered.observed_exts(g).next_ext::<EF>();
        let v = unipoly::poly_eval(g, r);
        unipoly::lemma_poly_eval_valid(g, r);
        algebra::lemma_plus_cancel(v, a.groups[k].claim, b.groups[k].claim);
    }
}

/// Law: with everything else the same, two lists of values that are both accepted with values out of
/// the domain give the same claim for the matrices of every height.
pub proof fn law_accepted_whir_claims<F: MerkleField, EF: TwoAdicExtension<F>>(
    pcs: BaseFoldPcs<F>,
    roots: Seq<Seq<F>>,
    dims: Seq<Vec<Dimensions>>,
    point: Seq<EF>,
    values: Seq<Vec<Vec<EF>>>,
    others: Seq<Vec<Vec<EF>>>,
    p: BasefoldProof<F, EF>,
    t: Transcript<F>,
)
    requires
        point.len() > 0,
        pcs.whir_outcome(roots, dims, point, values, p, t).0 is Ok,
        pcs.whir_outcome(roots, dims, point, others, p, t).0 is Ok,
    ensures
        ({
            let a = pcs.whir_plan_for(dims, point, values, p, t).groups;
            let b = pcs.whir_plan_for(dims, point, others, p, t).groups;
            &&& a.len() == b.len()
            &&& forall|i: int|
                0 <= i < a.len() ==> (#[trigger] a[i]).claim == b[i].claim && a[i].log_height
                    == b[i].log_height
        }),
{
    lemma_accepted(pcs, roots, dims, point, values, p, t);
    lemma_accepted(pcs, roots, dims, point, others, p, t);
    law_accepted_whir_rounds(pcs, roots, dims, point, values, p, t);
    law_accepted_whir_rounds(pcs, roots, dims, point, others, p, t);
    let a = pcs.whir_plan_for(dims, point, values, p, t);
    let b = pcs.whir_plan_for(dims, point, others, p, t);
    let t3 = pcs.batched_transcript(p, t).observed_all(a.oracles[0]);
    let x = choose|x: Seq<WhirState<F, EF>>| #[trigger]
        rounds_checked(a, x) && x[0].transcript == t3;
    let y = choose|y: Seq<WhirState<F, EF>>| #[trigger]
        rounds_checked(b, y) && y[0].transcript == t3;
    assert(same_but_claims(a, b)) by {
        assert forall|i: int| 0 <= i < a.groups.len() implies (#[trigger] a.groups[i]).log_height
            == b.groups[i].log_height by {
            assert(b.groups[i].log_height == b.groups[i].log_height);
        }
    }
    assert forall|i: int| 0 <= i < a.groups.len() implies (#[trigger] a.groups[i]).claim
        == b.groups[i].claim && a.groups[i].log_height == b.groups[i].log_height by {
        assert(b.groups[i].claim.valid());
        lemma_same_claims(a, b, x, y, i);
    }
}

/// Law: where an opening with values out of the domain is accepted, it is not accepted with one of the
/// claimed values changed. The batching challenge does not vanish.
pub proof fn law_changed_whir_value_refused<F: MerkleField, EF: TwoAdicExtension<F>>(
    pcs: BaseFoldPcs<F>,
    roots: Seq<Seq<F>>,
    dims: Seq<Vec<Dimensions>>,
    point: Seq<EF>,
    values: Seq<Vec<Vec<EF>>>,
    others: Seq<Vec<Vec<EF>>>,
    p: BasefoldProof<F, EF>,
    t: Transcript<F>,
    b: int,
    m: int,
    c: int,
    d: EF,
)
    requires
        point.len() > 0,
        pcs.whir_outcome(roots, dims, point, values, p, t).0 is Ok,
        batching::values_valid(mmcs::row_sets_of(values)),
        0 <= b < values.len(),
        0 <= m < values[b]@.len(),
        0 <= c < values[b]@[m]@.len(),
        d.valid(),
        d != EF::zero_elem(),
        mmcs::row_sets_of(others) == batching::raised(mmcs::row_sets_of(values), b, m, c, d),
        bits::log2(batch::size_heights(dims)[b][m]) <= point.len(),
        t.next_ext::<EF>().valid(),
        field::is_unit(t.next_ext::<EF>()),
    ensures
        pcs.whir_outcome(roots, dims, point, others, p, t).0 is Err,
{
    broadcast use algebra::group_valid;

    if pcs.whir_outcome(roots, dims, point, others, p, t).0 is Ok {
        law_accepted_whir_claims(pcs, roots, dims, point, values, others, p, t);
        lemma_accepted(pcs, roots, dims, point, values, p, t);
        let sizes = batch::size_heights(dims);
        let vals = mmcs::row_sets_of(values);
        let alpha = t.next_ext::<EF>();
        let end = (point.len() + 1) as nat;
        assert(vals[b] == mmcs::rows_of(values[b]@));
        assert(vals[b][m] == values[b]@[m]@);
        batching::law_values_count(sizes, vals, alpha, 0, end, b, m, c, d);
        let x = groups::groups_below(sizes, vals, alpha, 0, end);
        let y = groups::groups_below(sizes, batching::raised(vals, b, m, c, d), alpha, 0, end);
        let h = bits::log2(sizes[b][m]);
        let i = choose|i: int| 0 <= i < x.len() && (#[trigger] x[i]).log_height == h;
        let plan = pcs.whir_plan_for(dims, point, values, p, t);
        assert(plan.groups == x);
        assert(x[i].claim == y[i].claim);
        assert(batching::grows(x[i].claim, y[i].claim, alpha, d));
        let e = choose|e: nat|
            y[i].claim == x[i].claim.plus((#[trigger] field::power(alpha, e)).times(d));
        let f = field::power(alpha, e);
        algebra::lemma_power_valid(alpha, e);
        algebra::lemma_unit_power(alpha, e);
        let w = x[i].claim;
        assert(w.valid()) by {
            assert(plan.groups[i].claim.valid());
        }
        EF::law_constants();
        EF::law_plus(w, w, w);
        algebra::lemma_plus_cancel(w, f.times(d), EF::zero_elem());
        algebra::lemma_products(f, f, f);
        soundness::lemma_cancel_unit(f, d, EF::zero_elem());
    }
}

/// The heights that enter before the round that folds codewords of length `2^log_len`: the entry moves
/// from the folded one towards the opened combination by the join challenge, all the way for the
/// first.
pub open spec fn height_joins<EF: Field>(
    sums: Seq<(usize, EF)>,
    challenges: Seq<EF>,
    log_len: nat,
    before: QueryState<EF>,
    after: QueryState<EF>,
) -> bool {
    let j = before.merges as int;
    let (f, s) = (before.folded, sums[j].1);
    &&& after.query == before.query
    &&& after.eq == before.eq
    &&& j < sums.len() && sums[j].0 == log_len ==> after.merges == (j + 1) as usize && after.folded
        == f.plus(
        (if j == 0 {
            EF::one_elem()
        } else {
            challenges[j - 1]
        }).times(s.minus(f)),
    )
    &&& !(j < sums.len() && sums[j].0 == log_len) ==> after == before
}

/// Round `r` of a query: the pair of the entry, with the heights that enter, and the opened sibling is
/// a row of the committed codeword, and the next entry lies on the line through the pair.
pub open spec fn round_opened<F: MerkleField, EF: TwoAdicExtension<F>>(
    c: Iopp<F, EF>,
    sums: Seq<(usize, EF)>,
    step: CommitPhaseProofStep<F, EF>,
    r: nat,
    before: QueryState<EF>,
    after: QueryState<EF>,
) -> bool {
    exists|m: QueryState<EF>|
        {
            let len = (c.num_vars() + c.log_blowup - r) as nat;
            let index = (m.query / 2) as nat;
            let pair = if m.query % 2 == 0 {
                seq![m.folded, step.sibling_value]
            } else {
                seq![step.sibling_value, m.folded]
            };
            &&& #[trigger] height_joins(
                sums,
                c.betas,
                (c.num_vars() + c.log_blowup - r) as nat,
                before,
                m,
            )
            &&& F::accepts(
                c.rounds,
                c.oracles[r as int],
                seq![pow2((len - 1) as nat)],
                index,
                seq![ext_mmcs::flattened::<F, EF>(pair)],
                mmcs::rows_of(step.opening_proof@),
            )
            &&& pair[0].valid() && pair[1].valid() && len <= EF::two_adicity() && len >= 1
                && c.challenges[r as int].valid() ==> query_soundness::on_line(
                pair[0],
                pair[1],
                query_soundness::pair_point(len, index),
                c.challenges[r as int],
                after.folded,
            )
            &&& after.query == m.query / 2
            &&& after.merges == m.merges
        }
}

/// The rounds of a query.
pub open spec fn rounds_opened<F: MerkleField, EF: TwoAdicExtension<F>>(
    c: Iopp<F, EF>,
    sums: Seq<(usize, EF)>,
    openings: Seq<CommitPhaseProofStep<F, EF>>,
    states: Seq<QueryState<EF>>,
) -> bool {
    forall|r: int|
        0 <= r < states.len() - 1 ==> round_opened(
            c,
            sums,
            openings[r],
            r as nat,
            #[trigger] states[r],
            states[r + 1],
        )
}

proof fn lemma_rounds_opened<F: MerkleField, EF: TwoAdicExtension<F>>(
    c: Iopp<F, EF>,
    sums: Seq<(usize, EF)>,
    openings: Seq<CommitPhaseProofStep<F, EF>>,
    s: QueryState<EF>,
    round: nat,
) -> (states: Seq<QueryState<EF>>)
    requires
        whir_query::query_rounds(c, sums, openings, s, round) is Ok,
        round <= query::committed(c, openings.len()),
    ensures
        states.len() == query::committed(c, openings.len()) + 1 - round,
        states[0] == s,
        states.last() == whir_query::query_rounds(c, sums, openings, s, round)->Ok_0,
        forall|i: int|
            0 <= i < states.len() - 1 ==> round_opened(
                c,
                sums,
                openings[round + i],
                (round + i) as nat,
                #[trigger] states[i],
                states[i + 1],
            ),
    decreases query::committed(c, openings.len()) - round,
{
    if round >= query::committed(c, openings.len()) {
        seq![s]
    } else {
        let len = c.log_len(round);
        let m = whir_query::joined(s, sums, c.betas, len);
        let step = openings[round as int];
        let row = query::pair_row(m, step.sibling_value);
        let ch = c.challenges[round as int];
        let next = whir_query::folded_pair(m, row, len, ch);
        let rest = lemma_rounds_opened(c, sums, openings, next, round + 1);
        let states = seq![s] + rest;
        let j = s.merges as int;
        if j < sums.len() && sums[j].0 == len {
            lemma_lerp(s.folded, sums[j].1, whir_query::join_challenge(c.betas, j));
        }
        assert(height_joins(sums, c.betas, len, s, m));
        let index = (m.query / 2) as nat;
        if row[0].valid() && row[1].valid() && 1 <= len <= EF::two_adicity() && ch.valid() {
            query_soundness::lemma_line(row[0], row[1], len, index, ch);
        }
        assert(round_opened(c, sums, step, round, s, next));
        assert forall|i: int| 0 <= i < states.len() - 1 implies round_opened(
            c,
            sums,
            openings[round + i],
            (round + i) as nat,
            #[trigger] states[i],
            states[i + 1],
        ) by {
            if i > 0 {
                assert(states[i] == rest[i - 1]);
                assert(states[i + 1] == rest[i]);
            } else {
                assert(states[1] == rest[0]);
            }
        }
        states
    }
}

proof fn lemma_lerp<EF: Field>(x: EF, y: EF, r: EF)
    ensures
        mlpoly::lerp(x, y, r) == x.plus(r.times(y.minus(x))),
{
}

/// Law: an accepted query of an opening with values out of the domain passes every round, and ends in
/// the expected value.
pub proof fn law_accepted_whir_query<F: MerkleField, EF: TwoAdicExtension<F>>(
    c: Iopp<F, EF>,
    sums: Seq<(usize, EF)>,
    openings: Seq<CommitPhaseProofStep<F, EF>>,
    query: usize,
)
    requires
        whir_query::query_verdict(c, sums, openings, query) is Ok,
    ensures
        openings.len() >= c.num_vars(),
        c.oracles.len() >= c.num_vars(),
        exists|states: Seq<QueryState<EF>>|
            {
                &&& #[trigger] rounds_opened(c, sums, openings, states)
                &&& states.len() == c.num_vars() + 1
                &&& states[0] == (QueryState {
                    folded: EF::zero_elem(),
                    merges: 0,
                    eq: EF::one_elem(),
                    query,
                })
                &&& states.last().folded == c.expected
            },
{
    let s = query::started::<EF>(query);
    let states = lemma_rounds_opened(c, sums, openings, s, 0);
    assert(rounds_opened(c, sums, openings, states));
}

proof fn lemma_challenge_count<F: PermutationField, EF: ExtensionField<F>>(
    p: WhirPlan<F, EF>,
    states: Seq<WhirState<F, EF>>,
    i: int,
)
    requires
        rounds_checked(p, states),
        0 <= i <= p.num_vars,
    ensures
        states[i].challenges.len() == i,
    decreases i,
{
    if i > 0 {
        lemma_challenge_count(p, states, i - 1);
        assert(round_checked(p, i - 1, states[i - 1], states[i - 1 + 1]));
    }
}

/// Law: where an opening with values out of the domain is accepted, the combined equality that the
/// last claim is divided by does not vanish, the last root is that of the constant codeword of the
/// quotient, the work has been done, and every one of the queries that the transcript gives has been
/// checked: the opened rows of every batch are leaves of the batch's tree at the query's place, and
/// their combinations pass the folded codewords.
pub proof fn law_accepted_whir_queries<F: MerkleField, EF: TwoAdicExtension<F>>(
    pcs: BaseFoldPcs<F>,
    roots: Seq<Seq<F>>,
    dims: Seq<Vec<Dimensions>>,
    point: Seq<EF>,
    values: Seq<Vec<Vec<EF>>>,
    p: BasefoldProof<F, EF>,
    t: Transcript<F>,
    q: int,
)
    requires
        pcs.whir_outcome(roots, dims, point, values, p, t).0 is Ok,
        0 <= q < pcs.fri.num_queries,
        forall|b: int, m: int|
            0 <= b < dims.len() && 0 <= m < dims[b]@.len() ==> bits::log2(
                #[trigger] batch::size_heights(dims)[b][m],
            ) <= point.len(),
    ensures
        ({
            let s = pcs.whir_rounds_end(dims, point, values, p, t);
            let g = pcs.whir_plan_for(dims, point, values, p, t).groups;
            let lb = pcs.fri.log_blowup as nat;
            let eq_sum = whir_rounds::combined_eq(point, g, s, point.len());
            let value = field::quotient(s.claim, eq_sum);
            let oracles = mmcs::rows_of(p.iopp_oracles@);
            let sizes = batch::size_heights(dims);
            let worked = s.transcript.observed(p.grinding_query_witness@[0]).observed(
                p.grinding_query_witness@[1],
            );
            let query = (worked.sampled().sampled_n(q as nat).next().to_int() % pow2(
                point.len() + lb,
            ) as int) as nat as usize;
            let leaves = p.query_openings.per_query@[q]@;
            let sums = batch::leaf_sums(g, batch::opening_rows(leaves), lb);
            &&& eq_sum != EF::zero_elem()
            &&& oracles.len() > 0 && oracles.last() == F::root(
                F::rounds_of(pcs.permutation),
                seq![ext_mmcs::ext_matrix::<F, EF>(Seq::new(pow2(lb), |i: int| value), 2)],
            )
            &&& worked.next().to_int() % pow2(pcs.fri.grinding_bits_query as nat) as int == 0
            &&& p.iopp_queries@.len() == pcs.fri.num_queries
            &&& p.query_openings.per_query@.len() == pcs.fri.num_queries
            &&& whir_query::query_verdict(
                pcs.joined_iopp(p.iopp_oracles@, s.challenges, s.merging, value),
                sums,
                p.iopp_queries@[q].commit_phase_openings@,
                query,
            ) is Ok
            &&& forall|b: int|
                0 <= b < sizes.len() && sizes[b].len() > 0 ==> b < leaves.len()
                    && query_soundness::leaves_checked(
                    pcs,
                    point.len(),
                    roots[b],
                    #[trigger] sizes[b],
                    leaves[b],
                    query,
                )
        }),
{
    law_accepted_whir_rounds(pcs, roots, dims, point, values, p, t);
    let states = choose|states: Seq<WhirState<F, EF>>|
        {
            &&& #[trigger] rounds_checked(pcs.whir_plan_for(dims, point, values, p, t), states)
            &&& pcs.whir_rounds_end(dims, point, values, p, t).challenges
                == states.last().challenges
        };
    lemma_challenge_count(
        pcs.whir_plan_for(dims, point, values, p, t),
        states,
        point.len() as int,
    );
    lemma_accepted(pcs, roots, dims, point, values, p, t);
    let s = pcs.whir_rounds_end(dims, point, values, p, t);
    let plan = pcs.whir_plan_for(dims, point, values, p, t);
    let lb = pcs.fri.log_blowup as nat;
    let sizes = batch::size_heights(dims);
    let worked = s.transcript.observed(p.grinding_query_witness@[0]).observed(
        p.grinding_query_witness@[1],
    );
    F::law_residues(worked.next(), worked.next());
    lemma_pow2_pos(pcs.fri.grinding_bits_query as nat);
    vstd::arithmetic::div_mod::lemma_mod_bound(
        worked.next().to_int(),
        pow2(pcs.fri.grinding_bits_query as nat) as int,
    );
    let eq_sum = whir_rounds::combined_eq(point, plan.groups, s, point.len());
    let value = field::quotient(s.claim, eq_sum);
    let c = pcs.joined_iopp(p.iopp_oracles@, s.challenges, s.merging, value);
    let queries = worked.sampled().next_bits_n(point.len() + lb, pcs.fri.num_queries as nat);
    assert(whir::queries_accepted(c, roots, sizes, plan.groups, p, queries));
    assert(whir::verdict_at(c, roots, sizes, plan.groups, p, queries, q) is Ok);
    let leaves = p.query_openings.per_query@[q]@;
    let rows = batch::opening_rows(leaves);
    assert(batch::rows_fit(plan.groups, rows));
    assert forall|b: int| 0 <= b < sizes.len() && sizes[b].len() > 0 implies b < leaves.len()
        && query_soundness::leaves_checked(
        pcs,
        point.len(),
        roots[b],
        #[trigger] sizes[b],
        leaves[b],
        queries[q],
    ) by {
        assert(dims[b]@.len() == sizes[b].len());
        assert(bits::log2(sizes[b][0]) <= point.len());
        let vals = mmcs::row_sets_of(values);
        let alpha = t.next_ext::<EF>();
        query_soundness::lemma_in_group(
            sizes,
            vals,
            alpha,
            0,
            (point.len() + 1) as nat,
            b as nat,
            0,
        );
        let g = plan.groups;
        let (i, j) = choose|i: int, j: int|
            {
                &&& 0 <= i < g.len()
                &&& 0 <= j < g[i].entries.len()
                &&& (#[trigger] g[i].entries[j]).batch == b
                &&& g[i].entries[j].matrix == 0
            };
        assert(batch::entry_fits(g[i].entries[j], rows));
        assert(batch::leaf_accepted(
            c.rounds,
            c.log_blowup,
            c.num_vars(),
            roots[b],
            sizes[b],
            leaves[b],
            queries[q] as nat,
        ));
        query_soundness::lemma_leaves(
            pcs,
            point.len(),
            roots[b],
            sizes[b],
            leaves[b],
            queries[q],
        );
    }
}

} // verus!
