//! What a prover that follows the protocol does, round by round, and that the rounds check out.
use vstd::prelude::*;
use vstd::arithmetic::power2::*;
use crate::basefold::challenger;
use crate::basefold::challenger::Transcript;
use crate::basefold::encode;
use crate::basefold::eqpoly;
use crate::basefold::linear;
use crate::basefold::math;
use crate::basefold::mlpoly;
use crate::basefold::mmcs;
use crate::basefold::poseidon::PermutationField;
use crate::basefold::rounds;
use crate::basefold::rounds::{Plan, RoundState};
use crate::basefold::sumcheck;
use crate::basefold::unipoly;
use crate::field;
use crate::field::algebra;
use crate::field::{ExtensionField, Field};

verus! {

/// The prover's state between two rounds: what the verifier knows, the folded table, and the value
/// of the equality polynomial since the last merge.
#[verifier::ext_equal]
pub struct Honest<F, EF> {
    pub s: RoundState<F, EF>,
    pub f: Seq<EF>,
    pub eq: EF,
}

/// The state before the first round: the table of the greatest height.
pub open spec fn honest_start<F: PermutationField, EF: ExtensionField<F>>(
    p: Plan<F, EF>,
    tables: Seq<Seq<EF>>,
    t: Transcript<F>,
) -> Honest<F, EF> {
    Honest { s: rounds::first_state(p, t), f: tables[0], eq: EF::one_elem() }
}

/// The state after the round that starts at the height `round`: the last variable is bound, and
/// where there is a table of the height below, it is merged.
pub open spec fn honest_step<F: PermutationField, EF: ExtensionField<F>>(
    p: Plan<F, EF>,
    tables: Seq<Seq<EF>>,
    point: Seq<EF>,
    h: Honest<F, EF>,
    round: nat,
) -> Honest<F, EF> {
    let b = rounds::bound_round(p, rounds::announced(p, h.s, round));
    let m = rounds::merged_round(p, b, (round - 1) as nat);
    let r = b.challenges.last();
    let f = mlpoly::bound_bottom(h.f, r);
    let eq = h.eq.times(eqpoly::eq_factor(point[round - 1], r));
    if m.group > b.group {
        Honest {
            s: m,
            f: linear::combined(eq, f, m.betas.last(), tables[b.group as int]),
            eq: EF::one_elem(),
        }
    } else {
        Honest { s: m, f, eq }
    }
}

/// The state after `i` rounds.
pub open spec fn honest_at<F: PermutationField, EF: ExtensionField<F>>(
    p: Plan<F, EF>,
    tables: Seq<Seq<EF>>,
    point: Seq<EF>,
    t: Transcript<F>,
    i: nat,
) -> Honest<F, EF>
    decreases i,
{
    if i == 0 {
        honest_start(p, tables, t)
    } else {
        honest_step(
            p,
            tables,
            point,
            honest_at(p, tables, point, t, (i - 1) as nat),
            (p.num_vars - (i - 1)) as nat,
        )
    }
}

/// The equality polynomial that the folded table is summed against.
pub open spec fn weights<F, EF: Field>(h: Honest<F, EF>, point: Seq<EF>, round: nat) -> Seq<EF> {
    sumcheck::scaled(h.eq, eqpoly::eq_table(point.take(round as int)))
}

/// The polynomial of the round after `i` rounds is that of the folded table.
pub open spec fn poly_proved<F: PermutationField, EF: ExtensionField<F>>(
    p: Plan<F, EF>,
    tables: Seq<Seq<EF>>,
    point: Seq<EF>,
    t: Transcript<F>,
    i: nat,
) -> bool {
    let h = honest_at(p, tables, point, t, i);
    sumcheck::is_round_poly(
        p.polys[i as int],
        h.f,
        weights(h, point, (p.num_vars - i) as nat),
        h.s.claim,
    )
}

/// The polynomials of the first `n` rounds are those of the folded tables.
pub open spec fn polys_proved<F: PermutationField, EF: ExtensionField<F>>(
    p: Plan<F, EF>,
    tables: Seq<Seq<EF>>,
    point: Seq<EF>,
    t: Transcript<F>,
    n: nat,
) -> bool {
    forall|j: nat| j < n ==> #[trigger] poly_proved(p, tables, point, t, j)
}

/// The claim of each group is the sum of its table against the equality polynomial.
pub open spec fn claims_true<F, EF: Field>(
    p: Plan<F, EF>,
    tables: Seq<Seq<EF>>,
    point: Seq<EF>,
) -> bool {
    forall|g: int|
        0 <= g < p.groups.len() ==> (#[trigger] p.groups[g]).claim == math::dot(
            tables[g],
            eqpoly::eq_table(point.take(p.groups[g].log_height as int)),
        )
}

/// The parts of a plan and its tables fit together.
pub open spec fn plan_wf<F: PermutationField, EF: ExtensionField<F>>(
    p: Plan<F, EF>,
    tables: Seq<Seq<EF>>,
    point: Seq<EF>,
    t: Transcript<F>,
) -> bool {
    &&& p.groups.len() > 0
    &&& p.groups[0].log_height == p.num_vars
    &&& rounds::groups_descend(p.groups)
    &&& tables.len() == p.groups.len()
    &&& forall|g: int|
        0 <= g < tables.len() ==> (#[trigger] tables[g]).len() == pow2(p.groups[g].log_height)
            && field::all_valid(tables[g])
    &&& point.len() == p.num_vars
    &&& field::all_valid(point)
    &&& t.wf()
    &&& mmcs::are_digests(p.oracles)
    &&& field::all_valid(p.final_poly)
}

/// What holds of the prover's state after `i` rounds.
pub open spec fn honest_wf<F: PermutationField, EF: ExtensionField<F>>(
    p: Plan<F, EF>,
    h: Honest<F, EF>,
    i: nat,
) -> bool {
    let round = p.num_vars - i;
    &&& h.f.len() == pow2(round as nat)
    &&& field::all_valid(h.f)
    &&& h.eq.valid()
    &&& h.s.polys == i
    &&& h.s.challenges.len() == i
    &&& field::all_valid(h.s.challenges)
    &&& h.s.betas.len() + 1 == h.s.group
    &&& field::all_valid(h.s.betas)
    &&& h.s.transcript.wf()
    &&& 1 <= h.s.group <= p.groups.len()
    &&& p.groups[h.s.group - 1].log_height >= round
    &&& (h.s.group < p.groups.len() ==> p.groups[h.s.group as int].log_height < round)
}

pub proof fn lemma_announced_wf<F: PermutationField, EF: ExtensionField<F>>(
    p: Plan<F, EF>,
    s: RoundState<F, EF>,
    round: nat,
)
    requires
        s.transcript.wf(),
        mmcs::are_digests(p.oracles),
        field::all_valid(p.final_poly),
    ensures
        rounds::announced(p, s, round).transcript.wf(),
        rounds::announced(p, s, round).claim == s.claim,
        rounds::announced(p, s, round).challenges == s.challenges,
        rounds::announced(p, s, round).betas == s.betas,
        rounds::announced(p, s, round).polys == s.polys,
        rounds::announced(p, s, round).group == s.group,
{
    if s.oracle < p.oracles.len() {
        assert(mmcs::is_digest(p.oracles[s.oracle as int]));
        challenger::lemma_observed_all_wf(s.transcript, p.oracles[s.oracle as int]);
    }
    challenger::lemma_observed_exts_wf(s.transcript, p.final_poly);
}

/// One round more.
proof fn lemma_honest_step<F: PermutationField, EF: ExtensionField<F>>(
    p: Plan<F, EF>,
    tables: Seq<Seq<EF>>,
    point: Seq<EF>,
    t: Transcript<F>,
    i: nat,
)
    requires
        plan_wf(p, tables, point, t),
        i < p.num_vars,
        i < p.polys.len(),
        field::all_valid(p.polys[i as int]),
        honest_wf(p, honest_at(p, tables, point, t, i), i),
    ensures
        honest_wf(p, honest_at(p, tables, point, t, i + 1), i + 1),
{
    broadcast use algebra::group_valid;

    let h = honest_at(p, tables, point, t, i);
    let next = honest_at(p, tables, point, t, i + 1);
    let round = (p.num_vars - i) as nat;
    lemma_pow2_unfold(round);
    let a = rounds::announced(p, h.s, round);
    lemma_announced_wf(p, h.s, round);
    let poly = p.polys[i as int];
    challenger::lemma_observed_exts_wf(a.transcript, poly);
    let u = a.transcript.observed_exts(poly);
    challenger::lemma_sampled_ext_wf::<F, EF>(u);
    let b = rounds::bound_round(p, a);
    let r = b.challenges.last();
    assert(b.challenges == h.s.challenges.push(r));
    let f = mlpoly::bound_bottom(h.f, r);
    encode::lemma_bound_bottom_valid(h.f, r);
    EF::law_constants();
    let m = rounds::merged_round(p, b, (round - 1) as nat);
    if b.group < p.groups.len() && p.groups[b.group as int].log_height == round - 1 {
        challenger::lemma_sampled_ext_wf::<F, EF>(b.transcript);
        let eq = h.eq.times(eqpoly::eq_factor(point[round - 1], r));
        linear::lemma_combined_valid(eq, f, m.betas.last(), tables[b.group as int]);
        assert(m.betas == b.betas.push(m.betas.last()));
        if m.group < p.groups.len() {
            assert(p.groups[b.group as int].log_height > p.groups[m.group as int].log_height);
        }
    }
}

/// After every round the prover's state is in order.
pub proof fn lemma_honest_wf<F: PermutationField, EF: ExtensionField<F>>(
    p: Plan<F, EF>,
    tables: Seq<Seq<EF>>,
    point: Seq<EF>,
    t: Transcript<F>,
    i: nat,
)
    requires
        plan_wf(p, tables, point, t),
        i <= p.num_vars,
        i <= p.polys.len(),
        forall|j: int| 0 <= j < i ==> field::all_valid(#[trigger] p.polys[j]),
    ensures
        honest_wf(p, honest_at(p, tables, point, t, i), i),
    decreases i,
{
    broadcast use algebra::group_valid;

    if i == 0 {
        EF::law_constants();
        if p.oracles.len() > 0 {
            assert(mmcs::is_digest(p.oracles[0]));
            challenger::lemma_observed_all_wf(t, p.oracles[0]);
        }
        assert(tables[0].len() == pow2(p.groups[0].log_height));
        if p.groups.len() > 1 {
            assert(p.groups[0].log_height > p.groups[1].log_height);
        }
    } else {
        lemma_honest_wf(p, tables, point, t, (i - 1) as nat);
        lemma_honest_step(p, tables, point, t, (i - 1) as nat);
    }
}

proof fn lemma_scaled_dot<F: Field>(x: F, a: Seq<F>, b: Seq<F>)
    requires
        a.len() == b.len(),
        field::all_valid(a),
        field::all_valid(b),
        x.valid(),
    ensures
        math::dot(a, sumcheck::scaled(x, b)) == x.times(math::dot(a, b)),
        field::all_valid(sumcheck::scaled(x, b)),
    decreases a.len(),
{
    broadcast use algebra::group_valid;

    F::law_constants();
    if a.len() == 0 {
        algebra::lemma_products(x, x, x);
    } else {
        let s = sumcheck::scaled(x, b);
        assert(s.drop_last() =~= sumcheck::scaled(x, b.drop_last()));
        lemma_scaled_dot(x, a.drop_last(), b.drop_last());
        let d = math::dot(a.drop_last(), b.drop_last());
        linear::lemma_dot_valid(a.drop_last(), b.drop_last());
        let u = a.last();
        let v = b.last();
        // u (x v) == x (u v)
        algebra::lemma_products(u, x, v);
        algebra::lemma_products(x, u, v);
        F::law_times(x, d, u.times(v));
    }
}

pub proof fn lemma_eq_table_valid<F: Field>(point: Seq<F>)
    ensures
        field::all_valid(eqpoly::eq_table(point)),
{
    assert forall|i: int| 0 <= i < eqpoly::eq_table(point).len() implies (
    #[trigger] eqpoly::eq_table(point)[i]).valid() by {
        eqpoly::lemma_eq_at_valid(point, i as nat);
    }
}

/// The claim after `i` rounds is the sum of the folded table against its weights.
pub open spec fn claim_true<F: PermutationField, EF: ExtensionField<F>>(
    p: Plan<F, EF>,
    tables: Seq<Seq<EF>>,
    point: Seq<EF>,
    t: Transcript<F>,
    i: nat,
) -> bool {
    let h = honest_at(p, tables, point, t, i);
    h.s.claim == math::dot(h.f, weights(h, point, (p.num_vars - i) as nat))
}

pub proof fn lemma_one_scaled<F: Field>(a: Seq<F>)
    requires
        field::all_valid(a),
    ensures
        sumcheck::scaled(F::one_elem(), a) == a,
{
    F::law_constants();
    assert forall|i: int| 0 <= i < a.len() implies sumcheck::scaled(F::one_elem(), a)[i] == a[i] by {
        algebra::lemma_products(a[i], a[i], a[i]);
    }
    assert(sumcheck::scaled(F::one_elem(), a) =~= a);
}

/// The claims stay true, and the polynomial of each round adds up.
pub proof fn lemma_claim_true<F: PermutationField, EF: ExtensionField<F>>(
    p: Plan<F, EF>,
    tables: Seq<Seq<EF>>,
    point: Seq<EF>,
    t: Transcript<F>,
    i: nat,
)
    requires
        plan_wf(p, tables, point, t),
        claims_true(p, tables, point),
        i <= p.num_vars,
        i <= p.polys.len(),
        polys_proved(p, tables, point, t, i),
        forall|j: int| 0 <= j < i ==> field::all_valid(#[trigger] p.polys[j]),
    ensures
        claim_true(p, tables, point, t, i),
    decreases i,
{
    broadcast use algebra::group_valid;

    if i == 0 {
        let e = eqpoly::eq_table(point.take(p.num_vars as int));
        lemma_eq_table_valid(point.take(p.num_vars as int));
        lemma_one_scaled(e);
        assert(p.groups[0].claim == math::dot(
            tables[0],
            eqpoly::eq_table(point.take(p.groups[0].log_height as int)),
        ));
    } else {
        let k = (i - 1) as nat;
        lemma_claim_true(p, tables, point, t, k);
        lemma_honest_wf(p, tables, point, t, k);
        lemma_honest_wf(p, tables, point, t, i);
        let h = honest_at(p, tables, point, t, k);
        let round = (p.num_vars - k) as nat;
        let a = rounds::announced(p, h.s, round);
        lemma_announced_wf(p, h.s, round);
        let b = rounds::bound_round(p, a);
        let m = rounds::merged_round(p, b, (round - 1) as nat);
        let r = b.challenges.last();
        let poly = p.polys[k as int];
        assert(poly_proved(p, tables, point, t, k));
        challenger::lemma_observed_exts_wf(a.transcript, poly);
        challenger::lemma_sampled_ext_wf::<F, EF>(a.transcript.observed_exts(poly));
        let pt = point.take(round as int);
        let w = weights(h, point, round);
        lemma_eq_table_valid(pt);
        lemma_scaled_dot(h.eq, h.f, eqpoly::eq_table(pt));
        lemma_pow2_unfold(round);
        lemma_pow2_pos(round);
        sumcheck::law_round_poly(poly, h.f, w, h.s.claim, r);
        assert(b.claim == sumcheck::bound_dot(h.f, w, r));
        // The weights bound.
        sumcheck::law_eq_table_bound(pt, h.eq, r);
        assert(pt.last() == point[round - 1]);
        assert(pt.drop_last() =~= point.take(round - 1));
        let eq = h.eq.times(eqpoly::eq_factor(point[round - 1], r));
        let f = mlpoly::bound_bottom(h.f, r);
        let e = eqpoly::eq_table(point.take(round - 1));
        assert(b.claim == math::dot(f, sumcheck::scaled(eq, e)));
        if b.group < p.groups.len() && p.groups[b.group as int].log_height == round - 1 {
            let g = tables[b.group as int];
            let beta = m.betas.last();
            challenger::lemma_sampled_ext_wf::<F, EF>(b.transcript);
            assert(p.groups[b.group as int].claim == math::dot(g, e));
            lemma_eq_table_valid(point.take(round - 1));
            encode::lemma_bound_bottom_valid(h.f, r);
            lemma_scaled_dot(eq, f, e);
            assert(g.len() == pow2(p.groups[b.group as int].log_height));
            linear::lemma_dot_combined(eq, f, beta, g, e);
            lemma_one_scaled(e);
        }
    }
}

/// The rounds of an honest prover check out, and leave the prover's state.
pub proof fn law_rounds_check<F: PermutationField, EF: ExtensionField<F>>(
    p: Plan<F, EF>,
    tables: Seq<Seq<EF>>,
    point: Seq<EF>,
    t: Transcript<F>,
    i: nat,
)
    requires
        plan_wf(p, tables, point, t),
        claims_true(p, tables, point),
        p.polys.len() == p.num_vars,
        polys_proved(p, tables, point, t, p.num_vars),
        i <= p.num_vars,
    ensures
        rounds::rounds_from(p, honest_at(p, tables, point, t, i).s, (p.num_vars - i) as nat) == (
            rounds::announced(p, honest_at(p, tables, point, t, p.num_vars).s, 0),
            None::<crate::basefold::openings::BaseFoldError>,
        ),
    decreases p.num_vars - i,
{
    broadcast use algebra::group_valid;

    let h = honest_at(p, tables, point, t, i);
    if i < p.num_vars {
        let round = (p.num_vars - i) as nat;
        assert forall|j: int| 0 <= j < p.num_vars implies field::all_valid(#[trigger] p.polys[j]) by {
            assert(poly_proved(p, tables, point, t, j as nat));
        }
        lemma_honest_wf(p, tables, point, t, i);
        lemma_announced_wf(p, h.s, round);
        let a = rounds::announced(p, h.s, round);
        let poly = p.polys[i as int];
        assert(poly_proved(p, tables, point, t, i));
        let w = weights(h, point, round);
        let at_zero = sumcheck::bound_dot(h.f, w, EF::from_int(0));
        let evals = seq![
            at_zero,
            h.s.claim.minus(at_zero),
            sumcheck::bound_dot(h.f, w, EF::from_int(2)),
        ];
        unipoly::law_interpolation_at_zero_and_one(poly, evals);
        linear::lemma_dot_valid(
            mlpoly::bound_bottom(h.f, EF::from_int(0)),
            mlpoly::bound_bottom(w, EF::from_int(0)),
        );
        lemma_claim_valid(p, tables, point, t, i);
        algebra::lemma_opposites(h.s.claim, at_zero);
        EF::law_plus(at_zero, h.s.claim.minus(at_zero), at_zero);
        assert(rounds::adds_up(poly, a.claim));
        law_rounds_check(p, tables, point, t, i + 1);
    }
}

proof fn lemma_claim_valid<F: PermutationField, EF: ExtensionField<F>>(
    p: Plan<F, EF>,
    tables: Seq<Seq<EF>>,
    point: Seq<EF>,
    t: Transcript<F>,
    i: nat,
)
    requires
        plan_wf(p, tables, point, t),
        claims_true(p, tables, point),
        i <= p.num_vars,
        i <= p.polys.len(),
    ensures
        honest_at(p, tables, point, t, i).s.claim.valid(),
{
    broadcast use algebra::group_valid;

    if i == 0 {
        assert(p.groups[0].claim == math::dot(
            tables[0],
            eqpoly::eq_table(point.take(p.groups[0].log_height as int)),
        ));
        linear::lemma_dot_valid(
            tables[0],
            eqpoly::eq_table(point.take(p.groups[0].log_height as int)),
        );
    } else {
        let h = honest_at(p, tables, point, t, (i - 1) as nat);
        let round = (p.num_vars - (i - 1)) as nat;
        let a = rounds::announced(p, h.s, round);
        let b = rounds::bound_round(p, a);
        unipoly::lemma_poly_eval_valid(
            p.polys[a.polys as int],
            a.transcript.observed_exts(p.polys[a.polys as int]).next_ext::<EF>(),
        );
    }
}

/// The challenges and the merge challenges of earlier rounds stay.
pub proof fn lemma_challenges_stay<F: PermutationField, EF: ExtensionField<F>>(
    p: Plan<F, EF>,
    tables: Seq<Seq<EF>>,
    point: Seq<EF>,
    t: Transcript<F>,
    i: nat,
    n: nat,
)
    requires
        plan_wf(p, tables, point, t),
        i <= n <= p.num_vars,
        n <= p.polys.len(),
        forall|j: int| 0 <= j < n ==> field::all_valid(#[trigger] p.polys[j]),
    ensures
        ({
            let a = honest_at(p, tables, point, t, i).s;
            let b = honest_at(p, tables, point, t, n).s;
            &&& a.challenges.len() == i
            &&& b.challenges.len() == n
            &&& b.challenges.take(i as int) == a.challenges
            &&& a.betas.len() <= b.betas.len()
            &&& b.betas.take(a.betas.len() as int) == a.betas
            &&& a.group <= b.group
        }),
    decreases n - i,
{
    let a = honest_at(p, tables, point, t, i).s;
    let b = honest_at(p, tables, point, t, n).s;
    lemma_honest_wf(p, tables, point, t, i);
    lemma_honest_wf(p, tables, point, t, n);
    if i < n {
        lemma_challenges_stay(p, tables, point, t, i + 1, n);
        let h = honest_at(p, tables, point, t, i);
        let next = honest_at(p, tables, point, t, i + 1).s;
        lemma_announced_wf(p, h.s, (p.num_vars - i) as nat);
        assert(next.challenges.take(i as int) =~= a.challenges);
        assert(b.challenges.take(i as int) =~= b.challenges.take((i + 1) as int).take(i as int));
        assert(next.betas.take(a.betas.len() as int) =~= a.betas);
        assert(b.betas.take(a.betas.len() as int) =~= b.betas.take(next.betas.len() as int).take(
            a.betas.len() as int,
        ));
    } else {
        assert(b.challenges.take(i as int) =~= a.challenges);
        assert(b.betas.take(a.betas.len() as int) =~= a.betas);
    }
}

/// The value of the equality polynomial since the last merge, times what is left of it, is its
/// value from the lowest height on.
proof fn lemma_eq_since_merge<F: PermutationField, EF: ExtensionField<F>>(
    p: Plan<F, EF>,
    tables: Seq<Seq<EF>>,
    point: Seq<EF>,
    t: Transcript<F>,
    i: nat,
)
    requires
        plan_wf(p, tables, point, t),
        p.polys.len() == p.num_vars,
        forall|j: int| 0 <= j < p.num_vars ==> field::all_valid(#[trigger] p.polys[j]),
        p.num_vars - p.groups.last().log_height <= i <= p.num_vars,
        p.groups.last().log_height <= p.num_vars,
    ensures
        ({
            let low = p.groups.last().log_height as int;
            let x = honest_at(p, tables, point, t, p.num_vars).s.challenges.reverse();
            let left = p.num_vars - i;
            &&& honest_at(p, tables, point, t, i).s.group == p.groups.len()
            &&& honest_at(p, tables, point, t, i).eq.times(
                eqpoly::eq_eval(point.take(left), x.take(left)),
            ) == eqpoly::eq_eval(point.take(low), x.take(low))
        }),
    decreases i,
{
    broadcast use algebra::group_valid;

    let n = p.num_vars;
    let low = p.groups.last().log_height as int;
    let last = honest_at(p, tables, point, t, n).s.challenges;
    let x = last.reverse();
    EF::law_constants();
    lemma_honest_wf(p, tables, point, t, n);
    lemma_honest_wf(p, tables, point, t, i);
    eqpoly::lemma_eq_eval_valid(point.take(low), x.take(low));
    if i == n - low {
        algebra::lemma_products(
            eqpoly::eq_eval(point.take(low), x.take(low)),
            EF::one_elem(),
            EF::one_elem(),
        );
        if i == 0 {
            if p.groups.len() > 1 {
                assert(p.groups[0].log_height > p.groups[p.groups.len() - 1].log_height);
            }
        } else {
            let k = (i - 1) as nat;
            lemma_honest_wf(p, tables, point, t, k);
            let h = honest_at(p, tables, point, t, k);
            lemma_announced_wf(p, h.s, (n - k) as nat);
            let g = h.s.group;
            if g < p.groups.len() {
                if g < p.groups.len() - 1 {
                    assert(p.groups[g as int].log_height > p.groups[p.groups.len()
                        - 1].log_height);
                    assert(false);
                }
            }
        }
    } else {
        let k = (i - 1) as nat;
        lemma_eq_since_merge(p, tables, point, t, k);
        lemma_honest_wf(p, tables, point, t, k);
        let h = honest_at(p, tables, point, t, k);
        let round = (n - k) as nat;
        lemma_announced_wf(p, h.s, round);
        lemma_challenges_stay(p, tables, point, t, i, n);
        let r = honest_at(p, tables, point, t, i).s.challenges.last();
        assert(last.take(i as int)[k as int] == r);
        assert(x[round - 1] == r);
        let pt = point.take(round as int);
        let xt = x.take(round as int);
        assert(pt.drop_last() =~= point.take(round - 1));
        assert(xt.drop_last() =~= x.take(round - 1));
        let rest = eqpoly::eq_eval(point.take(round - 1), x.take(round - 1));
        let factor = eqpoly::eq_factor(point[round - 1], r);
        eqpoly::lemma_eq_eval_valid(point.take(round - 1), x.take(round - 1));
        // eq (rest factor) == (eq factor) rest
        algebra::lemma_products(h.eq, rest, factor);
        algebra::lemma_products(h.eq, factor, rest);
    }
}

/// After all rounds one entry of the folded table is left, and the claim is this entry times the
/// value of the equality polynomial from the lowest height on.
pub proof fn law_last_claim<F: PermutationField, EF: ExtensionField<F>>(
    p: Plan<F, EF>,
    tables: Seq<Seq<EF>>,
    point: Seq<EF>,
    t: Transcript<F>,
)
    requires
        plan_wf(p, tables, point, t),
        claims_true(p, tables, point),
        p.polys.len() == p.num_vars,
        polys_proved(p, tables, point, t, p.num_vars),
    ensures
        ({
            let h = honest_at(p, tables, point, t, p.num_vars);
            let low = p.groups.last().log_height as int;
            let eq_sum = eqpoly::eq_eval(point.take(low), h.s.challenges.reverse().take(low));
            &&& h.f.len() == 1
            &&& h.f[0].valid()
            &&& h.s.group == p.groups.len()
            &&& h.eq == eq_sum
            &&& eq_sum.valid()
            &&& h.s.claim == h.f[0].times(eq_sum)
            &&& field::is_unit(eq_sum) ==> field::quotient(h.s.claim, eq_sum) == h.f[0]
        }),
{
    broadcast use algebra::group_valid;

    let n = p.num_vars;
    let h = honest_at(p, tables, point, t, n);
    assert forall|j: int| 0 <= j < n implies field::all_valid(#[trigger] p.polys[j]) by {
        assert(poly_proved(p, tables, point, t, j as nat));
    }
    let low = p.groups.last().log_height as int;
    if p.groups.len() > 1 {
        assert(p.groups[0].log_height > p.groups[p.groups.len() - 1].log_height);
    }
    lemma_honest_wf(p, tables, point, t, n);
    lemma_claim_true(p, tables, point, t, n);
    lemma_eq_since_merge(p, tables, point, t, n);
    let eq_sum = eqpoly::eq_eval(point.take(low), h.s.challenges.reverse().take(low));
    eqpoly::lemma_eq_eval_valid(point.take(low), h.s.challenges.reverse().take(low));
    EF::law_constants();
    let x = h.s.challenges.reverse();
    algebra::lemma_products(h.eq, h.eq, h.eq);
    assert(eqpoly::eq_eval(point.take(0), x.take(0)) == EF::one_elem());
    assert(h.eq == eq_sum);
    // The claim is the single product.
    lemma_pow2_zero();
    let w = weights(h, point, 0);
    assert(point.take(0).len() == 0);
    assert(eqpoly::eq_table(point.take(0)).len() == 1);
    assert(w.len() == 1);
    assert(w[0] == h.eq.times(EF::one_elem()));
    assert(h.f.drop_last().len() == 0);
    assert(math::dot(h.f.drop_last(), w.drop_last()) == EF::zero_elem());
    let v = h.f[0];
    assert(v.valid());
    algebra::lemma_opposites(v.times(eq_sum), v);
    assert(h.s.claim == v.times(eq_sum));
    if field::is_unit(eq_sum) {
        algebra::lemma_unit(eq_sum);
        EF::law_times(v, eq_sum, field::inverse(eq_sum));
    }
}

proof fn lemma_pow2_zero()
    ensures
        pow2(0) == 1,
{
    vstd::arithmetic::power2::lemma2_to64();
}

} // verus!
