//! What a prover that follows the scheme with values out of the domain does, round by round, and
//! that the rounds check out.
use vstd::prelude::*;
use vstd::arithmetic::power2::*;
use crate::basefold::challenger;
use crate::basefold::challenger::Transcript;
use crate::basefold::encode;
use crate::basefold::eqpoly;
use crate::basefold::honest;
use crate::basefold::linear;
use crate::basefold::math;
use crate::basefold::mlpoly;
use crate::basefold::mmcs;
use crate::basefold::mmcs::MerkleField;
use crate::basefold::openings::BaseFoldError;
use crate::basefold::rounds;
use crate::basefold::sumcheck;
use crate::basefold::unipoly;
use crate::basefold::whir_rounds;
use crate::basefold::whir_rounds::{WhirPlan, WhirState};
use crate::basefold::whir_sumcheck;
use crate::field;
use crate::field::algebra;
use crate::field::{Field, TwoAdicExtension};

verus! {

/// The prover's state between two rounds: what the verifier knows, the folded table, and the table
/// that it is summed against.
#[verifier::ext_equal]
pub struct WhirHonest<F, EF> {
    pub s: WhirState<F, EF>,
    pub f: Seq<EF>,
    pub e: Seq<EF>,
}

/// A run of the rounds: what they are checked against, the tables of the heights, the opening
/// point, the transcript before, and the logarithm of the blowup.
#[verifier::ext_equal]
pub struct WhirRun<F, EF> {
    pub plan: WhirPlan<F, EF>,
    pub tables: Seq<Seq<EF>>,
    pub point: Seq<EF>,
    pub transcript: Transcript<F>,
    pub log_blowup: nat,
}

impl<F: MerkleField, EF: TwoAdicExtension<F>> WhirRun<F, EF> {
    pub open spec fn num_vars(self) -> nat {
        self.plan.num_vars
    }

    /// The equality polynomial of the first coordinates of the opening point.
    pub open spec fn eq_table(self, n: nat) -> Seq<EF> {
        eqpoly::eq_table(self.point.take(n as int))
    }

    /// The state before the first round: the table of the greatest height.
    pub open spec fn start(self) -> WhirHonest<F, EF> {
        WhirHonest {
            s: whir_rounds::first_state(self.plan, self.transcript),
            f: self.tables[0],
            e: self.eq_table(self.num_vars()),
        }
    }

    /// What the verifier knows once the value out of the domain was observed.
    pub open spec fn asked(self, h: WhirHonest<F, EF>, round: nat) -> WhirState<F, EF> {
        whir_rounds::responded(self.plan, whir_rounds::announced(self.plan, h.s, round), round)
    }

    /// The equality polynomial of the point out of the domain.
    pub open spec fn asked_table(self, h: WhirHonest<F, EF>, round: nat) -> Seq<EF> {
        whir_sumcheck::squares_table(self.asked(h, round).alphas.last(), round)
    }

    /// The table that the folded table is summed against in the round.
    pub open spec fn weights(self, h: WhirHonest<F, EF>, round: nat) -> Seq<EF> {
        whir_sumcheck::weighted_table(
            h.e,
            self.asked(h, round).gammas.last(),
            self.asked_table(h, round),
        )
    }

    /// The state once the last variable was bound.
    pub open spec fn bound(self, h: WhirHonest<F, EF>, round: nat) -> WhirHonest<F, EF> {
        let b = whir_rounds::bound(self.plan, self.asked(h, round));
        let r = b.challenges.last();
        WhirHonest {
            s: b,
            f: mlpoly::bound_bottom(h.f, r),
            e: mlpoly::bound_bottom(self.weights(h, round), r),
        }
    }

    /// A table enters after the round.
    pub open spec fn enters(self, h: WhirHonest<F, EF>, round: nat) -> bool {
        whir_rounds::enters(self.plan, self.bound(h, round).s, (round - 1) as nat)
    }

    /// The state after the round that starts at the height `round`: the last variable is bound, and
    /// where there is a table of the height below, it is joined.
    pub open spec fn step(self, h: WhirHonest<F, EF>, round: nat) -> WhirHonest<F, EF> {
        let b = self.bound(h, round);
        if self.enters(h, round) {
            let m = whir_rounds::met(self.plan, b.s);
            let r = m.merging.last();
            WhirHonest {
                s: m,
                f: whir_sumcheck::joined_table(b.f, self.tables[b.s.group as int], r),
                e: whir_sumcheck::joined_table(b.e, self.eq_table((round - 1) as nat), r),
            }
        } else {
            b
        }
    }

    /// The state after `i` rounds.
    pub open spec fn at(self, i: nat) -> WhirHonest<F, EF>
        decreases i,
    {
        if i == 0 {
            self.start()
        } else {
            self.step(self.at((i - 1) as nat), (self.num_vars() - (i - 1)) as nat)
        }
    }

    /// The codeword of the folded table after `i` rounds.
    pub open spec fn word(self, i: nat) -> Seq<EF> {
        encode::encoded(self.at(i).f, self.log_blowup)
    }

    /// What is sent in the round after `i` rounds is what the tables say: the value out of the
    /// domain, the polynomial of the round, and the polynomial of the join, where there is one.
    pub open spec fn round_made(self, i: nat) -> bool {
        let h = self.at(i);
        let round = (self.num_vars() - i) as nat;
        let w = self.asked(h, round);
        let b = self.bound(h, round);
        &&& self.plan.responses[i as int] == math::dot(h.f, self.asked_table(h, round))
        &&& sumcheck::is_round_poly(
            self.plan.polys[h.s.polys as int],
            h.f,
            self.weights(h, round),
            w.claim,
        )
        &&& self.enters(h, round) ==> whir_sumcheck::is_join_poly(
            self.plan.polys[b.s.polys as int],
            b.s.claim,
            self.plan.groups[b.s.group as int].claim,
            (b.f, self.tables[b.s.group as int]),
            (b.e, self.eq_table((round - 1) as nat)),
        )
    }

    /// The parts of the run fit together, apart from what the rounds make.
    pub open spec fn ready(self) -> bool {
        let p = self.plan;
        &&& p.groups.len() > 0
        &&& p.groups[0].log_height == p.num_vars
        &&& rounds::groups_descend(p.groups)
        &&& self.tables.len() == p.groups.len()
        &&& forall|g: int|
            0 <= g < self.tables.len() ==> (#[trigger] self.tables[g]).len() == pow2(
                p.groups[g].log_height,
            ) && field::all_valid(self.tables[g])
        &&& self.point.len() == p.num_vars
        &&& field::all_valid(self.point)
        &&& self.transcript.wf()
        &&& forall|g: int|
            0 <= g < p.groups.len() ==> (#[trigger] p.groups[g]).claim == math::dot(
                self.tables[g],
                self.eq_table(p.groups[g].log_height),
            )
    }

    /// The state after `i` rounds is in order.
    pub open spec fn in_order(self, h: WhirHonest<F, EF>, i: nat) -> bool {
        let round = self.num_vars() - i;
        let groups = self.plan.groups;
        &&& h.f.len() == pow2(round as nat)
        &&& h.e.len() == pow2(round as nat)
        &&& field::all_valid(h.f)
        &&& field::all_valid(h.e)
        &&& h.s.claim == math::dot(h.f, h.e)
        &&& h.s.claim.valid()
        &&& h.s.challenges.len() == i
        &&& h.s.alphas.len() == i
        &&& h.s.gammas.len() == i
        &&& h.s.merging.len() + 1 == h.s.group
        &&& field::all_valid(h.s.challenges)
        &&& field::all_valid(h.s.alphas)
        &&& field::all_valid(h.s.gammas)
        &&& field::all_valid(h.s.merging)
        &&& h.s.transcript.wf()
        &&& 1 <= h.s.group <= groups.len()
        &&& (h.s.group < groups.len() ==> groups[h.s.group as int].log_height < round)
    }

    /// The rounds were made as the protocol says.
    pub open spec fn sound(self) -> bool {
        let n = self.num_vars();
        &&& self.ready()
        &&& mmcs::are_digests(self.plan.oracles)
        &&& self.plan.oracles.len() == n + 1
        &&& self.plan.responses.len() == n
        &&& self.plan.polys.len() == self.at(n).s.polys
        &&& forall|i: nat| i < n ==> #[trigger] self.round_made(i)
        &&& n + self.log_blowup <= F::two_adicity()
        &&& n + self.log_blowup < usize::BITS
    }
}

/// The sum against a table with a weight times another.
pub proof fn lemma_dot_weighted<EF: Field>(f: Seq<EF>, e: Seq<EF>, weight: EF, t: Seq<EF>)
    requires
        f.len() == e.len() == t.len(),
        field::all_valid(f),
        field::all_valid(e),
        field::all_valid(t),
        weight.valid(),
    ensures
        math::dot(f, whir_sumcheck::weighted_table(e, weight, t)) == math::dot(f, e).plus(
            weight.times(math::dot(f, t)),
        ),
        field::all_valid(whir_sumcheck::weighted_table(e, weight, t)),
{
    EF::law_constants();
    let one = EF::one_elem();
    let sum = whir_sumcheck::weighted_table(e, weight, t);
    linear::lemma_combined_valid(one, e, weight, t);
    unipoly::lemma_dot_commutes(f, sum);
    unipoly::lemma_dot_commutes(f, e);
    unipoly::lemma_dot_commutes(f, t);
    linear::lemma_dot_combined(one, e, weight, t, f);
    linear::lemma_dot_valid(e, f);
    algebra::lemma_products(math::dot(e, f), one, one);
}

/// A round polynomial of a true claim adds up.
proof fn lemma_adds_up<EF: Field>(c: Seq<EF>, f: Seq<EF>, e: Seq<EF>, claim: EF)
    requires
        claim.valid(),
        sumcheck::is_round_poly(c, f, e, claim),
    ensures
        rounds::adds_up(c, claim),
{
    broadcast use algebra::group_valid;

    EF::law_constants();
    let at_zero = sumcheck::bound_dot(f, e, EF::from_int(0));
    let zero = EF::from_int(0);
    linear::lemma_dot_valid(mlpoly::bound_bottom(f, zero), mlpoly::bound_bottom(e, zero));
    let evals = seq![at_zero, claim.minus(at_zero), sumcheck::bound_dot(f, e, EF::from_int(2))];
    assert(unipoly::poly_eval(c, EF::from_int(0)) == evals[0]);
    assert(unipoly::poly_eval(c, EF::from_int(1)) == evals[1]);
    algebra::lemma_opposites(claim, at_zero);
    EF::law_plus(claim.minus(at_zero), at_zero, at_zero);
}

/// The state before the first round is in order.
pub proof fn lemma_start<F: MerkleField, EF: TwoAdicExtension<F>>(run: WhirRun<F, EF>)
    requires
        run.ready(),
        run.plan.oracles.len() > 0,
        mmcs::is_digest(run.plan.oracles[0]),
    ensures
        run.in_order(run.at(0), 0),
{
    challenger::lemma_observed_all_wf(run.transcript, run.plan.oracles[0]);
    assert(run.tables[0].len() == pow2(run.plan.groups[0].log_height));
    assert(run.plan.groups[0].claim == math::dot(
        run.tables[0],
        run.eq_table(run.plan.groups[0].log_height),
    ));
    honest::lemma_eq_table_valid(run.point.take(run.num_vars() as int));
    linear::lemma_dot_valid(run.tables[0], run.eq_table(run.num_vars()));
    if run.plan.groups.len() > 1 {
        assert(run.plan.groups[0].log_height > run.plan.groups[1].log_height);
    }
}

/// The state once the value out of the domain was observed.
pub proof fn lemma_asked<F: MerkleField, EF: TwoAdicExtension<F>>(
    run: WhirRun<F, EF>,
    h: WhirHonest<F, EF>,
    i: nat,
)
    requires
        run.ready(),
        i < run.num_vars(),
        run.in_order(h, i),
        i > 0 ==> mmcs::is_digest(run.plan.oracles[i as int]),
        run.plan.responses[i as int] == math::dot(
            h.f,
            run.asked_table(h, (run.num_vars() - i) as nat),
        ),
    ensures
        ({
            let round = (run.num_vars() - i) as nat;
            let w = run.asked(h, round);
            let e = run.weights(h, round);
            &&& w.transcript.wf()
            &&& w.alphas.last().valid()
            &&& w.gammas.last().valid()
            &&& w.claim == math::dot(h.f, e)
            &&& w.claim.valid()
            &&& e.len() == pow2(round)
            &&& field::all_valid(e)
            &&& run.plan.responses[i as int].valid()
        }),
{
    broadcast use algebra::group_valid;

    let round = (run.num_vars() - i) as nat;
    let a = whir_rounds::announced(run.plan, h.s, round);
    if i > 0 {
        challenger::lemma_observed_all_wf(h.s.transcript, run.plan.oracles[i as int]);
    }
    challenger::lemma_sampled_ext_wf::<F, EF>(a.transcript);
    let t = a.transcript.sampled_ext::<EF>();
    challenger::lemma_sampled_ext_wf::<F, EF>(t);
    let alpha = a.transcript.next_ext::<EF>();
    let gamma = t.next_ext::<EF>();
    let w = run.asked(h, round);
    assert(w.alphas.last() == alpha && w.gammas.last() == gamma);
    whir_sumcheck::lemma_squares_valid(alpha, round);
    let table = run.asked_table(h, round);
    linear::lemma_dot_valid(h.f, table);
    let response = run.plan.responses[i as int];
    challenger::lemma_observed_ext_wf::<F, EF>(t.sampled_ext::<EF>(), response);
    lemma_dot_weighted(h.f, h.e, gamma, table);
}

/// The state once the last variable was bound.
pub proof fn lemma_bound<F: MerkleField, EF: TwoAdicExtension<F>>(
    run: WhirRun<F, EF>,
    h: WhirHonest<F, EF>,
    i: nat,
)
    requires
        run.ready(),
        i < run.num_vars(),
        run.in_order(h, i),
        i > 0 ==> mmcs::is_digest(run.plan.oracles[i as int]),
        run.plan.responses[i as int] == math::dot(
            h.f,
            run.asked_table(h, (run.num_vars() - i) as nat),
        ),
        sumcheck::is_round_poly(
            run.plan.polys[h.s.polys as int],
            h.f,
            run.weights(h, (run.num_vars() - i) as nat),
            run.asked(h, (run.num_vars() - i) as nat).claim,
        ),
    ensures
        ({
            let round = (run.num_vars() - i) as nat;
            let w = run.asked(h, round);
            let b = run.bound(h, round);
            &&& rounds::adds_up(run.plan.polys[h.s.polys as int], w.claim)
            &&& b.f.len() == pow2((round - 1) as nat)
            &&& b.e.len() == pow2((round - 1) as nat)
            &&& field::all_valid(b.f)
            &&& field::all_valid(b.e)
            &&& b.s.claim == math::dot(b.f, b.e)
            &&& b.s.claim.valid()
            &&& b.s.transcript.wf()
            &&& b.s.challenges.last().valid()
            &&& b.s.challenges == h.s.challenges.push(b.s.challenges.last())
            &&& b.s.alphas == h.s.alphas.push(w.alphas.last())
            &&& b.s.gammas == h.s.gammas.push(w.gammas.last())
            &&& w.alphas.last().valid()
            &&& w.gammas.last().valid()
            &&& b.s.merging == h.s.merging
            &&& b.s.group == h.s.group
            &&& b.s.polys == h.s.polys + 1
        }),
{
    let round = (run.num_vars() - i) as nat;
    lemma_asked(run, h, i);
    let w = run.asked(h, round);
    let b = run.bound(h, round);
    let poly = run.plan.polys[h.s.polys as int];
    let e = run.weights(h, round);
    challenger::lemma_observed_exts_wf::<F, EF>(w.transcript, poly);
    challenger::lemma_sampled_ext_wf::<F, EF>(w.transcript.observed_exts(poly));
    let r = b.s.challenges.last();
    lemma_adds_up(poly, h.f, e, w.claim);
    lemma_pow2_unfold(round);
    lemma_pow2_pos((round - 1) as nat);
    sumcheck::law_round_poly(poly, h.f, e, w.claim, r);
    encode::lemma_bound_bottom_valid(h.f, r);
    encode::lemma_bound_bottom_valid(e, r);
    linear::lemma_dot_valid(b.f, b.e);
}

/// One round more.
pub proof fn lemma_step<F: MerkleField, EF: TwoAdicExtension<F>>(run: WhirRun<F, EF>, i: nat)
    requires
        run.ready(),
        i < run.num_vars(),
        run.in_order(run.at(i), i),
        i > 0 ==> mmcs::is_digest(run.plan.oracles[i as int]),
        run.round_made(i),
    ensures
        run.in_order(run.at(i + 1), i + 1),
        run.enters(run.at(i), (run.num_vars() - i) as nat) ==> ({
            let b = run.bound(run.at(i), (run.num_vars() - i) as nat);
            rounds::adds_up(
                run.plan.polys[b.s.polys as int],
                b.s.claim.plus(run.plan.groups[b.s.group as int].claim),
            )
        }),
{
    let h = run.at(i);
    let round = (run.num_vars() - i) as nat;
    let below = (round - 1) as nat;
    lemma_bound(run, h, i);
    let b = run.bound(h, round);
    let p = run.plan;
    if run.enters(h, round) {
        let g = b.s.group as int;
        let m = whir_rounds::met(p, b.s);
        let poly = p.polys[b.s.polys as int];
        let table = run.tables[g];
        let eq = run.eq_table(below);
        assert(table.len() == pow2(p.groups[g].log_height));
        assert(p.groups[g].claim == math::dot(table, run.eq_table(p.groups[g].log_height)));
        honest::lemma_eq_table_valid(run.point.take(below as int));
        challenger::lemma_observed_exts_wf::<F, EF>(b.s.transcript, poly);
        challenger::lemma_sampled_ext_wf::<F, EF>(b.s.transcript.observed_exts(poly));
        let r = m.merging.last();
        assert(m.merging == h.s.merging.push(r));
        lemma_pow2_pos(below);
        whir_sumcheck::law_join_poly(
            poly,
            b.s.claim,
            p.groups[g].claim,
            (b.f, table),
            (b.e, eq),
            r,
        );
        whir_sumcheck::lemma_joined_combined(b.f, table, r);
        whir_sumcheck::lemma_joined_combined(b.e, eq, r);
        linear::lemma_dot_valid(run.at(i + 1).f, run.at(i + 1).e);
        if m.group < p.groups.len() {
            assert(p.groups[g].log_height > p.groups[m.group as int].log_height);
        }
    }
}

/// After every round of a sound run the state is in order.
pub proof fn lemma_in_order<F: MerkleField, EF: TwoAdicExtension<F>>(run: WhirRun<F, EF>, i: nat)
    requires
        run.sound(),
        i <= run.num_vars(),
    ensures
        run.in_order(run.at(i), i),
    decreases i,
{
    if i == 0 {
        assert(mmcs::is_digest(run.plan.oracles[0]));
        lemma_start(run);
    } else {
        let j = (i - 1) as nat;
        lemma_in_order(run, j);
        assert(run.round_made(j));
        assert(mmcs::is_digest(run.plan.oracles[j as int]));
        lemma_step(run, j);
    }
}

/// Every round uses a polynomial.
pub proof fn lemma_polys_grow<F: MerkleField, EF: TwoAdicExtension<F>>(
    run: WhirRun<F, EF>,
    i: nat,
    j: nat,
)
    requires
        i <= j,
    ensures
        run.at(i).s.polys + (j - i) <= run.at(j).s.polys,
    decreases j - i,
{
    if i < j {
        lemma_polys_grow(run, i, (j - 1) as nat);
    }
}

/// The rounds of a sound run check out: from every state on, they end without a reason to stop.
pub proof fn law_whir_rounds_check<F: MerkleField, EF: TwoAdicExtension<F>>(
    run: WhirRun<F, EF>,
    i: nat,
)
    requires
        run.sound(),
        i <= run.num_vars(),
    ensures
        ({
            let n = run.num_vars();
            whir_rounds::rounds_from(run.plan, run.at(i).s, (n - i) as nat) == (
                whir_rounds::announced(run.plan, run.at(n).s, 0),
                None::<BaseFoldError>,
            )
        }),
    decreases run.num_vars() - i,
{
    let n = run.num_vars();
    if i < n {
        let h = run.at(i);
        let round = (n - i) as nat;
        lemma_in_order(run, i);
        assert(run.round_made(i));
        assert(mmcs::is_digest(run.plan.oracles[i as int]));
        lemma_bound(run, h, i);
        lemma_step(run, i);
        lemma_polys_grow(run, i + 1, n);
        law_whir_rounds_check(run, i + 1);
        let w = run.asked(h, round);
        let b = run.bound(h, round);
        assert(whir_rounds::next_adds_up(run.plan, w, w.claim));
        if run.enters(h, round) {
            assert(run.at(i + 1).s.polys == h.s.polys + 2);
            assert(whir_rounds::next_adds_up(
                run.plan,
                b.s,
                b.s.claim.plus(run.plan.groups[b.s.group as int].claim),
            ));
        }
    }
}

/// The challenges of a round stay.
pub proof fn lemma_stay<F: MerkleField, EF: TwoAdicExtension<F>>(
    run: WhirRun<F, EF>,
    i: nat,
    j: nat,
)
    requires
        run.sound(),
        i <= j <= run.num_vars(),
    ensures
        run.at(j).s.challenges.take(i as int) == run.at(i).s.challenges,
        run.at(j).s.alphas.take(i as int) == run.at(i).s.alphas,
        run.at(j).s.gammas.take(i as int) == run.at(i).s.gammas,
        run.at(i).s.merging.len() <= run.at(j).s.merging.len(),
        run.at(j).s.merging.take(run.at(i).s.merging.len() as int) == run.at(i).s.merging,
    decreases j - i,
{
    lemma_in_order(run, i);
    lemma_in_order(run, j);
    let a = run.at(i).s;
    if i < j {
        let k = (j - 1) as nat;
        lemma_stay(run, i, k);
        lemma_in_order(run, k);
        let h = run.at(k);
        assert(run.round_made(k));
        assert(mmcs::is_digest(run.plan.oracles[k as int]));
        lemma_bound(run, h, k);
        let c = run.at(j).s;
        assert(c.challenges.take(i as int) =~= h.s.challenges.take(i as int));
        assert(c.alphas.take(i as int) =~= h.s.alphas.take(i as int));
        assert(c.gammas.take(i as int) =~= h.s.gammas.take(i as int));
        assert(c.merging.take(a.merging.len() as int) =~= h.s.merging.take(
            a.merging.len() as int,
        ));
    } else {
        assert(a.challenges.take(i as int) =~= a.challenges);
        assert(a.alphas.take(i as int) =~= a.alphas);
        assert(a.gammas.take(i as int) =~= a.gammas);
        assert(a.merging.take(a.merging.len() as int) =~= a.merging);
    }
}

} // verus!
