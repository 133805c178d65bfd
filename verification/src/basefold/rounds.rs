//! The rounds of the sumcheck, from the side of the verifier.
use vstd::prelude::*;
use vstd::arithmetic::power2::*;
use crate::basefold::batch;
use crate::basefold::batch::{GroupModel, HeightGroup};
use crate::basefold::challenger;
use crate::basefold::challenger::{DuplexChallenger, Transcript};
use crate::basefold::groups;
use crate::basefold::mmcs;
use crate::basefold::mmcs::MerkleField;
use crate::basefold::openings::BaseFoldError;
use crate::basefold::poseidon::PermutationField;
use crate::basefold::query;
use crate::basefold::schedule;
use crate::basefold::schedule::CommitGroup;
use crate::basefold::unipoly;
use crate::basefold::unipoly::UniPoly;
use crate::field;
use crate::field::algebra;
use crate::field::{ExtensionField, Field};

verus! {

/// What the rounds are checked against.
#[verifier::ext_equal]
pub struct Plan<F, EF> {
    pub num_vars: nat,
    /// The number of variables at which the folding stops.
    pub k: nat,
    pub schedule: Seq<CommitGroup>,
    /// The roots of the folded codewords.
    pub oracles: Seq<Seq<F>>,
    pub final_poly: Seq<EF>,
    /// The coefficients of the polynomial of each round.
    pub polys: Seq<Seq<EF>>,
    pub groups: Seq<GroupModel<EF>>,
}

/// The state between two rounds.
#[verifier::ext_equal]
pub struct RoundState<F, EF> {
    pub transcript: Transcript<F>,
    pub claim: EF,
    pub challenges: Seq<EF>,
    pub betas: Seq<EF>,
    /// The number of polynomials that were used.
    pub polys: nat,
    /// The number of roots that were observed.
    pub oracle: nat,
    /// The number of groups that were merged.
    pub group: nat,
}

/// A group of rounds starts at the height.
pub open spec fn is_start(schedule: Seq<CommitGroup>, round: nat) -> bool {
    exists|g: int| 0 <= g < schedule.len() && (#[trigger] schedule[g]).start_log_height == round
}

/// The state after what is announced before round `round`: the root of a folded codeword, or the
/// table that remains where the folding stops.
pub open spec fn announced<F: PermutationField, EF: ExtensionField<F>>(
    p: Plan<F, EF>,
    s: RoundState<F, EF>,
    round: nat,
) -> RoundState<F, EF> {
    let root = (round < p.num_vars && is_start(p.schedule, round)) || (round == 0 && p.k == 0);
    if root {
        if s.oracle < p.oracles.len() {
            RoundState {
                transcript: s.transcript.observed_all(p.oracles[s.oracle as int]),
                oracle: s.oracle + 1,
                ..s
            }
        } else {
            s
        }
    } else if round == p.k && p.k > 0 && !is_start(p.schedule, round) {
        RoundState { transcript: s.transcript.observed_exts(p.final_poly), ..s }
    } else {
        s
    }
}

/// The polynomial adds up to the claim.
pub open spec fn adds_up<EF: Field>(poly: Seq<EF>, claim: EF) -> bool {
    unipoly::poly_eval(poly, EF::zero_elem()).plus(unipoly::poly_eval(poly, EF::one_elem()))
        == claim
}

/// The state after the polynomial of a round was observed and the variable bound.
pub open spec fn bound_round<F: PermutationField, EF: ExtensionField<F>>(
    p: Plan<F, EF>,
    s: RoundState<F, EF>,
) -> RoundState<F, EF> {
    let poly = p.polys[s.polys as int];
    let t = s.transcript.observed_exts(poly);
    RoundState {
        transcript: t.sampled_ext::<EF>(),
        claim: unipoly::poly_eval(poly, t.next_ext::<EF>()),
        challenges: s.challenges.push(t.next_ext::<EF>()),
        betas: s.betas,
        polys: s.polys + 1,
        oracle: s.oracle,
        group: s.group,
    }
}

/// The state after the group of the height `log_height` was merged, where there is one.
pub open spec fn merged_round<F: PermutationField, EF: ExtensionField<F>>(
    p: Plan<F, EF>,
    s: RoundState<F, EF>,
    log_height: nat,
) -> RoundState<F, EF> {
    if s.group < p.groups.len() && p.groups[s.group as int].log_height == log_height {
        let beta = s.transcript.next_ext::<EF>();
        RoundState {
            transcript: s.transcript.sampled_ext::<EF>(),
            claim: s.claim.plus(beta.times(p.groups[s.group as int].claim)),
            betas: s.betas.push(beta),
            group: s.group + 1,
            ..s
        }
    } else {
        s
    }
}

/// The rounds from `round` down, and the reason to stop, if any.
pub open spec fn rounds_from<F: PermutationField, EF: ExtensionField<F>>(
    p: Plan<F, EF>,
    s: RoundState<F, EF>,
    round: nat,
) -> (RoundState<F, EF>, Option<BaseFoldError>)
    decreases round,
{
    let a = announced(p, s, round);
    if round == 0 {
        (a, None)
    } else if a.polys >= p.polys.len() || !adds_up(p.polys[a.polys as int], a.claim) {
        (a, Some(BaseFoldError::SumcheckPhaseError))
    } else {
        rounds_from(p, merged_round(p, bound_round(p, a), (round - 1) as nat), (round - 1) as nat)
    }
}

/// The state before the first round.
pub open spec fn first_state<F: PermutationField, EF: ExtensionField<F>>(
    p: Plan<F, EF>,
    t: Transcript<F>,
) -> RoundState<F, EF> {
    RoundState {
        transcript: if p.oracles.len() > 0 {
            t.observed_all(p.oracles[0])
        } else {
            t
        },
        claim: p.groups[0].claim,
        challenges: Seq::empty(),
        betas: Seq::empty(),
        polys: 0,
        oracle: 1,
        group: 1,
    }
}

/// The coefficients of the polynomials.
pub open spec fn poly_coeffs<EF>(polys: Seq<UniPoly<EF>>) -> Seq<Seq<EF>> {
    Seq::new(polys.len(), |i: int| polys[i].coeffs@)
}

/// Every polynomial has a coefficient, and all are canonical.
pub open spec fn polys_wf<EF: Field>(polys: Seq<Seq<EF>>) -> bool {
    forall|i: int|
        0 <= i < polys.len() ==> (#[trigger] polys[i]).len() > 0 && field::all_valid(polys[i])
}

/// The heights of the groups descend.
pub open spec fn groups_descend<EF>(groups: Seq<GroupModel<EF>>) -> bool {
    forall|i: int, j: int|
        0 <= i < j < groups.len() ==> (#[trigger] groups[i]).log_height > (
        #[trigger] groups[j]).log_height
}

pub proof fn lemma_groups_below<EF: Field>(
    sizes: Seq<Seq<nat>>,
    values: Seq<Seq<Seq<EF>>>,
    alpha: EF,
    used: nat,
    end: nat,
)
    ensures
        groups_descend(groups::groups_below(sizes, values, alpha, used, end)),
        forall|i: int|
            0 <= i < groups::groups_below(sizes, values, alpha, used, end).len() ==> (
            #[trigger] groups::groups_below(sizes, values, alpha, used, end)[i]).log_height < end
                && groups::groups_below(sizes, values, alpha, used, end)[i].claim.valid(),
    decreases end,
{
    broadcast use algebra::group_valid;

    if end > 0 {
        let h = (end - 1) as nat;
        let positions = groups::positions_at(sizes, h, sizes.len());
        if positions.len() == 0 {
            lemma_groups_below(sizes, values, alpha, used, h);
        } else {
            let used2 = used + groups::columns_of(positions, values);
            lemma_groups_below(sizes, values, alpha, used2, h);
            let rest = groups::groups_below(sizes, values, alpha, used2, h);
            let all = groups::groups_below(sizes, values, alpha, used, end);
            let entries = groups::entries_for(positions, values, alpha, used);
            groups::lemma_entries_len(positions, values, alpha, used);
            assert(all.drop_first() =~= rest);
            assert(groups::claim_of(entries, values).valid());
            assert forall|i: int| 0 <= i < all.len() implies (#[trigger] all[i]).log_height < end
                && all[i].claim.valid() by {
                if i > 0 {
                    assert(all[i] == rest[i - 1]);
                }
            }
            assert forall|i: int, j: int| 0 <= i < j < all.len() implies (
            #[trigger] all[i]).log_height > (#[trigger] all[j]).log_height by {
                assert(all[j] == rest[j - 1]);
                if i > 0 {
                    assert(all[i] == rest[i - 1]);
                }
            }
        }
    }
}

/// What the rounds leave behind.
pub struct RoundResult<EF> {
    pub claim: EF,
    pub challenges: Vec<EF>,
    pub betas: Vec<EF>,
}

/// Whether a group of rounds starts at the height.
fn check_start(schedule: &Vec<CommitGroup>, round: usize) -> (r: bool)
    ensures
        r == is_start(schedule@, round as nat),
{
    let mut g: usize = 0;
    while g < schedule.len()
        invariant
            g <= schedule@.len(),
            forall|j: int| 0 <= j < g ==> (#[trigger] schedule@[j]).start_log_height != round,
        decreases schedule@.len() - g,
    {
        if schedule[g].start_log_height == round {
            assert(schedule@[g as int].start_log_height == round);
            return true;
        }
        g += 1;
    }
    false
}

/// Checks the rounds of the sumcheck.
pub fn verify_rounds<F: MerkleField, EF: ExtensionField<F>>(
    num_vars: usize,
    k: usize,
    schedule: &Vec<CommitGroup>,
    oracles: &Vec<Vec<F>>,
    final_poly: &Vec<EF>,
    polys: &Vec<UniPoly<EF>>,
    groups: &Vec<HeightGroup<EF>>,
    challenger: &mut DuplexChallenger<F>,
) -> (r: Result<RoundResult<EF>, BaseFoldError>)
    requires
        old(challenger)@.wf(),
        groups@.len() > 0,
        groups@[0].log_height == num_vars,
        groups_descend(batch::group_models(groups@)),
        forall|i: int| 0 <= i < groups@.len() ==> (#[trigger] groups@[i]).claim.valid(),
        mmcs::are_digests(mmcs::rows_of(oracles@)),
        field::all_valid(final_poly@),
        polys_wf(poly_coeffs(polys@)),
    ensures
        ({
            let p = Plan {
                num_vars: num_vars as nat,
                k: k as nat,
                schedule: schedule@,
                oracles: mmcs::rows_of(oracles@),
                final_poly: final_poly@,
                polys: poly_coeffs(polys@),
                groups: batch::group_models(groups@),
            };
            let (s, error) = rounds_from(p, first_state(p, old(challenger)@), num_vars as nat);
            &&& final(challenger)@ == s.transcript
            &&& match error {
                Some(e) => r == Err::<RoundResult<EF>, BaseFoldError>(e),
                None => r is Ok && r->Ok_0.claim == s.claim && r->Ok_0.challenges@ == s.challenges
                    && r->Ok_0.betas@ == s.betas,
            }
        }),
        final(challenger)@.wf(),
        r matches Ok(x) ==> x.claim.valid() && field::all_valid(x.challenges@)
            && x.challenges@.len() == num_vars && x.betas@.len() == groups@.len() - 1,
{
    let ghost p = Plan {
        num_vars: num_vars as nat,
        k: k as nat,
        schedule: schedule@,
        oracles: mmcs::rows_of(oracles@),
        final_poly: final_poly@,
        polys: poly_coeffs(polys@),
        groups: batch::group_models(groups@),
    };
    let ghost start = challenger@;
    let ghost goal = rounds_from(p, first_state(p, start), num_vars as nat);
    if oracles.len() > 0 {
        proof {
            assert(mmcs::is_digest(p.oracles[0]));
        }
        challenger.observe_slice(oracles[0].as_slice());
    }
    let mut claim: EF = groups[0].claim;
    let mut challenges: Vec<EF> = Vec::new();
    let mut betas: Vec<EF> = Vec::new();
    let mut poly: usize = 0;
    let mut oracle: usize = 1;
    let mut group: usize = 1;
    let mut round: usize = num_vars;
    let ghost mut s = first_state(p, start);
    proof {
        assert(s.transcript == challenger@);
        assert(s.challenges =~= challenges@);
        assert(s.betas =~= betas@);
        if groups@.len() > 1 {
            assert(p.groups[0].log_height > p.groups[1].log_height);
        }
    }
    loop
        invariant
            p == (Plan {
                num_vars: num_vars as nat,
                k: k as nat,
                schedule: schedule@,
                oracles: mmcs::rows_of(oracles@),
                final_poly: final_poly@,
                polys: poly_coeffs(polys@),
                groups: batch::group_models(groups@),
            }),
            goal == rounds_from(p, first_state(p, start), num_vars as nat),
            goal == rounds_from(p, s, round as nat),
            start == old(challenger)@,
            challenger@ == s.transcript,
            challenger@.wf(),
            claim == s.claim,
            claim.valid(),
            challenges@ == s.challenges,
            betas@ == s.betas,
            poly == s.polys,
            oracle == s.oracle,
            group == s.group,
            round <= num_vars,
            challenges@.len() == num_vars - round,
            field::all_valid(challenges@),
            poly <= polys@.len(),
            1 <= oracle,
            oracle <= oracles@.len() || oracle == 1,
            1 <= group <= groups@.len(),
            betas@.len() == group - 1,
            group < groups@.len() ==> groups@[group as int].log_height < round,
            groups_descend(p.groups),
            forall|i: int| 0 <= i < groups@.len() ==> (#[trigger] groups@[i]).claim.valid(),
            mmcs::are_digests(p.oracles),
            field::all_valid(final_poly@),
            polys_wf(p.polys),
        decreases round,
    {
        let started: bool = check_start(schedule, round);
        let ghost before = s;
        if (round < num_vars && started) || (round == 0 && k == 0) {
            if oracle < oracles.len() {
                proof {
                    assert(mmcs::is_digest(p.oracles[oracle as int]));
                    assert(p.oracles[oracle as int] == oracles@[oracle as int]@);
                }
                challenger.observe_slice(oracles[oracle].as_slice());
                oracle += 1;
            }
        } else if round == k && k > 0 && !started {
            challenger.observe_ext_elements(final_poly);
        }
        let ghost a = announced(p, before, round as nat);
        proof {
            assert(challenger@ == a.transcript);
        }
        if round == 0 {
            proof {
                assert(goal == (a, None::<BaseFoldError>));
                if group < groups@.len() {
                    assert(groups@[group as int].log_height < 0);
                }
            }
            return Ok(RoundResult { claim, challenges, betas });
        }
        if poly >= polys.len() {
            return Err(BaseFoldError::SumcheckPhaseError);
        }
        let current: &UniPoly<EF> = &polys[poly];
        proof {
            assert(p.polys[poly as int] == current.coeffs@);
            assert(p.polys[poly as int].len() > 0 && field::all_valid(p.polys[poly as int]));
        }
        let sum: EF = current.eval_at_zero().add(current.eval_at_one());
        if !sum.is_equal(&claim) {
            return Err(BaseFoldError::SumcheckPhaseError);
        }
        challenger.observe_ext_elements(&current.coeffs);
        let r_fold: EF = challenger.sample_ext_element();
        challenges.push(r_fold);
        claim = current.evaluate(&r_fold);
        poly += 1;
        let ghost bound = bound_round(p, a);
        proof {
            assert(bound.transcript == challenger@);
            assert(bound.challenges =~= challenges@);
        }
        if group < groups.len() && groups[group].log_height == round - 1 {
            let beta: EF = challenger.sample_ext_element();
            betas.push(beta);
            proof {
                algebra::lemma_plus_valid(claim, beta.times(groups@[group as int].claim));
                assert(p.groups[group as int].claim == groups@[group as int].claim);
                if group + 1 < groups@.len() {
                    assert(p.groups[group as int].log_height > p.groups[group + 1].log_height);
                }
            }
            claim = claim.add(beta.mul(groups[group].claim));
            group += 1;
        }
        proof {
            s = merged_round(p, bound, (round - 1) as nat);
            assert(s.betas =~= betas@);
            assert(goal == rounds_from(p, s, (round - 1) as nat));
        }
        round -= 1;
    }
}

/// The groups of a schedule that tiles the rounds cover as many rounds as there are.
pub proof fn lemma_tiles(s: Seq<CommitGroup>, h: nat, k: nat)
    requires
        schedule::tiles(s, h, k),
        h >= k,
    ensures
        query::rounds_before(s, s.len()) == h - k,
        forall|g: int| 0 <= g < s.len() ==> (#[trigger] s[g]).log_folding > 0,
    decreases s.len(),
{
    if s.len() > 0 {
        let rest = s.drop_first();
        lemma_tiles(rest, (h - s[0].log_folding) as nat, k);
        lemma_rounds_before_rest(s, s.len());
        assert forall|g: int| 0 <= g < s.len() implies (#[trigger] s[g]).log_folding > 0 by {
            if g > 0 {
                assert(s[g] == rest[g - 1]);
            }
        }
    }
}

pub proof fn lemma_rounds_before_rest(s: Seq<CommitGroup>, g: nat)
    requires
        0 < g <= s.len(),
    ensures
        query::rounds_before(s, g) == s[0].log_folding as nat + query::rounds_before(
            s.drop_first(),
            (g - 1) as nat,
        ),
    decreases g,
{
    if g > 1 {
        lemma_rounds_before_rest(s, (g - 1) as nat);
        assert(s.drop_first()[g - 2] == s[g - 1]);
    } else {
        assert(query::rounds_before(s, 0) == 0);
        assert(query::rounds_before(s.drop_first(), 0) == 0);
    }
}

} // verus!
