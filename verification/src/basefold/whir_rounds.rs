//! The rounds of the sumcheck with a value out of the domain in each round, from the side of the
//! verifier. A height that enters is joined by a round of its own.
use vstd::prelude::*;
use crate::basefold::batch;
use crate::basefold::batch::{GroupModel, HeightGroup};
use crate::basefold::challenger::{DuplexChallenger, Transcript};
use crate::basefold::eqpoly;
use crate::basefold::eqpoly::EqPolynomial;
use crate::basefold::mlpoly;
use crate::basefold::mmcs;
use crate::basefold::mmcs::MerkleField;
use crate::basefold::openings::BaseFoldError;
use crate::basefold::poseidon::PermutationField;
use crate::basefold::rounds;
use crate::basefold::unipoly;
use crate::basefold::unipoly::UniPoly;
use crate::basefold::verification::{front, reversed};
use crate::field;
use crate::field::algebra;
use crate::field::{ExtensionField, Field};

verus! {

/// What the rounds are checked against.
#[verifier::ext_equal]
pub struct WhirPlan<F, EF> {
    pub num_vars: nat,
    /// The roots of the folded codewords.
    pub oracles: Seq<Seq<F>>,
    /// The value out of the domain of each round.
    pub responses: Seq<EF>,
    /// The coefficients of the polynomials, in the order in which they are used.
    pub polys: Seq<Seq<EF>>,
    pub groups: Seq<GroupModel<EF>>,
}

/// The state between two rounds.
#[verifier::ext_equal]
pub struct WhirState<F, EF> {
    pub transcript: Transcript<F>,
    pub claim: EF,
    /// The folding challenges.
    pub challenges: Seq<EF>,
    /// The challenges with which heights were joined.
    pub merging: Seq<EF>,
    /// The points out of the domain.
    pub alphas: Seq<EF>,
    /// The weights of the values out of the domain.
    pub gammas: Seq<EF>,
    /// The number of polynomials that were used.
    pub polys: nat,
    /// The number of groups that were joined.
    pub group: nat,
}

/// The state after the root of the folded codeword was observed; the first was observed before.
pub open spec fn announced<F: PermutationField, EF: ExtensionField<F>>(
    p: WhirPlan<F, EF>,
    s: WhirState<F, EF>,
    round: nat,
) -> WhirState<F, EF> {
    if round < p.num_vars {
        WhirState {
            transcript: s.transcript.observed_all(p.oracles[p.num_vars - round]),
            ..s
        }
    } else {
        s
    }
}

/// The state after the point and the weight were sampled and the value out of the domain was
/// added to the claim.
pub open spec fn responded<F: PermutationField, EF: ExtensionField<F>>(
    p: WhirPlan<F, EF>,
    s: WhirState<F, EF>,
    round: nat,
) -> WhirState<F, EF> {
    let alpha = s.transcript.next_ext::<EF>();
    let t = s.transcript.sampled_ext::<EF>();
    let gamma = t.next_ext::<EF>();
    let response = p.responses[p.num_vars - round];
    WhirState {
        transcript: t.sampled_ext::<EF>().observed_ext(response),
        claim: s.claim.plus(gamma.times(response)),
        alphas: s.alphas.push(alpha),
        gammas: s.gammas.push(gamma),
        ..s
    }
}

/// The next polynomial is there and adds up to the claim.
pub open spec fn next_adds_up<F, EF: Field>(
    p: WhirPlan<F, EF>,
    s: WhirState<F, EF>,
    claim: EF,
) -> bool {
    s.polys < p.polys.len() && rounds::adds_up(p.polys[s.polys as int], claim)
}

/// The transcript after the next polynomial was observed.
pub open spec fn poly_seen<F: PermutationField, EF: ExtensionField<F>>(
    p: WhirPlan<F, EF>,
    s: WhirState<F, EF>,
) -> Transcript<F> {
    s.transcript.observed_exts(p.polys[s.polys as int])
}

/// The state after the polynomial of a round was observed and the variable bound.
pub open spec fn bound<F: PermutationField, EF: ExtensionField<F>>(
    p: WhirPlan<F, EF>,
    s: WhirState<F, EF>,
) -> WhirState<F, EF> {
    let t = poly_seen(p, s);
    let r = t.next_ext::<EF>();
    WhirState {
        transcript: t.sampled_ext::<EF>(),
        claim: unipoly::poly_eval(p.polys[s.polys as int], r),
        challenges: s.challenges.push(r),
        polys: s.polys + 1,
        ..s
    }
}

/// A group of the height enters.
pub open spec fn enters<F, EF>(p: WhirPlan<F, EF>, s: WhirState<F, EF>, log_height: nat) -> bool {
    s.group < p.groups.len() && p.groups[s.group as int].log_height == log_height
}

/// The state after the polynomial of a join was observed and the two claims became one.
pub open spec fn met<F: PermutationField, EF: ExtensionField<F>>(
    p: WhirPlan<F, EF>,
    s: WhirState<F, EF>,
) -> WhirState<F, EF> {
    let t = poly_seen(p, s);
    let r = t.next_ext::<EF>();
    WhirState {
        transcript: t.sampled_ext::<EF>(),
        claim: unipoly::poly_eval(p.polys[s.polys as int], r),
        merging: s.merging.push(r),
        polys: s.polys + 1,
        group: s.group + 1,
        ..s
    }
}

/// The root that the round announces is there.
pub open spec fn root_given<F, EF>(p: WhirPlan<F, EF>, round: nat) -> bool {
    round < p.num_vars ==> p.oracles.len() > p.num_vars - round
}

/// The rounds from `round` down, and the reason to stop, if any.
pub open spec fn rounds_from<F: PermutationField, EF: ExtensionField<F>>(
    p: WhirPlan<F, EF>,
    s: WhirState<F, EF>,
    round: nat,
) -> (WhirState<F, EF>, Option<BaseFoldError>)
    decreases round,
{
    let a = announced(p, s, round);
    if !root_given(p, round) {
        (s, Some(BaseFoldError::InvalidInputError))
    } else if round == 0 {
        (a, None)
    } else if p.responses.len() <= p.num_vars - round {
        (a, Some(BaseFoldError::InvalidInputError))
    } else {
        let w = responded(p, a, round);
        if !next_adds_up(p, w, w.claim) {
            (w, Some(BaseFoldError::SumcheckPhaseError))
        } else {
            let b = bound(p, w);
            let below = (round - 1) as nat;
            if !enters(p, b, below) {
                rounds_from(p, b, below)
            } else if !next_adds_up(p, b, b.claim.plus(p.groups[b.group as int].claim)) {
                (b, Some(BaseFoldError::SumcheckPhaseError))
            } else {
                rounds_from(p, met(p, b), below)
            }
        }
    }
}

/// The state before the first round.
pub open spec fn first_state<F: PermutationField, EF: ExtensionField<F>>(
    p: WhirPlan<F, EF>,
    t: Transcript<F>,
) -> WhirState<F, EF> {
    WhirState {
        transcript: t.observed_all(p.oracles[0]),
        claim: p.groups[0].claim,
        challenges: Seq::empty(),
        merging: Seq::empty(),
        alphas: Seq::empty(),
        gammas: Seq::empty(),
        polys: 0,
        group: 1,
    }
}

/// What the rounds leave behind.
pub struct WhirResult<EF> {
    pub claim: EF,
    pub challenges: Vec<EF>,
    pub merging: Vec<EF>,
    pub alphas: Vec<EF>,
    pub gammas: Vec<EF>,
}

/// The result holds what the state does.
pub open spec fn holds<F, EF>(r: WhirResult<EF>, s: WhirState<F, EF>) -> bool {
    &&& r.claim == s.claim
    &&& r.challenges@ == s.challenges
    &&& r.merging@ == s.merging
    &&& r.alphas@ == s.alphas
    &&& r.gammas@ == s.gammas
}

/// Observes the next polynomial and samples the challenge, where it adds up to the claim.
fn take_poly<F: MerkleField, EF: ExtensionField<F>>(
    polys: &Vec<UniPoly<EF>>,
    poly: usize,
    claim: EF,
    challenger: &mut DuplexChallenger<F>,
) -> (r: Option<(EF, EF)>)
    requires
        old(challenger)@.wf(),
        rounds::polys_wf(rounds::poly_coeffs(polys@)),
        claim.valid(),
    ensures
        ({
            let all = rounds::poly_coeffs(polys@);
            let good = poly < all.len() && rounds::adds_up(all[poly as int], claim);
            let t = old(challenger)@.observed_exts(all[poly as int]);
            let x = t.next_ext::<EF>();
            &&& r is Some <==> good
            &&& good ==> r == Some((x, unipoly::poly_eval(all[poly as int], x)))
            &&& good ==> final(challenger)@ == t.sampled_ext::<EF>()
            &&& !good ==> final(challenger)@ == old(challenger)@
        }),
        final(challenger)@.wf(),
        r matches Some(x) ==> x.0.valid() && x.1.valid() && poly < polys.len(),
{
    if poly >= polys.len() {
        return None;
    }
    let current: &UniPoly<EF> = &polys[poly];
    proof {
        let all = rounds::poly_coeffs(polys@);
        assert(all[poly as int] == current.coeffs@);
        assert(all[poly as int].len() > 0 && field::all_valid(all[poly as int]));
    }
    let sum: EF = current.eval_at_zero().add(current.eval_at_one());
    if !sum.is_equal(&claim) {
        return None;
    }
    challenger.observe_ext_elements(&current.coeffs);
    let r: EF = challenger.sample_ext_element();
    Some((r, current.evaluate(&r)))
}

/// Checks the rounds of the sumcheck.
#[verifier::spinoff_prover]
#[verifier::rlimit(40)]
pub fn verify_whir_rounds<F: MerkleField, EF: ExtensionField<F>>(
    num_vars: usize,
    oracles: &Vec<Vec<F>>,
    responses: &Vec<EF>,
    polys: &Vec<UniPoly<EF>>,
    groups: &Vec<HeightGroup<EF>>,
    challenger: &mut DuplexChallenger<F>,
) -> (r: Result<WhirResult<EF>, BaseFoldError>)
    requires
        old(challenger)@.wf(),
        groups@.len() > 0,
        groups@[0].log_height == num_vars,
        rounds::groups_descend(batch::group_models(groups@)),
        forall|i: int| 0 <= i < groups@.len() ==> (#[trigger] groups@[i]).claim.valid(),
        mmcs::are_digests(mmcs::rows_of(oracles@)),
        oracles@.len() > 0,
        field::all_valid(responses@),
        rounds::polys_wf(rounds::poly_coeffs(polys@)),
    ensures
        ({
            let p = WhirPlan {
                num_vars: num_vars as nat,
                oracles: mmcs::rows_of(oracles@),
                responses: responses@,
                polys: rounds::poly_coeffs(polys@),
                groups: batch::group_models(groups@),
            };
            let (s, error) = rounds_from(p, first_state(p, old(challenger)@), num_vars as nat);
            &&& final(challenger)@ == s.transcript
            &&& match error {
                Some(e) => r == Err::<WhirResult<EF>, BaseFoldError>(e),
                None => r is Ok && holds(r->Ok_0, s),
            }
        }),
        final(challenger)@.wf(),
        r matches Ok(x) ==> {
            &&& x.claim.valid()
            &&& field::all_valid(x.challenges@)
            &&& x.challenges@.len() == num_vars
            &&& x.alphas@.len() == num_vars
            &&& x.gammas@.len() == num_vars
            &&& x.merging@.len() == groups@.len() - 1
        },
{
    let ghost p = WhirPlan {
        num_vars: num_vars as nat,
        oracles: mmcs::rows_of(oracles@),
        responses: responses@,
        polys: rounds::poly_coeffs(polys@),
        groups: batch::group_models(groups@),
    };
    let ghost start = challenger@;
    let ghost goal = rounds_from(p, first_state(p, start), num_vars as nat);
    proof {
        assert(mmcs::is_digest(p.oracles[0]));
    }
    challenger.observe_slice(oracles[0].as_slice());
    let mut claim: EF = groups[0].claim;
    let mut challenges: Vec<EF> = Vec::new();
    let mut merging: Vec<EF> = Vec::new();
    let mut alphas: Vec<EF> = Vec::new();
    let mut gammas: Vec<EF> = Vec::new();
    let mut poly: usize = 0;
    let mut group: usize = 1;
    let mut round: usize = num_vars;
    let ghost mut s = first_state(p, start);
    proof {
        assert(s.transcript == challenger@);
        assert(s.challenges =~= challenges@);
        assert(s.merging =~= merging@);
        assert(s.alphas =~= alphas@);
        assert(s.gammas =~= gammas@);
        if groups@.len() > 1 {
            assert(p.groups[0].log_height > p.groups[1].log_height);
        }
    }
    loop
        invariant
            p == (WhirPlan {
                num_vars: num_vars as nat,
                oracles: mmcs::rows_of(oracles@),
                responses: responses@,
                polys: rounds::poly_coeffs(polys@),
                groups: batch::group_models(groups@),
            }),
            goal == rounds_from(p, first_state(p, start), num_vars as nat),
            goal == rounds_from(p, s, round as nat),
            start == old(challenger)@,
            challenger@ == s.transcript,
            challenger@.wf(),
            claim == s.claim,
            claim.valid(),
            challenges@ == s.challenges,
            merging@ == s.merging,
            alphas@ == s.alphas,
            gammas@ == s.gammas,
            poly == s.polys,
            group == s.group,
            round <= num_vars,
            challenges@.len() == num_vars - round,
            alphas@.len() == num_vars - round,
            gammas@.len() == num_vars - round,
            field::all_valid(challenges@),
            poly <= polys@.len(),
            1 <= group <= groups@.len(),
            merging@.len() == group - 1,
            group < groups@.len() ==> groups@[group as int].log_height < round,
            rounds::groups_descend(p.groups),
            forall|i: int| 0 <= i < groups@.len() ==> (#[trigger] groups@[i]).claim.valid(),
            mmcs::are_digests(p.oracles),
            field::all_valid(responses@),
            rounds::polys_wf(p.polys),
        decreases round,
    {
        broadcast use algebra::group_valid;

        let ghost before = s;
        if round < num_vars && oracles.len() <= num_vars - round {
            return Err(BaseFoldError::InvalidInputError);
        }
        if round < num_vars {
            proof {
                assert(mmcs::is_digest(p.oracles[num_vars - round]));
                assert(p.oracles[num_vars - round] == oracles@[num_vars - round]@);
            }
            challenger.observe_slice(oracles[num_vars - round].as_slice());
        }
        let ghost a = announced(p, before, round as nat);
        assert(challenger@ == a.transcript);
        if round == 0 {
            assert(goal == (a, None::<BaseFoldError>));
            return Ok(WhirResult { claim, challenges, merging, alphas, gammas });
        }
        if responses.len() <= num_vars - round {
            assert(goal == (a, Some(BaseFoldError::InvalidInputError)));
            return Err(BaseFoldError::InvalidInputError);
        }
        let alpha: EF = challenger.sample_ext_element();
        let gamma: EF = challenger.sample_ext_element();
        alphas.push(alpha);
        gammas.push(gamma);
        let response: EF = responses[num_vars - round];
        assert(response.valid());
        challenger.observe_ext_element(response);
        claim = claim.add(gamma.mul(response));
        let ghost w = responded(p, a, round as nat);
        proof {
            assert(w.transcript == challenger@);
            assert(w.alphas =~= alphas@);
            assert(w.gammas =~= gammas@);
        }
        match take_poly(polys, poly, claim, challenger) {
            None => {
                assert(goal == (w, Some(BaseFoldError::SumcheckPhaseError)));
                return Err(BaseFoldError::SumcheckPhaseError);
            },
            Some((r_fold, value)) => {
                challenges.push(r_fold);
                claim = value;
            },
        }
        poly += 1;
        let ghost b = bound(p, w);
        proof {
            assert(b.transcript == challenger@);
            assert(b.challenges =~= challenges@);
        }
        if group < groups.len() && groups[group].log_height == round - 1 {
            proof {
                assert(p.groups[group as int].claim == groups@[group as int].claim);
                assert(groups@[group as int].claim.valid());
                assert(enters(p, b, (round - 1) as nat));
            }
            let both: EF = claim.add(groups[group].claim);
            match take_poly(polys, poly, both, challenger) {
                None => {
                    assert(goal == (b, Some(BaseFoldError::SumcheckPhaseError)));
                    return Err(BaseFoldError::SumcheckPhaseError);
                },
                Some((r_merge, value)) => {
                    merging.push(r_merge);
                    claim = value;
                },
            }
            poly += 1;
            proof {
                if group + 1 < groups@.len() {
                    assert(p.groups[group as int].log_height > p.groups[group + 1].log_height);
                }
                s = met(p, b);
                assert(s.merging =~= merging@);
            }
            group += 1;
        } else {
            proof {
                assert(!enters(p, b, (round - 1) as nat));
                s = b;
            }
        }
        assert(goal == rounds_from(p, s, (round - 1) as nat));
        round -= 1;
    }
}

/// The first `n` of the element, its square, the square of that, and so on.
pub open spec fn squares<EF: Field>(a: EF, n: nat) -> Seq<EF>
    decreases n,
{
    if n == 0 {
        Seq::empty()
    } else if n == 1 {
        seq![a]
    } else {
        let before = squares(a, (n - 1) as nat);
        before.push(before.last().times(before.last()))
    }
}

pub proof fn lemma_squares_len<EF: Field>(a: EF, n: nat)
    ensures
        squares(a, n).len() == n,
    decreases n,
{
    if n > 1 {
        lemma_squares_len(a, (n - 1) as nat);
    }
}

/// Computes the successive squares.
pub fn successive_squares<EF: Field>(a: EF, n: usize) -> (r: Vec<EF>)
    ensures
        r@ == squares(a, n as nat),
        r@.len() == n,
{
    let mut r: Vec<EF> = Vec::new();
    let mut i: usize = 0;
    assert(r@ =~= squares(a, 0));
    while i < n
        invariant
            i <= n,
            r@ == squares(a, i as nat),
            r@.len() == i,
        decreases n - i,
    {
        if i == 0 {
            r.push(a);
        } else {
            let last: EF = r[i - 1];
            r.push(last.mul(last));
        }
        i += 1;
        assert(r@ =~= squares(a, i as nat));
    }
    r
}

/// The number of groups after the first that entered in the first `i` rounds.
pub open spec fn entered<EF>(groups: Seq<GroupModel<EF>>, num_vars: nat, i: nat) -> nat
    decreases i,
{
    if i == 0 {
        0
    } else {
        let before = entered(groups, num_vars, (i - 1) as nat);
        if before + 1 < groups.len() && groups[before as int + 1].log_height == num_vars - i {
            before + 1
        } else {
            before
        }
    }
}

/// The value of the combined equality polynomials at the challenges after `i` rounds: each round
/// adds the one of its point out of the domain, and each join interpolates with the one of the
/// opening point.
pub open spec fn combined_eq<F, EF: Field>(
    point: Seq<EF>,
    groups: Seq<GroupModel<EF>>,
    s: WhirState<F, EF>,
    i: nat,
) -> EF
    decreases i,
{
    let n = s.challenges.len();
    let x = s.challenges.reverse();
    if i == 0 {
        eqpoly::eq_eval(point, x)
    } else {
        let j = (i - 1) as nat;
        let left = (n - j) as nat;
        let with_point = combined_eq(point, groups, s, j).plus(
            s.gammas[j as int].times(
                eqpoly::eq_eval(squares(s.alphas[j as int], left), x.take(left as int)),
            ),
        );
        let k = entered(groups, n, j);
        if entered(groups, n, i) > k {
            let low = left - 1;
            mlpoly::lerp(
                with_point,
                eqpoly::eq_eval(point.take(low), x.take(low)),
                s.merging[k as int],
            )
        } else {
            with_point
        }
    }
}

/// Computes the value of the combined equality polynomials at the challenges.
pub(crate) fn combine_eq<F: MerkleField, EF: ExtensionField<F>>(
    point: &Vec<EF>,
    groups: &Vec<HeightGroup<EF>>,
    result: &WhirResult<EF>,
    Ghost(s): Ghost<WhirState<F, EF>>,
) -> (r: EF)
    requires
        holds(*result, s),
        point@.len() == result.challenges@.len(),
        result.alphas@.len() == point@.len(),
        result.gammas@.len() == point@.len(),
        groups@.len() == result.merging@.len() + 1,
    ensures
        r == combined_eq(point@, batch::group_models(groups@), s, point@.len()),
        r.valid(),
{
    let n: usize = point.len();
    let count: usize = groups.len();
    let ghost models = batch::group_models(groups@);
    let ghost x = s.challenges.reverse();
    let reversed_challenges: Vec<EF> = reversed(&result.challenges);
    let mut sum: EF = EqPolynomial::new(front(point, n)).evaluate(reversed_challenges.as_slice());
    proof {
        assert(point@.take(n as int) =~= point@);
        eqpoly::lemma_eq_eval_valid(point@, x);
    }
    let mut joins: usize = 0;
    let mut i: usize = 0;
    while i < n
        invariant
            i <= n,
            n == point@.len(),
            n == s.challenges.len(),
            holds(*result, s),
            result.alphas@.len() == n,
            result.gammas@.len() == n,
            groups@.len() == result.merging@.len() + 1,
            models == batch::group_models(groups@),
            x == s.challenges.reverse(),
            reversed_challenges@ == x,
            count == groups@.len(),
            joins < count,
            joins == entered(models, n as nat, i as nat),
            sum == combined_eq(point@, models, s, i as nat),
            sum.valid(),
        decreases n - i,
    {
        broadcast use algebra::group_valid;

        let left: usize = n - i;
        let part: Vec<EF> = front(&reversed_challenges, left);
        let eq: EF = EqPolynomial::new(successive_squares(result.alphas[i], left)).evaluate(
            part.as_slice(),
        );
        sum = sum.add(result.gammas[i].mul(eq));
        if joins + 1 < count && groups[joins + 1].log_height == left - 1 {
            assert(models[joins + 1].log_height == n - (i + 1));
            let low: usize = left - 1;
            let lower: Vec<EF> = front(&reversed_challenges, low);
            let branch: EF = EqPolynomial::new(front(point, low)).evaluate(lower.as_slice());
            sum = sum.add(result.merging[joins].mul(branch.sub(sum)));
            joins += 1;
        }
        i += 1;
        assert(joins == entered(models, n as nat, i as nat));
    }
    sum
}

} // verus!
