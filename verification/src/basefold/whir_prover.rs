//! The rounds of an opening with values out of the domain: commitments to the folded codewords and
//! the sumcheck.
use vstd::prelude::*;
use vstd::arithmetic::power2::*;
use crate::basefold::batch::HeightGroup;
use crate::basefold::challenger::{copy_elements, DuplexChallenger};
use crate::basefold::encode;
use crate::basefold::mlpoly::MultilinearPolynomial;
use crate::basefold::mmcs;
use crate::basefold::mmcs::MerkleField;
use crate::basefold::openings::SumcheckInstanceProof;
use crate::basefold::pcs::BaseFoldPcs;
use crate::basefold::prover;
use crate::basefold::prover::partial_eq_table;
use crate::basefold::rounds;
use crate::basefold::sumcheck::prove_round;
use crate::basefold::unipoly::UniPoly;
use crate::basefold::whir_honest;
use crate::basefold::whir_honest::WhirRun;
use crate::basefold::whir_rounds;
use crate::basefold::whir_rounds::WhirPlan;
use crate::basefold::word_answers::Words;
use crate::bits;
use crate::field;
use crate::field::algebra;
use crate::field::{Field, TwoAdicExtension};

verus! {

/// What the rounds of an opening leave behind.
pub struct WhirRoundsProof<F: MerkleField, EF> {
    pub polys: Vec<UniPoly<EF>>,
    pub oracles: Vec<Vec<F>>,
    pub responses: Vec<EF>,
    pub trees: Vec<F::Tree>,
}

/// The run with the parts that the rounds have made.
pub open spec fn with_parts<F, EF>(
    base: WhirRun<F, EF>,
    oracles: Seq<Vec<F>>,
    responses: Seq<EF>,
    polys: Seq<UniPoly<EF>>,
) -> WhirRun<F, EF> {
    WhirRun {
        plan: WhirPlan {
            oracles: mmcs::rows_of(oracles),
            responses,
            polys: rounds::poly_coeffs(polys),
            ..base.plan
        },
        ..base
    }
}

impl<F: MerkleField, EF: TwoAdicExtension<F>> WhirRoundsProof<F, EF> {
    /// The run that made the rounds.
    pub open spec fn run(self, base: WhirRun<F, EF>) -> WhirRun<F, EF> {
        with_parts(base, self.oracles@, self.responses@, self.polys@)
    }
}

impl<F: MerkleField, EF: TwoAdicExtension<F>> WhirRun<F, EF> {
    /// The codewords of the rounds with their roots.
    pub open spec fn words(self) -> Words<F, EF> {
        Words {
            roots: self.plan.oracles,
            words: Seq::new(self.num_vars() + 1, |i: int| self.word(i as nat)),
            log_len: self.num_vars() + self.log_blowup,
        }
    }
}

/// The second run goes on from the parts of the first.
pub open spec fn goes_on<F, EF>(a: WhirRun<F, EF>, b: WhirRun<F, EF>) -> bool {
    &&& b.plan.num_vars == a.plan.num_vars
    &&& b.plan.groups == a.plan.groups
    &&& b.tables == a.tables
    &&& b.point == a.point
    &&& b.transcript == a.transcript
    &&& b.log_blowup == a.log_blowup
    &&& a.plan.oracles.is_prefix_of(b.plan.oracles)
    &&& a.plan.responses.is_prefix_of(b.plan.responses)
    &&& a.plan.polys.is_prefix_of(b.plan.polys)
}

/// The states of a run depend on what was made before them.
proof fn lemma_prefix<F: MerkleField, EF: TwoAdicExtension<F>>(
    a: WhirRun<F, EF>,
    b: WhirRun<F, EF>,
    i: nat,
)
    requires
        goes_on(a, b),
        i <= a.num_vars(),
        a.plan.oracles.len() >= i,
        a.plan.oracles.len() > 0,
        a.plan.responses.len() >= i,
        a.plan.polys.len() >= a.at(i).s.polys,
    ensures
        a.at(i) == b.at(i),
    decreases i,
{
    if i == 0 {
        assert(a.plan.oracles[0] == b.plan.oracles[0]);
    } else {
        let j = (i - 1) as nat;
        whir_honest::lemma_polys_grow(a, j, i);
        lemma_prefix(a, b, j);
        lemma_same_step(a, b, j);
    }
}

/// One round of two runs, the second of which goes on from the first.
proof fn lemma_same_step<F: MerkleField, EF: TwoAdicExtension<F>>(
    a: WhirRun<F, EF>,
    b: WhirRun<F, EF>,
    j: nat,
)
    requires
        goes_on(a, b),
        j < a.num_vars(),
        a.plan.oracles.len() > j,
        a.plan.responses.len() > j,
        a.plan.polys.len() >= a.at(j + 1).s.polys,
        a.at(j) == b.at(j),
    ensures
        a.at(j + 1) == b.at(j + 1),
        a.round_made(j) ==> b.round_made(j),
{
    let h = a.at(j);
    let round = (a.num_vars() - j) as nat;
    assert(a.plan.oracles[j as int] == b.plan.oracles[j as int]);
    assert(a.plan.responses[j as int] == b.plan.responses[j as int]);
    assert(a.asked(h, round) == b.asked(h, round));
    let p = h.s.polys as int;
    assert(a.asked(h, round).polys == p);
    assert(a.plan.polys[p] == b.plan.polys[p]);
    assert(a.bound(h, round) == b.bound(h, round));
    if a.enters(h, round) {
        assert(a.plan.polys[p + 1] == b.plan.polys[p + 1]);
    }
}

/// The rounds that were made stay made.
proof fn lemma_still_made<F: MerkleField, EF: TwoAdicExtension<F>>(
    a: WhirRun<F, EF>,
    b: WhirRun<F, EF>,
    i: nat,
    j: nat,
)
    requires
        goes_on(a, b),
        j < i <= a.num_vars(),
        a.plan.oracles.len() >= i,
        a.plan.responses.len() >= i,
        a.plan.polys.len() >= a.at(i).s.polys,
        a.round_made(j),
    ensures
        b.round_made(j),
        a.at(j) == b.at(j),
{
    whir_honest::lemma_polys_grow(a, j, i);
    whir_honest::lemma_polys_grow(a, j + 1, i);
    lemma_prefix(a, b, j);
    lemma_same_step(a, b, j);
}

/// The groups of a run are the given ones with the given claims.
pub open spec fn groups_planned<F, EF: Field>(
    run: WhirRun<F, EF>,
    groups: Seq<HeightGroup<EF>>,
    tables: Seq<Vec<EF>>,
    claims: Seq<EF>,
) -> bool {
    &&& run.plan.groups.len() == groups.len()
    &&& tables.len() == groups.len()
    &&& claims.len() == groups.len()
    &&& run.tables == prover::table_views(tables)
    &&& forall|g: int|
        0 <= g < groups.len() ==> {
            &&& (#[trigger] run.plan.groups[g]).log_height == groups[g].log_height
            &&& run.plan.groups[g].claim == claims[g]
            &&& claims[g].valid()
        }
}

/// What is folded: the table, the table that it is summed against, the claimed sum, and the number
/// of groups that were joined.
pub struct WhirFolding<EF> {
    pub f: MultilinearPolynomial<EF>,
    pub e: MultilinearPolynomial<EF>,
    pub claim: EF,
    pub group: usize,
}

impl<EF: Field> WhirFolding<EF> {
    /// The fold is in the given state.
    pub open spec fn is_at<F>(self, h: whir_honest::WhirHonest<F, EF>) -> bool {
        &&& self.f.evals@ == h.f
        &&& self.e.evals@ == h.e
        &&& self.claim == h.s.claim
        &&& self.group == h.s.group
        &&& self.f.wf()
        &&& self.e.wf()
    }
}

impl<F: MerkleField> BaseFoldPcs<F> {
    /// One round: the value out of the domain, the sumcheck, and the join, where a table enters.
    #[verifier::spinoff_prover]
    #[verifier::rlimit(60)]
    fn prove_whir_round<EF: TwoAdicExtension<F>>(
        &self,
        fold: &mut WhirFolding<EF>,
        groups: &Vec<HeightGroup<EF>>,
        tables: &Vec<Vec<EF>>,
        claims: &Vec<EF>,
        point: &Vec<EF>,
        round: usize,
        responses: &mut Vec<EF>,
        polys: &mut Vec<UniPoly<EF>>,
        challenger: &mut DuplexChallenger<F>,
        Ghost(base): Ghost<WhirRun<F, EF>>,
        Ghost(oracles): Ghost<Seq<Vec<F>>>,
    )
        requires
            base.ready(),
            groups_planned(base, groups@, tables@, claims@),
            base.point == point@,
            1 <= round <= point@.len(),
            point@.len() < usize::BITS,
            ({
                let i = (point@.len() - round) as nat;
                let run = with_parts(base, oracles, old(responses)@, old(polys)@);
                &&& oracles.len() == i + 1
                &&& mmcs::are_digests(mmcs::rows_of(oracles))
                &&& old(responses)@.len() == i
                &&& old(polys)@.len() == run.at(i).s.polys
                &&& run.in_order(run.at(i), i)
                &&& old(fold).is_at(run.at(i))
                &&& old(challenger)@ == whir_rounds::announced(
                    run.plan,
                    run.at(i).s,
                    round as nat,
                ).transcript
            }),
            old(challenger)@.wf(),
        ensures
            ({
                let i = (point@.len() - round) as nat;
                let before = with_parts(base, oracles, old(responses)@, old(polys)@);
                let run = with_parts(base, oracles, final(responses)@, final(polys)@);
                &&& goes_on(before, run)
                &&& run.at(i) == before.at(i)
                &&& final(responses)@.len() == i + 1
                &&& final(polys)@.len() == run.at(i + 1).s.polys
                &&& run.round_made(i)
                &&& run.in_order(run.at(i + 1), i + 1)
                &&& final(fold).is_at(run.at(i + 1))
                &&& final(challenger)@ == run.at(i + 1).s.transcript
            }),
            final(challenger)@.wf(),
    {
        broadcast use algebra::group_valid;

        let ghost n = point@.len();
        let ghost i = (n - round) as nat;
        let ghost before = with_parts(base, oracles, responses@, polys@);
        let ghost h = before.at(i);
        let ghost old_responses = responses@;
        let ghost old_polys = polys@;
        proof {
            bits::lemma_log2_pow2(round as nat);
            lemma_pow2_unfold(round as nat);
            lemma_pow2_pos((round - 1) as nat);
            bits::lemma_log2_pow2((round - 1) as nat);
            assert(mmcs::is_digest(mmcs::rows_of(oracles)[i as int]));
        }
        let (alpha, gamma, response) = SumcheckInstanceProof::sumcheck_prove_whir_round(
            &fold.f,
            &mut fold.e,
            challenger,
        );
        responses.push(response);
        fold.claim = fold.claim.add(gamma.mul(response));
        let (poly, r_fold) = prove_round(&fold.claim, &mut fold.f, &mut fold.e, challenger);
        let ghost first = poly.coeffs@;
        let ghost asked_claim = fold.claim;
        fold.claim = poly.evaluate(&r_fold);
        polys.push(poly);
        let ghost middle = with_parts(base, oracles, responses@, polys@);
        let ghost b = middle.bound(h, round as nat);
        proof {
            let p = h.s.polys as int;
            assert(middle.plan.responses[i as int] == response);
            assert(middle.plan.polys[p] == first);
            assert(goes_on(before, middle));
            lemma_prefix(before, middle, i);
            let w = middle.asked(h, round as nat);
            assert(w.alphas.last() == alpha);
            assert(w.gammas.last() == gamma);
            assert(w.claim == asked_claim);
            assert(b.s.transcript == challenger@);
            assert(b.s.challenges.last() == r_fold);
            whir_honest::lemma_bound(middle, h, i);
            assert(fold.f.evals@ == b.f);
            assert(fold.e.evals@ == b.e);
        }
        let g: usize = fold.group;
        if g < groups.len() && groups[g].log_height == round - 1 {
            proof {
                assert(base.plan.groups[g as int].log_height == groups@[g as int].log_height);
                assert(base.tables[g as int] == tables@[g as int]@);
                assert(base.tables[g as int].len() == pow2(base.plan.groups[g as int].log_height));
                assert(middle.enters(h, round as nat));
            }
            let branch_f = MultilinearPolynomial::new(copy_elements(&tables[g]));
            let branch_e = MultilinearPolynomial::new(partial_eq_table(point, round - 1));
            let (join, r_merge, (f, e)) =
                SumcheckInstanceProof::sumcheck_prove_merge_two_instances(
                &fold.claim,
                &claims[g],
                &fold.f,
                &fold.e,
                &branch_f,
                &branch_e,
                challenger,
            );
            let ghost second = join.coeffs@;
            fold.claim = join.evaluate(&r_merge);
            polys.push(join);
            fold.f = f;
            fold.e = e;
            fold.group = g + 1;
            let ghost run = with_parts(base, oracles, responses@, polys@);
            proof {
                let p = h.s.polys as int;
                assert(run.plan.polys[p] == first);
                assert(run.plan.polys[p + 1] == second);
                assert(goes_on(before, run));
                lemma_prefix(before, run, i);
                assert(run.asked(h, round as nat) == middle.asked(h, round as nat));
                assert(run.bound(h, round as nat) == b);
                assert(run.enters(h, round as nat));
                assert(run.round_made(i));
                whir_honest::lemma_step(run, i);
                assert(run.at(i + 1).s.merging.last() == r_merge);
                assert(fold.is_at(run.at(i + 1)));
            }
        } else {
            proof {
                if g < groups@.len() {
                    assert(base.plan.groups[g as int].log_height == groups@[g as int].log_height);
                }
                assert(!middle.enters(h, round as nat));
                assert(middle.round_made(i));
                whir_honest::lemma_step(middle, i);
            }
        }
    }

    /// The rounds: the values out of the domain, the sumcheck, and the commitments to the folded
    /// codewords.
    #[verifier::spinoff_prover]
    #[verifier::rlimit(60)]
    pub(crate) fn prove_whir_rounds<EF: TwoAdicExtension<F>>(
        &self,
        groups: &Vec<HeightGroup<EF>>,
        tables: &Vec<Vec<EF>>,
        claims: &Vec<EF>,
        point: &Vec<EF>,
        challenger: &mut DuplexChallenger<F>,
        Ghost(base): Ghost<WhirRun<F, EF>>,
    ) -> (r: WhirRoundsProof<F, EF>)
        requires
            base.ready(),
            groups_planned(base, groups@, tables@, claims@),
            base.point == point@,
            base.transcript == old(challenger)@,
            base.log_blowup == self.fri.log_blowup,
            self.fri.log_blowup >= 1,
            point@.len() + self.fri.log_blowup <= F::two_adicity(),
            point@.len() + self.fri.log_blowup < usize::BITS,
            pow2(point@.len() + self.fri.log_blowup as nat) * EF::degree() <= usize::MAX,
        ensures
            r.run(base).sound(),
            r.run(base).words().wf(),
            self.words_committed(r.run(base).words(), r.trees@),
            final(challenger)@ == whir_rounds::announced(
                r.run(base).plan,
                r.run(base).at(point@.len()).s,
                0,
            ).transcript,
            final(challenger)@.wf(),
    {
        let n: usize = point.len();
        let ghost lb = self.fri.log_blowup as nat;
        proof {
            assert(base.tables[0] == tables@[0]@);
            assert(base.tables[0].len() == pow2(base.plan.groups[0].log_height));
            assert(base.plan.groups[0].claim == claims@[0]);
            bits::lemma_log2_pow2(n as nat);
            lemma2_to64();
            assert(point@.take(n as int) =~= point@);
        }
        let mut fold: WhirFolding<EF> = WhirFolding {
            f: MultilinearPolynomial::new(copy_elements(&tables[0])),
            e: MultilinearPolynomial::new(partial_eq_table(point, n)),
            claim: claims[0],
            group: 1,
        };
        let mut polys: Vec<UniPoly<EF>> = Vec::new();
        let mut oracles: Vec<Vec<F>> = Vec::new();
        let mut responses: Vec<EF> = Vec::new();
        let mut trees: Vec<F::Tree> = Vec::new();
        let (root, tree) = self.commit_word(&fold.f.evals, 1, Ghost(n as nat));
        challenger.observe_slice(root.as_slice());
        oracles.push(root);
        trees.push(tree);
        proof {
            let run = with_parts(base, oracles@, responses@, polys@);
            assert(run.plan.oracles[0] == root@);
            whir_honest::lemma_start(run);
        }
        let mut i: usize = 0;
        while i < n
            invariant
                i <= n,
                n == point@.len(),
                lb == self.fri.log_blowup,
                lb >= 1,
                base.ready(),
                groups_planned(base, groups@, tables@, claims@),
                base.point == point@,
                base.log_blowup == lb,
                n + lb <= F::two_adicity(),
                n + lb < usize::BITS,
                pow2(n as nat + lb) * EF::degree() <= usize::MAX,
                oracles@.len() == i + 1,
                trees@.len() == i + 1,
                responses@.len() == i,
                mmcs::are_digests(mmcs::rows_of(oracles@)),
                ({
                    let run = with_parts(base, oracles@, responses@, polys@);
                    &&& polys@.len() == run.at(i as nat).s.polys
                    &&& run.in_order(run.at(i as nat), i as nat)
                    &&& fold.is_at(run.at(i as nat))
                    &&& challenger@ == whir_rounds::announced(
                        run.plan,
                        run.at(i as nat).s,
                        (n - i) as nat,
                    ).transcript
                    &&& forall|j: nat| j < i ==> #[trigger] run.round_made(j)
                    &&& forall|j: int|
                        0 <= j <= i ==> self.commits_to(
                            oracles@[j]@,
                            #[trigger] trees@[j],
                            run.word(j as nat),
                            2,
                        )
                }),
                challenger@.wf(),
            decreases n - i,
        {
            let round: usize = n - i;
            let ghost before = with_parts(base, oracles@, responses@, polys@);
            self.prove_whir_round(
                &mut fold,
                groups,
                tables,
                claims,
                point,
                round,
                &mut responses,
                &mut polys,
                challenger,
                Ghost(base),
                Ghost(oracles@),
            );
            let ghost middle = with_parts(base, oracles@, responses@, polys@);
            let ghost next = middle.at((i + 1) as nat);
            proof {
                let low = (round - 1) as nat;
                lemma2_to64();
                if n as nat + lb > low + lb {
                    lemma_pow2_strictly_increases(low + lb, n as nat + lb);
                }
                assert(pow2(low + lb) * EF::degree() <= pow2(n as nat + lb) * EF::degree())
                    by (nonlinear_arith)
                    requires
                        pow2(low + lb) <= pow2(n as nat + lb),
                ;
            }
            let (root, tree) = self.commit_word(&fold.f.evals, 1, Ghost((round - 1) as nat));
            challenger.observe_slice(root.as_slice());
            let ghost old_trees = trees@;
            let ghost old_oracles = oracles@;
            oracles.push(root);
            trees.push(tree);
            proof {
                let run = with_parts(base, oracles@, responses@, polys@);
                let k = (i + 1) as nat;
                assert(goes_on(middle, run));
                assert(goes_on(before, run));
                lemma_prefix(middle, run, k);
                assert(run.plan.oracles[k as int] == root@);
                assert forall|j: nat| j < k implies #[trigger] run.round_made(j) by {
                    if j < i {
                        assert(before.round_made(j));
                        lemma_still_made(before, run, i as nat, j);
                    } else {
                        lemma_still_made(middle, run, k, j);
                    }
                }
                assert forall|j: int| 0 <= j <= k implies self.commits_to(
                    oracles@[j]@,
                    #[trigger] trees@[j],
                    run.word(j as nat),
                    2,
                ) by {
                    if j <= i {
                        assert(trees@[j] == old_trees[j] && oracles@[j] == old_oracles[j]);
                        whir_honest::lemma_polys_grow(before, j as nat, i as nat);
                        lemma_prefix(before, run, j as nat);
                    }
                }
                assert(mmcs::rows_of(oracles@) =~= mmcs::rows_of(old_oracles).push(root@));
            }
            i += 1;
        }
        let r = WhirRoundsProof { polys, oracles, responses, trees };
        proof {
            let run = r.run(base);
            let w = run.words();
            assert(run == with_parts(base, r.oracles@, r.responses@, r.polys@));
            assert(run.sound());
            assert forall|j: int| 0 <= j < w.words.len() implies (#[trigger] w.words[j]).len()
                == pow2((w.log_len - j) as nat) && field::all_valid(w.words[j]) by {
                whir_honest::lemma_in_order(run, j as nat);
                let f = run.at(j as nat).f;
                bits::lemma_log2_pow2((n - j) as nat);
                lemma_pow2_pos((n - j) as nat);
                assert forall|m: int| 0 <= m < w.words[j].len() implies (
                #[trigger] w.words[j][m]).valid() by {
                    encode::lemma_encoded_valid(f, lb, m);
                }
            }
            assert forall|j: int| 0 <= j < r.trees@.len() implies self.commits_to(
                w.roots[j],
                #[trigger] r.trees@[j],
                w.words[j],
                2,
            ) by {}
        }
        r
    }
}

} // verus!
