//! The rounds of an opening: commitments to the folded codewords and the sumcheck.
use vstd::prelude::*;
use vstd::arithmetic::power2::*;
use crate::basefold::batch::HeightGroup;
use crate::basefold::challenger::{copy_elements, DuplexChallenger};
use crate::basefold::encode;
use crate::basefold::encode::encode_to_codeword;
use crate::basefold::eqpoly;
use crate::basefold::ext_mmcs;
use crate::basefold::ext_mmcs::commit_matrix;
use crate::basefold::honest;
use crate::basefold::honest::Honest;
use crate::basefold::honest_queries::Run;
use crate::basefold::linear;
use crate::basefold::mlpoly::MultilinearPolynomial;
use crate::basefold::mmcs;
use crate::basefold::mmcs::MerkleField;
use crate::basefold::pcs::BaseFoldPcs;
use crate::basefold::prover;
use crate::basefold::prover::partial_eq_table;
use crate::basefold::query;
use crate::basefold::rounds;
use crate::basefold::rounds::Plan;
use crate::basefold::schedule;
use crate::basefold::schedule::CommitGroup;
use crate::basefold::sumcheck;
use crate::basefold::sumcheck::prove_round;
use crate::basefold::unipoly;
use crate::basefold::unipoly::UniPoly;
use crate::bits;
use crate::field;
use crate::field::algebra;
use crate::field::{Field, TwoAdicExtension};

verus! {

/// What is folded: the combined table, the equality polynomial that it is summed against, the
/// claimed sum, the value of the equality polynomial since the last merge, and the number of groups
/// that were merged.
pub struct Folding<EF> {
    pub f: MultilinearPolynomial<EF>,
    pub e: MultilinearPolynomial<EF>,
    pub claim: EF,
    pub eq: EF,
    pub group: usize,
}

impl<EF: Field> Folding<EF> {
    /// The fold is in the given state before the round of the height `round`.
    pub open spec fn is_at<F>(self, h: Honest<F, EF>, point: Seq<EF>, round: nat) -> bool {
        &&& self.f.evals@ == h.f
        &&& self.e.evals@ == honest::weights(h, point, round)
        &&& self.claim == h.s.claim
        &&& self.eq == h.eq
        &&& self.group == h.s.group
        &&& self.f.evals@.len() == pow2(round)
        &&& field::all_valid(self.f.evals@)
        &&& field::all_valid(self.e.evals@)
        &&& self.claim.valid()
        &&& self.eq.valid()
    }
}

/// The groups of a plan are the given ones with the given claims, and the tables are theirs.
pub open spec fn groups_planned<F, EF: Field>(
    p: Plan<F, EF>,
    groups: Seq<HeightGroup<EF>>,
    tables: Seq<Vec<EF>>,
    claims: Seq<EF>,
) -> bool {
    &&& p.groups.len() == groups.len()
    &&& tables.len() == groups.len()
    &&& claims.len() == groups.len()
    &&& forall|g: int|
        0 <= g < groups.len() ==> {
            &&& (#[trigger] p.groups[g]).log_height == groups[g].log_height
            &&& p.groups[g].claim == claims[g]
            &&& claims[g].valid()
            &&& tables[g]@.len() == pow2(p.groups[g].log_height)
            &&& field::all_valid(tables[g]@)
        }
}

/// One table times one number plus another times another.
fn combine<EF: Field>(x: EF, a: &Vec<EF>, y: EF, b: &Vec<EF>) -> (r: Vec<EF>)
    requires
        a@.len() == b@.len(),
    ensures
        r@ == linear::combined(x, a@, y, b@),
        field::all_valid(r@),
{
    broadcast use algebra::group_valid;

    let n: usize = a.len();
    let mut r: Vec<EF> = Vec::new();
    let mut i: usize = 0;
    while i < n
        invariant
            i <= n,
            n == a@.len(),
            a@.len() == b@.len(),
            r@ == linear::combined(x, a@, y, b@).take(i as int),
        decreases n - i,
    {
        r.push(x.mul(a[i]).add(y.mul(b[i])));
        i += 1;
        assert(r@ =~= linear::combined(x, a@, y, b@).take(i as int));
    }
    assert(r@ =~= linear::combined(x, a@, y, b@));
    proof {
        linear::lemma_combined_valid(x, a@, y, b@);
    }
    r
}

/// Binds the last variable, and merges the table of the height below where there is one.
pub(crate) fn fold_round<F: MerkleField, EF: TwoAdicExtension<F>>(
    fold: &mut Folding<EF>,
    groups: &Vec<HeightGroup<EF>>,
    tables: &Vec<Vec<EF>>,
    claims: &Vec<EF>,
    point: &Vec<EF>,
    round: usize,
    challenger: &mut DuplexChallenger<F>,
    Ghost(q): Ghost<Plan<F, EF>>,
    Ghost(h): Ghost<Honest<F, EF>>,
) -> (poly: UniPoly<EF>)
    requires
        1 <= round <= point@.len(),
        round < usize::BITS,
        field::all_valid(point@),
        groups_planned(q, groups@, tables@, claims@),
        h.s.polys == q.polys.len(),
        old(fold).is_at(h, point@, round as nat),
        old(challenger)@ == rounds::announced(q, h.s, round as nat).transcript,
        old(challenger)@.wf(),
    ensures
        ({
            let p = Plan { polys: q.polys.push(poly.coeffs@), ..q };
            let after = honest::honest_step(
                p,
                prover::table_views(tables@),
                point@,
                h,
                round as nat,
            );
            &&& final(fold).is_at(after, point@, (round - 1) as nat)
            &&& final(challenger)@ == after.s.transcript
            &&& after.s.polys == h.s.polys + 1
            &&& after.s.oracle == rounds::announced(q, h.s, round as nat).oracle
        }),
        final(challenger)@.wf(),
        sumcheck::is_round_poly(
            poly.coeffs@,
            h.f,
            honest::weights(h, point@, round as nat),
            h.s.claim,
        ),
{
    broadcast use algebra::group_valid;

    proof {
        bits::lemma_log2_pow2(round as nat);
        lemma_pow2_unfold(round as nat);
        lemma_pow2_pos((round - 1) as nat);
        assert(fold.e.evals@.len() == pow2(round as nat));
    }
    let (poly, r) = prove_round(&fold.claim, &mut fold.f, &mut fold.e, challenger);
    let ghost p = Plan { polys: q.polys.push(poly.coeffs@), ..q };
    let ghost a = rounds::announced(p, h.s, round as nat);
    let ghost b = rounds::bound_round(p, a);
    let ghost views = prover::table_views(tables@);
    proof {
        assert(a == rounds::announced(q, h.s, round as nat));
        assert(p.polys[a.polys as int] == poly.coeffs@);
        assert(b.challenges.last() == r);
        unipoly::lemma_poly_eval_valid(poly.coeffs@, r);
        let front = point@.take(round as int);
        assert(front.last() == point@[round - 1]);
        assert(front.drop_last() =~= point@.take(round - 1));
        assert forall|i: int| 0 <= i < front.len() implies (#[trigger] front[i]).valid() by {
            assert(point@[i].valid());
        }
        sumcheck::law_eq_table_bound(front, h.eq, r);
        assert(point@[round - 1].valid());
        EF::law_constants();
    }
    fold.claim = poly.evaluate(&r);
    let at: EF = point[round - 1];
    let one: EF = EF::one();
    fold.eq = fold.eq.mul(at.mul(r).add(one.sub(at).mul(one.sub(r))));
    proof {
        assert(fold.eq == h.eq.times(eqpoly::eq_factor(at, r)));
    }
    let g: usize = fold.group;
    if g < groups.len() && groups[g].log_height == round - 1 {
        let ghost before = *fold;
        assert(p.groups[g as int].log_height == groups@[g as int].log_height);
        let beta: EF = challenger.sample_ext_element();
        let merged = combine(fold.eq, &fold.f.evals, beta, &tables[g]);
        let table = partial_eq_table(point, round - 1);
        proof {
            bits::lemma_log2_pow2((round - 1) as nat);
            honest::lemma_one_scaled(table@);
            assert(views[g as int] == tables@[g as int]@);
        }
        fold.f = MultilinearPolynomial::new(merged);
        fold.e = MultilinearPolynomial::new(table);
        fold.claim = fold.claim.add(beta.mul(claims[g]));
        fold.eq = EF::one();
        fold.group = g + 1;
        let ghost m = rounds::merged_round(p, b, (round - 1) as nat);
        proof {
            assert(m.betas.last() == beta);
            assert(m.group == b.group + 1);
        }
    } else {
        assert(g < groups@.len() ==> p.groups[g as int].log_height == groups@[g as int].log_height);
    }
    poly
}

/// The parts of an opening that the rounds have made so far.
#[verifier::ext_equal]
pub struct Parts<F, EF> {
    pub oracles: Seq<Seq<F>>,
    pub polys: Seq<Seq<EF>>,
    pub last: Option<Seq<EF>>,
}

/// The number of roots: one for each group of rounds, and one for the last codeword where the
/// folding goes to the end.
pub open spec fn roots_in_all(schedule: Seq<CommitGroup>, k: nat) -> nat {
    if k == 0 {
        schedule.len() + 1
    } else {
        schedule.len()
    }
}

/// The plan goes on from the parts.
pub open spec fn agrees<F, EF>(p: Plan<F, EF>, base: Plan<F, EF>, parts: Parts<F, EF>) -> bool {
    &&& p.num_vars == base.num_vars
    &&& p.k == base.k
    &&& p.schedule == base.schedule
    &&& p.groups == base.groups
    &&& p.oracles.len() == roots_in_all(base.schedule, base.k)
    &&& parts.oracles.is_prefix_of(p.oracles)
    &&& parts.polys.is_prefix_of(p.polys)
    &&& (parts.last matches Some(x) ==> p.final_poly == x)
}

/// The plan with the parts in place.
pub open spec fn with_parts<F, EF>(base: Plan<F, EF>, parts: Parts<F, EF>) -> Plan<F, EF> {
    Plan {
        oracles: parts.oracles,
        polys: parts.polys,
        final_poly: match parts.last {
            Some(x) => x,
            None => Seq::empty(),
        },
        ..base
    }
}

/// What the parts are, after `i` rounds of a plan that goes on from them.
pub open spec fn made<F: MerkleField, EF: TwoAdicExtension<F>>(
    run: Run<F, EF>,
    i: nat,
    now: Honest<F, EF>,
    words: Seq<Seq<EF>>,
    last: Option<Seq<EF>>,
) -> bool {
    &&& run.at(i) == now
    &&& honest::polys_proved(run.plan, run.tables, run.point, run.transcript, i)
    &&& forall|j: int|
        0 <= j < words.len() ==> #[trigger] words[j] == run.word(
            query::rounds_before(run.plan.schedule, j as nat),
        )
    &&& (last matches Some(x) ==> x == run.at((run.plan.num_vars - run.plan.k) as nat).f)
}

/// Every plan that goes on from the parts makes them.
pub open spec fn all_made<F: MerkleField, EF: TwoAdicExtension<F>>(
    base: Run<F, EF>,
    parts: Parts<F, EF>,
    i: nat,
    now: Honest<F, EF>,
    words: Seq<Seq<EF>>,
) -> bool {
    forall|p: Plan<F, EF>| #[trigger]
        agrees(p, base.plan, parts) ==> made(Run { plan: p, ..base }, i, now, words, parts.last)
}

/// A root is announced before the round.
pub open spec fn root_due<F, EF>(p: Plan<F, EF>, round: nat) -> bool {
    round < p.num_vars && rounds::is_start(p.schedule, round)
}

/// One more round of every plan that goes on from the parts.
proof fn lemma_made_step<F: MerkleField, EF: TwoAdicExtension<F>>(
    base: Run<F, EF>,
    old_parts: Parts<F, EF>,
    parts: Parts<F, EF>,
    i: nat,
    now: Honest<F, EF>,
    old_words: Seq<Seq<EF>>,
    words: Seq<Seq<EF>>,
)
    requires
        all_made(base, old_parts, i, now, old_words),
        i < base.plan.num_vars,
        old_parts.polys.len() == i,
        now.s.polys == i,
        parts.polys.len() == i + 1,
        old_parts.polys.is_prefix_of(parts.polys),
        sumcheck::is_round_poly(
            parts.polys.last(),
            now.f,
            honest::weights(now, base.point, (base.plan.num_vars - i) as nat),
            now.s.claim,
        ),
        root_due(base.plan, (base.plan.num_vars - i) as nat) ==> {
            &&& now.s.oracle == old_parts.oracles.len()
            &&& parts.oracles.len() == old_parts.oracles.len() + 1
            &&& old_parts.oracles.is_prefix_of(parts.oracles)
            &&& words == old_words.push(encode::encoded(now.f, base.log_blowup))
            &&& query::rounds_before(base.plan.schedule, old_words.len()) == i
        },
        !root_due(base.plan, (base.plan.num_vars - i) as nat) ==> parts.oracles == old_parts.oracles
            && words == old_words,
        parts.last == (if !rounds::is_start(base.plan.schedule, (base.plan.num_vars - i) as nat)
            && base.plan.num_vars - i == base.plan.k {
            Some(now.f)
        } else {
            old_parts.last
        }),
        old_parts.last is Some ==> base.plan.num_vars - i < base.plan.k,
    ensures
        all_made(
            base,
            parts,
            i + 1,
            honest::honest_step(
                with_parts(base.plan, parts),
                base.tables,
                base.point,
                now,
                (base.plan.num_vars - i) as nat,
            ),
            words,
        ),
{
    let round = (base.plan.num_vars - i) as nat;
    let q = with_parts(base.plan, parts);
    let after = honest::honest_step(q, base.tables, base.point, now, round);
    assert forall|p: Plan<F, EF>| #[trigger] agrees(p, base.plan, parts) implies made(
        Run { plan: p, ..base },
        i + 1,
        after,
        words,
        parts.last,
    ) by {
        let run = Run { plan: p, ..base };
        assert(agrees(p, base.plan, old_parts));
        assert(made(run, i, now, old_words, old_parts.last));
        assert(p.polys[i as int] == parts.polys[i as int]);
        if root_due(base.plan, round) {
            let o = old_parts.oracles.len() as int;
            assert(p.oracles[o] == parts.oracles[o]);
        }
        assert(rounds::announced(p, now.s, round) == rounds::announced(q, now.s, round));
        assert(run.at(i + 1) == after);
        assert forall|j: nat| j < i + 1 implies #[trigger] honest::poly_proved(
            p,
            run.tables,
            run.point,
            run.transcript,
            j,
        ) by {}
        assert forall|j: int| 0 <= j < words.len() implies #[trigger] words[j] == run.word(
            query::rounds_before(p.schedule, j as nat),
        ) by {
            if j < old_words.len() {
                assert(words[j] == old_words[j]);
            }
        }
    }
}

/// Where the groups of a schedule start.
pub proof fn lemma_starts(s: Seq<CommitGroup>, h: nat, k: nat, g: nat)
    requires
        schedule::tiles(s, h, k),
        h >= k,
        g < s.len(),
    ensures
        s[g as int].start_log_height + query::rounds_before(s, g) == h,
        query::rounds_before(s, g) + s[g as int].log_folding + k <= h,
        s[g as int].log_folding > 0,
    decreases s.len(),
{
    if g > 0 {
        lemma_starts(s.drop_first(), (h - s[0].log_folding) as nat, k, (g - 1) as nat);
        rounds::lemma_rounds_before_rest(s, g);
        assert(s.drop_first()[g - 1] == s[g as int]);
    }
}

/// Every group takes at least one round.
pub proof fn lemma_rounds_grow(s: Seq<CommitGroup>, a: nat, b: nat)
    requires
        a <= b <= s.len(),
        forall|g: int| 0 <= g < s.len() ==> (#[trigger] s[g]).log_folding > 0,
    ensures
        query::rounds_before(s, a) + (b - a) <= query::rounds_before(s, b),
    decreases b,
{
    if a < b {
        lemma_rounds_grow(s, a, (b - 1) as nat);
        assert(s[b - 1].log_folding > 0);
    }
}

/// What the rounds of an opening leave behind.
pub struct RoundsProof<F: MerkleField, EF> {
    pub polys: Vec<UniPoly<EF>>,
    pub oracles: Vec<Vec<F>>,
    pub trees: Vec<F::Tree>,
    pub final_poly: Vec<EF>,
}

impl<F: MerkleField> BaseFoldPcs<F> {
    /// The tree and its root commit to the codeword, cut into rows.
    pub open spec fn commits_to<EF: TwoAdicExtension<F>>(
        self,
        root: Seq<F>,
        tree: F::Tree,
        word: Seq<EF>,
        width: nat,
    ) -> bool {
        let matrix = seq![ext_mmcs::ext_matrix::<F, EF>(word, width)];
        &&& root == F::root(self.rounds(), matrix)
        &&& mmcs::is_digest(root)
        &&& F::tree_rounds(tree) == self.rounds()
        &&& F::tree_matrices(tree) == matrix
    }

    /// Commits to the codeword of a table, cut into rows of `2^log_folding` entries.
    pub(crate) fn commit_word<EF: TwoAdicExtension<F>>(
        &self,
        f: &Vec<EF>,
        log_folding: usize,
        Ghost(h): Ghost<nat>,
    ) -> (r: (Vec<F>, F::Tree))
        requires
            f@.len() == pow2(h),
            field::all_valid(f@),
            h + self.fri.log_blowup <= F::two_adicity(),
            h + self.fri.log_blowup < usize::BITS,
            log_folding <= h + self.fri.log_blowup,
            pow2(h + self.fri.log_blowup as nat) * EF::degree() <= usize::MAX,
        ensures
            self.commits_to(
                r.0@,
                r.1,
                encode::encoded(f@, self.fri.log_blowup as nat),
                pow2(log_folding as nat),
            ),
    {
        let ghost b = self.fri.log_blowup as nat;
        let ghost lf = log_folding as nat;
        proof {
            bits::lemma_log2_pow2(h);
            lemma_pow2_adds(h, b);
            assert(pow2(h) * EF::degree() * pow2(b) == pow2(h) * pow2(b) * EF::degree())
                by (nonlinear_arith);
        }
        let word: Vec<EF> = encode_to_codeword::<F, EF>(f, self.fri.log_blowup);
        let width: usize = bits::two_to_the(log_folding);
        let ghost height = pow2((h + b - lf) as nat);
        proof {
            assert(word@.len() == pow2(h + b));
            lemma_pow2_adds((h + b - lf) as nat, lf);
            bits::lemma_log2_pow2((h + b - lf) as nat);
            lemma_pow2_pos(lf);
            if h + b - lf < usize::BITS - 1 {
                lemma_pow2_strictly_increases((h + b - lf) as nat, (usize::BITS - 1) as nat);
            }
        }
        commit_matrix(&self.permutation, &word, width, Ghost(height))
    }
}

/// The row width of the codeword with the given number.
pub open spec fn width_at(schedule: Seq<CommitGroup>, j: nat) -> nat {
    if j < schedule.len() {
        pow2(schedule[j as int].log_folding as nat)
    } else {
        2
    }
}

/// The round before which the codeword with the given number is committed to.
pub open spec fn round_at(schedule: Seq<CommitGroup>, num_vars: nat, j: nat) -> nat {
    if j < schedule.len() {
        query::rounds_before(schedule, j)
    } else {
        num_vars
    }
}

impl<F: MerkleField, EF: TwoAdicExtension<F>> RoundsProof<F, EF> {
    /// The plan that the rounds are checked against.
    pub open spec fn plan(self, base: Plan<F, EF>) -> Plan<F, EF> {
        Plan {
            oracles: mmcs::rows_of(self.oracles@),
            final_poly: self.final_poly@,
            polys: rounds::poly_coeffs(self.polys@),
            ..base
        }
    }
}

impl<F: MerkleField> BaseFoldPcs<F> {
    /// The rounds were made as the protocol says: the roots are those of the folded codewords, the
    /// polynomials those of the folded tables, and the table that remains is the folded one.
    pub open spec fn run_made<EF: TwoAdicExtension<F>>(self, run: Run<F, EF>) -> bool {
        let p = run.plan;
        let n = p.num_vars;
        &&& p.polys.len() == n
        &&& honest::polys_proved(p, run.tables, run.point, run.transcript, n)
        &&& p.oracles.len() == roots_in_all(p.schedule, p.k)
        &&& mmcs::are_digests(p.oracles)
        &&& forall|j: int|
            0 <= j < p.oracles.len() ==> #[trigger] p.oracles[j] == self.word_root(
                run.word(round_at(p.schedule, n, j as nat)),
                width_at(p.schedule, j as nat),
            )
        &&& p.final_poly == (if p.k > 0 {
            run.at((n - p.k) as nat).f
        } else {
            Seq::empty()
        })
        &&& field::all_valid(p.final_poly)
    }

    /// The root of a codeword, cut into rows.
    pub open spec fn word_root<EF: TwoAdicExtension<F>>(self, word: Seq<EF>, width: nat) -> Seq<F> {
        F::root(self.rounds(), seq![ext_mmcs::ext_matrix::<F, EF>(word, width)])
    }

    /// The rounds were made, and the trees are those of the folded codewords.
    pub open spec fn rounds_made<EF: TwoAdicExtension<F>>(
        self,
        run: Run<F, EF>,
        trees: Seq<F::Tree>,
    ) -> bool {
        let p = run.plan;
        &&& self.run_made(run)
        &&& trees.len() == p.oracles.len()
        &&& forall|j: int|
            0 <= j < trees.len() ==> self.commits_to(
                p.oracles[j],
                #[trigger] trees[j],
                run.word(round_at(p.schedule, p.num_vars, j as nat)),
                width_at(p.schedule, j as nat),
            )
    }

    /// The rounds: the sumcheck, and the commitments to the folded codewords.
    pub(crate) fn prove_rounds<EF: TwoAdicExtension<F>>(
        &self,
        groups: &Vec<HeightGroup<EF>>,
        tables: &Vec<Vec<EF>>,
        claims: &Vec<EF>,
        point: &Vec<EF>,
        schedule: &Vec<CommitGroup>,
        k: usize,
        challenger: &mut DuplexChallenger<F>,
        Ghost(base): Ghost<Plan<F, EF>>,
    ) -> (r: RoundsProof<F, EF>)
        requires
            base.num_vars == point@.len(),
            base.k == k,
            base.schedule == schedule@,
            k <= point@.len(),
            schedule::tiles(schedule@, point@.len(), k as nat),
            field::all_valid(point@),
            groups_planned(base, groups@, tables@, claims@),
            groups@.len() > 0,
            base.groups[0].log_height == point@.len(),
            self.fri.log_blowup >= 1,
            point@.len() + self.fri.log_blowup <= F::two_adicity(),
            point@.len() + self.fri.log_blowup < usize::BITS,
            pow2(point@.len() + self.fri.log_blowup as nat) * EF::degree() <= usize::MAX,
            old(challenger)@.wf(),
        ensures
            ({
                let run = Run {
                    plan: r.plan(base),
                    tables: prover::table_views(tables@),
                    point: point@,
                    transcript: old(challenger)@,
                    log_blowup: self.fri.log_blowup as nat,
                };
                &&& self.rounds_made(run, r.trees@)
                &&& final(challenger)@ == rounds::announced(
                    run.plan,
                    run.at(point@.len()).s,
                    0,
                ).transcript
            }),
            final(challenger)@.wf(),
    {
        let n: usize = point.len();
        let ghost t = challenger@;
        let ghost lb = self.fri.log_blowup as nat;
        let ghost whole = Run {
            plan: base,
            tables: prover::table_views(tables@),
            point: point@,
            transcript: t,
            log_blowup: lb,
        };
        proof {
            assert(base.groups[0].claim == claims@[0] && claims@[0].valid());
            assert(tables@[0]@.len() == pow2(n as nat));
            bits::lemma_log2_pow2(n as nat);
            EF::law_constants();
            rounds::lemma_tiles(schedule@, n as nat, k as nat);
            assert(point@.take(n as int) =~= point@);
        }
        let table = partial_eq_table(point, n);
        proof {
            honest::lemma_one_scaled(table@);
        }
        let mut fold: Folding<EF> = Folding {
            f: MultilinearPolynomial::new(copy_elements(&tables[0])),
            e: MultilinearPolynomial::new(table),
            claim: claims[0],
            eq: EF::one(),
            group: 1,
        };
        let mut polys: Vec<UniPoly<EF>> = Vec::new();
        let mut oracles: Vec<Vec<F>> = Vec::new();
        let mut trees: Vec<F::Tree> = Vec::new();
        let mut final_poly: Vec<EF> = Vec::new();
        let ghost mut words: Seq<Seq<EF>> = Seq::empty();
        let ghost mut parts: Parts<F, EF> = Parts {
            oracles: Seq::empty(),
            polys: Seq::empty(),
            last: None,
        };
        let count: usize = schedule.len();
        if count > 0 || k == 0 {
            let log_folding: usize = if count > 0 {
                schedule[0].log_folding
            } else {
                1
            };
            proof {
                if count > 0 {
                    lemma_starts(schedule@, n as nat, k as nat, 0);
                }
                lemma2_to64();
            }
            let (root, tree) = self.commit_word(&fold.f.evals, log_folding, Ghost(n as nat));
            challenger.observe_slice(root.as_slice());
            oracles.push(root);
            trees.push(tree);
            proof {
                words = words.push(encode::encoded(fold.f.evals@, lb));
                parts = Parts { oracles: parts.oracles.push(root@), ..parts };
            }
        }
        let ghost mut now = honest::honest_start(with_parts(base, parts), whole.tables, t);
        proof {
            assert(whole.tables[0] == tables@[0]@);
            assert forall|p: Plan<F, EF>| #[trigger] agrees(p, base, parts) implies made(
                Run { plan: p, ..whole },
                0,
                now,
                words,
                parts.last,
            ) by {
                if parts.oracles.len() > 0 {
                    assert(p.oracles[0] == parts.oracles[0]);
                } else {
                    assert(count == 0);
                }
                assert(query::rounds_before(p.schedule, 0) == 0);
            }
        }
        let mut i: usize = 0;
        while i < n
            invariant
                i <= n,
                n == point@.len(),
                count == schedule@.len(),
                base.num_vars == n,
                base.k == k,
                base.schedule == schedule@,
                k <= n,
                schedule::tiles(schedule@, n as nat, k as nat),
                forall|g: int| 0 <= g < schedule@.len() ==> (#[trigger] schedule@[g]).log_folding > 0,
                field::all_valid(point@),
                groups_planned(base, groups@, tables@, claims@),
                self.fri.log_blowup >= 1,
                lb == self.fri.log_blowup,
                n + lb <= F::two_adicity(),
                n + lb < usize::BITS,
                pow2(n as nat + lb) * EF::degree() <= usize::MAX,
                whole == (Run {
                    plan: base,
                    tables: prover::table_views(tables@),
                    point: point@,
                    transcript: t,
                    log_blowup: lb,
                }),
                challenger@.wf(),
                challenger@ == now.s.transcript,
                fold.is_at(now, point@, (n - i) as nat),
                now.s.polys == i,
                polys@.len() == i,
                parts.polys == rounds::poly_coeffs(polys@),
                parts.oracles == mmcs::rows_of(oracles@),
                words.len() == oracles@.len(),
                trees@.len() == oracles@.len(),
                now.s.oracle == (if oracles@.len() == 0 {
                    1
                } else {
                    oracles@.len()
                }),
                oracles@.len() == 0 ==> count == 0,
                n > 0 ==> oracles@.len() <= count,
                n == 0 ==> oracles@.len() == 1,
                i == 0 ==> oracles@.len() <= 1,
                forall|j: nat|
                    j < oracles@.len() ==> #[trigger] query::rounds_before(schedule@, j) < i
                        || i == 0,
                forall|j: nat|
                    oracles@.len() <= j < count ==> #[trigger] query::rounds_before(schedule@, j)
                        >= i,
                forall|j: int|
                    0 <= j < trees@.len() ==> self.commits_to(
                        oracles@[j]@,
                        #[trigger] trees@[j],
                        words[j],
                        width_at(schedule@, j as nat),
                    ),
                parts.last is Some <==> k > 0 && i + k > n,
                final_poly@ == (match parts.last {
                    Some(x) => x,
                    None => Seq::empty(),
                }),
                field::all_valid(final_poly@),
                all_made(whole, parts, i as nat, now, words),
            decreases n - i,
        {
            let round: usize = n - i;
            let g: usize = oracles.len();
            let ghost old_parts = parts;
            let ghost old_words = words;
            proof {
                if n as nat + lb > round as nat + lb {
                    lemma_pow2_strictly_increases(round as nat + lb, n as nat + lb);
                }
                assert(pow2(round as nat + lb) * EF::degree() <= pow2(n as nat + lb) * EF::degree())
                    by (nonlinear_arith)
                    requires
                        pow2(round as nat + lb) <= pow2(n as nat + lb),
                ;
                if g < count {
                    lemma_starts(schedule@, n as nat, k as nat, g as nat);
                }
                lemma_due(schedule@, n as nat, k as nat, g as nat, i as nat);
                lemma_next_due(schedule@, n as nat, k as nat, g as nat, i as nat);
            }
            if g < count && schedule[g].start_log_height == round {
                let (root, tree) = self.commit_word(
                    &fold.f.evals,
                    schedule[g].log_folding,
                    Ghost(round as nat),
                );
                challenger.observe_slice(root.as_slice());
                proof {
                    words = words.push(encode::encoded(fold.f.evals@, lb));
                    parts = Parts { oracles: parts.oracles.push(root@), ..parts };
                }
                oracles.push(root);
                trees.push(tree);
                assert(parts.oracles =~= mmcs::rows_of(oracles@));
            } else if round == k {
                final_poly = copy_elements(&fold.f.evals);
                challenger.observe_ext_elements(&final_poly);
                proof {
                    parts = Parts { last: Some(final_poly@), ..parts };
                }
            }
            let ghost q = with_parts(base, parts);
            let ghost before = now;
            let poly = fold_round(
                &mut fold,
                groups,
                tables,
                claims,
                point,
                round,
                challenger,
                Ghost(q),
                Ghost(now),
            );
            proof {
                parts = Parts { polys: parts.polys.push(poly.coeffs@), ..parts };
                now = honest::honest_step(
                    with_parts(base, parts),
                    whole.tables,
                    point@,
                    now,
                    round as nat,
                );
            }
            polys.push(poly);
            proof {
                assert(parts.polys =~= rounds::poly_coeffs(polys@));
                lemma_made_step(whole, old_parts, parts, i as nat, before, old_words, words);
                assert(query::rounds_before(schedule@, 0) == 0);
            }
            i += 1;
        }
        let ghost end = now;
        proof {
            if n > 0 && oracles@.len() < count {
                lemma_starts(schedule@, n as nat, k as nat, oracles@.len());
                assert(query::rounds_before(schedule@, oracles@.len()) >= n);
            }
            if count == 0 && n > 0 {
                assert(query::rounds_before(schedule@, 0) == 0);
                assert(k == n);
            }
        }
        if k == 0 && n > 0 {
            proof {
                lemma2_to64();
                if n as nat + lb > lb {
                    lemma_pow2_strictly_increases(lb, n as nat + lb);
                }
                assert(pow2(lb) * EF::degree() <= pow2(n as nat + lb) * EF::degree())
                    by (nonlinear_arith)
                    requires
                        pow2(lb) <= pow2(n as nat + lb),
                ;
            }
            let (root, tree) = self.commit_word(&fold.f.evals, 1, Ghost(0nat));
            challenger.observe_slice(root.as_slice());
            oracles.push(root);
            trees.push(tree);
        }
        let r = RoundsProof { polys, oracles, trees, final_poly };
        proof {
            let p = r.plan(base);
            let run = Run { plan: p, ..whole };
            assert(agrees(p, base, parts)) by {
                assert(parts.oracles.is_prefix_of(p.oracles));
            }
            assert(all_made(whole, parts, n as nat, end, words));
            assert(agrees(p, whole.plan, parts));
            assert(made(run, n as nat, end, words, parts.last));
            lemma2_to64();
            assert forall|j: int| 0 <= j < r.trees@.len() implies self.commits_to(
                p.oracles[j],
                #[trigger] r.trees@[j],
                run.word(round_at(p.schedule, n as nat, j as nat)),
                width_at(p.schedule, j as nat),
            ) by {
                if j < words.len() {
                    assert(words[j] == run.word(
                        query::rounds_before(run.plan.schedule, j as nat),
                    ));
                    assert(query::rounds_before(schedule@, 0) == 0);
                }
            }
            assert forall|j: int| 0 <= j < p.oracles.len() implies #[trigger] p.oracles[j]
                == self.word_root(
                run.word(round_at(p.schedule, n as nat, j as nat)),
                width_at(p.schedule, j as nat),
            ) && mmcs::is_digest(p.oracles[j]) by {
                assert(self.commits_to(
                    p.oracles[j],
                    r.trees@[j],
                    run.word(round_at(p.schedule, n as nat, j as nat)),
                    width_at(p.schedule, j as nat),
                ));
            }
            if rounds::is_start(schedule@, 0) {
                let g = choose|g: int|
                    0 <= g < schedule@.len() && (#[trigger] schedule@[g]).start_log_height == 0;
                lemma_starts(schedule@, n as nat, k as nat, g as nat);
            }
        }
        r
    }
}

/// A root is due before a round exactly where the next group starts there.
proof fn lemma_due(s: Seq<CommitGroup>, n: nat, k: nat, g: nat, i: nat)
    requires
        schedule::tiles(s, n, k),
        k <= n,
        i < n,
        g == 0 ==> s.len() == 0,
        forall|j: nat| j < g ==> #[trigger] query::rounds_before(s, j) < i || i == 0,
        forall|j: nat| g <= j < s.len() ==> #[trigger] query::rounds_before(s, j) >= i,
    ensures
        (g < s.len() && s[g as int].start_log_height == n - i) ==> query::rounds_before(s, g) == i
            && i > 0,
        ((n - i) < n && rounds::is_start(s, (n - i) as nat)) == (g < s.len()
            && s[g as int].start_log_height == n - i),
        n - i == k ==> !rounds::is_start(s, (n - i) as nat),
{
    rounds::lemma_tiles(s, n, k);
    assert forall|j: nat| j < s.len() implies (#[trigger] s[j as int]).start_log_height
        + query::rounds_before(s, j) == n && s[j as int].start_log_height > k by {
        lemma_starts(s, n, k, j);
    }
    if g < s.len() {
        lemma_starts(s, n, k, g);
        if g > 0 {
            lemma_rounds_grow(s, 0, g);
        }
    }
    if i > 0 && rounds::is_start(s, (n - i) as nat) {
        let j = choose|j: int|
            0 <= j < s.len() && (#[trigger] s[j]).start_log_height == (n - i) as nat;
        assert(s[j as nat as int].start_log_height + query::rounds_before(s, j as nat) == n);
        assert(j >= g);
        if j > g {
            lemma_rounds_grow(s, g, j as nat);
        }
    }
    if rounds::is_start(s, (n - i) as nat) && n - i == k {
        let j = choose|j: int|
            0 <= j < s.len() && (#[trigger] s[j]).start_log_height == (n - i) as nat;
        assert(s[j as nat as int].start_log_height > k);
    }
}

/// What is left of the schedule after a round.
proof fn lemma_next_due(s: Seq<CommitGroup>, n: nat, k: nat, g: nat, i: nat)
    requires
        schedule::tiles(s, n, k),
        k <= n,
        forall|j: nat| g <= j < s.len() ==> #[trigger] query::rounds_before(s, j) >= i,
    ensures
        g < s.len() && s[g as int].start_log_height == n - i ==> forall|j: nat|
            g + 1 <= j < s.len() ==> #[trigger] query::rounds_before(s, j) >= i + 1,
        !(g < s.len() && s[g as int].start_log_height == n - i) ==> forall|j: nat|
            g <= j < s.len() ==> #[trigger] query::rounds_before(s, j) >= i + 1,
{
    rounds::lemma_tiles(s, n, k);
    if g < s.len() {
        lemma_starts(s, n, k, g);
        assert forall|j: nat| g <= j < s.len() implies #[trigger] query::rounds_before(s, j)
            >= query::rounds_before(s, g) + (j - g) by {
            lemma_rounds_grow(s, g, j);
        }
    }
}

} // verus!
