//! The last claim and the queries of an honest prover of the scheme with values out of the domain
//! check out.
use vstd::prelude::*;
use vstd::arithmetic::power2::*;
use crate::basefold::encode;
use crate::basefold::eqpoly;
use crate::basefold::ext_mmcs;
use crate::basefold::fold;
use crate::basefold::honest;
use crate::basefold::linear;
use crate::basefold::math;
use crate::basefold::mlpoly;
use crate::basefold::mmcs;
use crate::basefold::mmcs::MerkleField;
use crate::basefold::openings::{BaseFoldError, CommitPhaseProofStep};
use crate::basefold::query;
use crate::basefold::query::{Iopp, QueryState};
use crate::basefold::sumcheck;
use crate::basefold::whir_honest;
use crate::basefold::whir_honest::WhirRun;
use crate::basefold::whir_query;
use crate::basefold::whir_rounds;
use crate::basefold::whir_sumcheck;
use crate::bits;
use crate::field;
use crate::field::algebra;
use crate::field::{Field, TwoAdicExtension};

verus! {

/// Binding all variables respects combinations of tables.
proof fn lemma_bound_all_combined<EF: Field>(x: EF, a: Seq<EF>, y: EF, b: Seq<EF>, cs: Seq<EF>)
    requires
        a.len() == b.len() == pow2(cs.len()),
        field::all_valid(a),
        field::all_valid(b),
        field::all_valid(cs),
        x.valid(),
        y.valid(),
    ensures
        mlpoly::bound_all(linear::combined(x, a, y, b), cs) == linear::combined(
            x,
            mlpoly::bound_all(a, cs),
            y,
            mlpoly::bound_all(b, cs),
        ),
        mlpoly::bound_all(a, cs).len() == 1,
        mlpoly::bound_all(b, cs).len() == 1,
        field::all_valid(mlpoly::bound_all(a, cs)),
        field::all_valid(mlpoly::bound_all(b, cs)),
    decreases cs.len(),
{
    if cs.len() == 0 {
        lemma2_to64();
    } else {
        let r = cs[0];
        assert(r.valid());
        lemma_pow2_unfold(cs.len());
        linear::lemma_bound_combined(x, a, y, b, r);
        encode::lemma_bound_bottom_valid(a, r);
        encode::lemma_bound_bottom_valid(b, r);
        let rest = cs.drop_first();
        assert forall|i: int| 0 <= i < rest.len() implies (#[trigger] rest[i]).valid() by {
            assert(cs[i + 1].valid());
        }
        lemma_bound_all_combined(
            x,
            mlpoly::bound_bottom(a, r),
            y,
            mlpoly::bound_bottom(b, r),
            rest,
        );
    }
}

/// Binding all variables of an equality polynomial evaluates it.
proof fn lemma_bound_all_eq<EF: Field>(x: EF, p: Seq<EF>, cs: Seq<EF>)
    requires
        p.len() == cs.len(),
        field::all_valid(p),
        field::all_valid(cs),
        x.valid(),
    ensures
        mlpoly::bound_all(sumcheck::scaled(x, eqpoly::eq_table(p)), cs).len() == 1,
        mlpoly::bound_all(sumcheck::scaled(x, eqpoly::eq_table(p)), cs)[0] == x.times(
            eqpoly::eq_eval(p, cs.reverse()),
        ),
    decreases p.len(),
{
    broadcast use algebra::group_valid;

    EF::law_constants();
    if p.len() == 0 {
        lemma2_to64();
    } else {
        let r = cs[0];
        assert(r.valid());
        let last = p.last();
        assert(last.valid()) by {
            assert(p[p.len() - 1].valid());
        }
        let rest = cs.drop_first();
        let front = p.drop_last();
        assert forall|i: int| 0 <= i < rest.len() implies (#[trigger] rest[i]).valid() by {
            assert(cs[i + 1].valid());
        }
        sumcheck::law_eq_table_bound(p, x, r);
        let factor = eqpoly::eq_factor(last, r);
        lemma_bound_all_eq(x.times(factor), front, rest);
        assert(cs.reverse().last() == r);
        assert(cs.reverse().drop_last() =~= rest.reverse());
        let v = eqpoly::eq_eval(front, rest.reverse());
        eqpoly::lemma_eq_eval_valid(front, rest.reverse());
        algebra::lemma_products(x, factor, v);
        algebra::lemma_products(v, factor, factor);
    }
}

/// The challenges from round `i` on.
pub open spec fn later<F: MerkleField, EF: TwoAdicExtension<F>>(run: WhirRun<F, EF>, i: nat) -> Seq<
    EF,
> {
    run.at(run.num_vars()).s.challenges.subrange(i as int, run.num_vars() as int)
}

/// The later challenges start with that of the round.
proof fn lemma_later<F: MerkleField, EF: TwoAdicExtension<F>>(run: WhirRun<F, EF>, i: nat)
    requires
        run.sound(),
        i < run.num_vars(),
    ensures
        later(run, i).len() == run.num_vars() - i,
        later(run, i)[0] == run.bound(run.at(i), (run.num_vars() - i) as nat).s.challenges.last(),
        later(run, i).drop_first() == later(run, i + 1),
        field::all_valid(later(run, i)),
        later(run, i).reverse() == run.at(run.num_vars()).s.challenges.reverse().take(
            run.num_vars() - i,
        ),
        later(run, i + 1).reverse() == run.at(run.num_vars()).s.challenges.reverse().take(
            run.num_vars() - i - 1,
        ),
        field::all_valid(later(run, i + 1)),
{
    let n = run.num_vars();
    whir_honest::lemma_in_order(run, i);
    whir_honest::lemma_in_order(run, n);
    whir_honest::lemma_stay(run, i + 1, n);
    assert(run.round_made(i));
    assert(mmcs::is_digest(run.plan.oracles[i as int]));
    whir_honest::lemma_bound(run, run.at(i), i);
    let all = run.at(n).s.challenges;
    assert(all.take((i + 1) as int)[i as int] == all[i as int]);
    let a = later(run, i);
    let b = later(run, i + 1);
    assert(a.drop_first() =~= b);
    assert forall|j: int| 0 <= j < a.len() implies (#[trigger] a[j]).valid() by {
        assert(all[i + j].valid());
    }
    assert forall|j: int| 0 <= j < b.len() implies (#[trigger] b[j]).valid() by {
        assert(all[i + 1 + j].valid());
    }
    assert(a.reverse() =~= all.reverse().take(n - i));
    assert(b.reverse() =~= all.reverse().take(n - i - 1));
}

/// The groups that entered are those that were joined.
proof fn lemma_entered<F: MerkleField, EF: TwoAdicExtension<F>>(run: WhirRun<F, EF>, i: nat)
    requires
        run.sound(),
        i <= run.num_vars(),
    ensures
        whir_rounds::entered(run.plan.groups, run.num_vars(), i) + 1 == run.at(i).s.group,
    decreases i,
{
    if i > 0 {
        let j = (i - 1) as nat;
        lemma_entered(run, j);
        whir_honest::lemma_in_order(run, j);
        assert(run.round_made(j));
        assert(mmcs::is_digest(run.plan.oracles[j as int]));
        whir_honest::lemma_bound(run, run.at(j), j);
    }
}

/// The combined equality polynomials after `i` rounds are what is left of the weights once all
/// later variables are bound.
proof fn lemma_combined_eq<F: MerkleField, EF: TwoAdicExtension<F>>(run: WhirRun<F, EF>, i: nat)
    requires
        run.sound(),
        i <= run.num_vars(),
    ensures
        ({
            let left = mlpoly::bound_all(run.at(i).e, later(run, i));
            &&& left.len() == 1
            &&& left[0] == whir_rounds::combined_eq(
                run.point,
                run.plan.groups,
                run.at(run.num_vars()).s,
                i,
            )
        }),
    decreases i,
{
    broadcast use algebra::group_valid;

    EF::law_constants();
    let n = run.num_vars();
    let end = run.at(n).s;
    let x = end.challenges.reverse();
    let one = EF::one_elem();
    whir_honest::lemma_in_order(run, n);
    if i == 0 {
        assert(later(run, 0) =~= end.challenges);
        assert(run.point.take(n as int) =~= run.point);
        honest::lemma_eq_table_valid(run.point);
        honest::lemma_one_scaled(eqpoly::eq_table(run.point));
        lemma_bound_all_eq(one, run.point, end.challenges);
        eqpoly::lemma_eq_eval_valid(run.point, x);
        algebra::lemma_products(eqpoly::eq_eval(run.point, x), one, one);
    } else {
        let j = (i - 1) as nat;
        let h = run.at(j);
        let round = (n - j) as nat;
        lemma_combined_eq(run, j);
        whir_honest::lemma_in_order(run, j);
        assert(run.round_made(j));
        assert(mmcs::is_digest(run.plan.oracles[j as int]));
        whir_honest::lemma_asked(run, h, j);
        whir_honest::lemma_bound(run, h, j);
        whir_honest::lemma_stay(run, i, n);
        lemma_later(run, j);
        let b = run.bound(h, round);
        let w = run.asked(h, round);
        let gamma = w.gammas.last();
        let alpha = w.alphas.last();
        assert(end.gammas.take(i as int)[j as int] == end.gammas[j as int]);
        assert(end.alphas.take(i as int)[j as int] == end.alphas[j as int]);
        assert(end.gammas[j as int] == gamma && end.alphas[j as int] == alpha);
        let cs = later(run, j);
        let squares = whir_rounds::squares(alpha, round);
        let table = run.asked_table(h, round);
        whir_sumcheck::lemma_squares_valid(alpha, round);
        honest::lemma_one_scaled(table);
        lemma_bound_all_eq(one, squares, cs);
        eqpoly::lemma_eq_eval_valid(squares, cs.reverse());
        let eq = eqpoly::eq_eval(squares, cs.reverse());
        algebra::lemma_products(eq, one, one);
        lemma_bound_all_combined(one, h.e, gamma, table, cs);
        let before = mlpoly::bound_all(h.e, cs)[0];
        assert(before.valid());
        algebra::lemma_products(before, one, one);
        let with_point = mlpoly::bound_all(run.weights(h, round), cs)[0];
        assert(with_point == before.plus(gamma.times(eq)));
        assert(mlpoly::bound_all(run.weights(h, round), cs) == mlpoly::bound_all(
            b.e,
            later(run, i),
        ));
        lemma_entered(run, j);
        lemma_entered(run, i);
        if run.enters(h, round) {
            let low = (round - 1) as nat;
            let branch = run.eq_table(low);
            let r = run.at(i).s.merging.last();
            whir_honest::lemma_in_order(run, i);
            let k = h.s.merging.len() as int;
            assert(run.at(i).s.merging[k] == r);
            assert(r.valid()) by {
                assert(run.at(i).s.merging[k].valid());
            }
            assert(end.merging.take(k + 1)[k] == end.merging[k]);
            let front = run.point.take(low as int);
            assert forall|m: int| 0 <= m < front.len() implies (#[trigger] front[m]).valid() by {
                assert(run.point[m].valid());
            }
            honest::lemma_eq_table_valid(front);
            honest::lemma_one_scaled(branch);
            let rest = later(run, i);
            lemma_bound_all_eq(one, front, rest);
            let v = eqpoly::eq_eval(front, rest.reverse());
            eqpoly::lemma_eq_eval_valid(front, rest.reverse());
            algebra::lemma_products(v, one, one);
            whir_sumcheck::lemma_joined_combined(b.e, branch, r);
            lemma_bound_all_combined(one.minus(r), b.e, r, branch, rest);
            whir_sumcheck::lemma_lerp_weights(with_point, v, r);
        }
    }
}

/// After all rounds one entry of the folded table is left, and the claim is this entry times the
/// value of the combined equality polynomials.
pub proof fn law_last_whir_claim<F: MerkleField, EF: TwoAdicExtension<F>>(run: WhirRun<F, EF>)
    requires
        run.sound(),
    ensures
        ({
            let h = run.at(run.num_vars());
            let eq_sum = whir_rounds::combined_eq(
                run.point,
                run.plan.groups,
                h.s,
                run.num_vars(),
            );
            &&& h.f.len() == 1
            &&& h.f[0].valid()
            &&& eq_sum.valid()
            &&& h.s.claim == h.f[0].times(eq_sum)
            &&& field::is_unit(eq_sum) ==> field::quotient(h.s.claim, eq_sum) == h.f[0]
        }),
{
    broadcast use algebra::group_valid;

    let n = run.num_vars();
    let h = run.at(n);
    whir_honest::lemma_in_order(run, n);
    lemma_combined_eq(run, n);
    lemma2_to64();
    assert(later(run, n).len() == 0);
    let v = h.f[0];
    let eq_sum = h.e[0];
    assert(v.valid() && eq_sum.valid());
    assert(h.f.drop_last().len() == 0);
    assert(math::dot(h.f.drop_last(), h.e.drop_last()) == EF::zero_elem());
    EF::law_constants();
    algebra::lemma_opposites(v.times(eq_sum), v);
    if field::is_unit(eq_sum) {
        algebra::lemma_unit(eq_sum);
        EF::law_times(v, eq_sum, field::inverse(eq_sum));
    }
}

impl<F: MerkleField, EF: TwoAdicExtension<F>> WhirRun<F, EF> {
    /// A sound run in which every table has a variable.
    pub open spec fn wf(self) -> bool {
        &&& self.sound()
        &&& self.plan.groups.last().log_height >= 1
    }

    /// What the queries are checked against belongs to the run.
    pub open spec fn checked_by(self, c: Iopp<F, EF>) -> bool {
        let last = self.at(self.num_vars());
        &&& c.log_blowup == self.log_blowup
        &&& c.oracles == self.plan.oracles
        &&& c.challenges == last.s.challenges
        &&& c.betas == last.s.merging
        &&& c.expected == last.f[0]
    }

    /// The linear combinations of the opened rows are entries of the codewords of the tables.
    pub open spec fn has_sums(self, sums: Seq<(usize, EF)>, query: nat) -> bool {
        &&& sums.len() == self.plan.groups.len()
        &&& forall|g: int|
            0 <= g < sums.len() ==> (#[trigger] sums[g]).0 == self.plan.groups[g].log_height
                + self.log_blowup && sums[g].1 == encode::encoded(
                self.tables[g],
                self.log_blowup,
            )[(query / pow2((self.num_vars() - self.plan.groups[g].log_height) as nat)) as int]
    }

    /// The state of a query before the join at the start of round `i`.
    pub open spec fn before_join(self, s: QueryState<EF>, query: nat, i: nat) -> bool {
        &&& s.query as nat == query / pow2(i)
        &&& if i == 0 {
            s == query::started::<EF>(query as usize)
        } else {
            let h = self.at((i - 1) as nat);
            let b = self.bound(h, (self.num_vars() - (i - 1)) as nat);
            &&& s.folded == encode::encoded(b.f, self.log_blowup)[(query / pow2(i)) as int]
            &&& s.merges == h.s.group
        }
    }

    /// The state of a query after the join at the start of round `i`.
    pub open spec fn after_join(self, s: QueryState<EF>, query: nat, i: nat) -> bool {
        &&& s.query as nat == query / pow2(i)
        &&& s.folded == self.word(i)[(query / pow2(i)) as int]
        &&& s.merges == self.at(i).s.group
    }
}

/// The heights of the groups descend, so that there are no more groups than heights.
proof fn lemma_group_number<F: MerkleField, EF: TwoAdicExtension<F>>(run: WhirRun<F, EF>, g: nat)
    requires
        run.sound(),
        g < run.plan.groups.len(),
    ensures
        run.plan.groups[g as int].log_height + g <= run.num_vars(),
    decreases g,
{
    if g > 0 {
        lemma_group_number(run, (g - 1) as nat);
        assert(run.plan.groups[g - 1].log_height > run.plan.groups[g as int].log_height);
    }
}

/// The join at the start of a round.
#[verifier::spinoff_prover]
#[verifier::rlimit(40)]
proof fn lemma_join<F: MerkleField, EF: TwoAdicExtension<F>>(
    run: WhirRun<F, EF>,
    c: Iopp<F, EF>,
    sums: Seq<(usize, EF)>,
    s: QueryState<EF>,
    query: nat,
    i: nat,
)
    requires
        run.wf(),
        run.checked_by(c),
        run.has_sums(sums, query),
        query < pow2(run.num_vars() + run.log_blowup),
        query <= usize::MAX,
        i < run.num_vars(),
        run.before_join(s, query, i),
    ensures
        run.after_join(whir_query::joined(s, sums, c.betas, c.log_len(i)), query, i),
{
    broadcast use algebra::group_valid;

    EF::law_constants();
    EF::law_generators(0);
    let n = run.num_vars();
    let lb = run.log_blowup;
    let one = EF::one_elem();
    whir_honest::lemma_in_order(run, i);
    whir_honest::lemma_in_order(run, n);
    assert(pow2(0) == 1) by {
        lemma2_to64();
    }
    query::lemma_shifted(query, n + lb, i);
    if i == 0 {
        assert(sums[0].0 == run.plan.groups[0].log_height + lb);
        assert(query / pow2(0) == query) by {
            vstd::arithmetic::div_mod::lemma_div_basics(query as int);
        }
        let sum = sums[0].1;
        bits::lemma_log2_pow2(n);
        lemma_pow2_pos(n);
        encode::lemma_encoded_valid(run.tables[0], lb, query as int);
        assert(sum.valid());
        algebra::lemma_opposites(sum, sum);
        algebra::lemma_products(sum, one, one);
    } else {
        let k = (i - 1) as nat;
        let h = run.at(k);
        let round = (n - k) as nat;
        whir_honest::lemma_in_order(run, k);
        assert(run.round_made(k));
        assert(mmcs::is_digest(run.plan.oracles[k as int]));
        whir_honest::lemma_bound(run, h, k);
        let b = run.bound(h, round);
        let g = h.s.group;
        if g < sums.len() {
            assert(sums[g as int].0 == run.plan.groups[g as int].log_height + lb);
        }
        if run.enters(h, round) {
            lemma_group_number(run, g);
            let r = run.at(i).s.merging.last();
            let m = h.s.merging.len() as int;
            assert(run.at(i).s.merging[m] == r);
            assert(r.valid()) by {
                assert(run.at(i).s.merging[m].valid());
            }
            whir_honest::lemma_stay(run, i, n);
            assert(c.betas.take(m + 1)[m] == c.betas[m]);
            let table = run.tables[g as int];
            assert(table.len() == pow2(run.plan.groups[g as int].log_height));
            bits::lemma_log2_pow2((n - i) as nat);
            lemma_pow2_pos((n - i) as nat);
            whir_sumcheck::lemma_joined_combined(b.f, table, r);
            linear::law_encoding_is_linear(one.minus(r), b.f, r, table, lb);
            let at = (query / pow2(i)) as int;
            encode::lemma_encoded_valid(b.f, lb, at);
            encode::lemma_encoded_valid(table, lb, at);
            whir_sumcheck::lemma_lerp_weights(
                encode::encoded(b.f, lb)[at],
                encode::encoded(table, lb)[at],
                r,
            );
        }
    }
}

/// The fold of a pair of a codeword.
proof fn lemma_fold<F: MerkleField, EF: TwoAdicExtension<F>>(
    run: WhirRun<F, EF>,
    c: Iopp<F, EF>,
    s: QueryState<EF>,
    row: Seq<EF>,
    query: nat,
    i: nat,
)
    requires
        run.wf(),
        run.checked_by(c),
        query < pow2(run.num_vars() + run.log_blowup),
        i < run.num_vars(),
        run.after_join(s, query, i),
        ({
            let j = (query / pow2(i)) as int / 2;
            row == seq![run.word(i)[2 * j], run.word(i)[2 * j + 1]]
        }),
    ensures
        run.before_join(
            whir_query::folded_pair(s, row, c.log_len(i), c.challenges[i as int]),
            query,
            i + 1,
        ),
{
    let n = run.num_vars();
    let lb = run.log_blowup;
    whir_honest::lemma_in_order(run, i);
    whir_honest::lemma_in_order(run, n);
    lemma_later(run, i);
    EF::law_generators(0);
    let r = c.challenges[i as int];
    assert(r == later(run, i)[0]);
    assert(r.valid());
    let h = run.at(i);
    lemma_pow2_unfold((n - i) as nat);
    lemma_pow2_pos((n - i - 1) as nat);
    bits::lemma_log2_pow2((n - i) as nat);
    encode::law_fold_encodes_binding(h.f, lb, r);
    lemma_pow2_unfold(i + 1);
    lemma_pow2_pos(i);
    vstd::arithmetic::div_mod::lemma_div_denominator(query as int, pow2(i) as int, 2);
    query::lemma_shifted(query, n + lb, i);
    query::lemma_shifted(query, n + lb, i + 1);
    lemma_pow2_unfold((n + lb - i) as nat);
    bits::lemma_log2_pow2((n + lb - i) as nat);
    let word = run.word(i);
    let j = query / pow2(i + 1);
    assert(fold::folded(word, r)[j as int] == fold::line_at(
        word[2 * j as int],
        word[2 * j as int + 1],
        fold::point(bits::log2(word.len()), j),
        r,
    ));
}

/// The opening of one round of a query holds the other entry of the pair and an accepted opening of
/// the pair.
pub open spec fn pair_opened<F: MerkleField, EF: TwoAdicExtension<F>>(
    run: WhirRun<F, EF>,
    c: Iopp<F, EF>,
    openings: Seq<CommitPhaseProofStep<F, EF>>,
    query: nat,
    i: nat,
) -> bool {
    let at = query / pow2(i);
    let j = at as int / 2;
    let word = run.word(i);
    &&& openings[i as int].sibling_value == (if at % 2 == 0 {
        word[2 * j + 1]
    } else {
        word[2 * j]
    })
    &&& ext_mmcs::accepts_row::<F, EF>(
        c.rounds,
        c.oracles[i as int],
        pow2((c.log_len(i) - 1) as nat),
        j as nat,
        seq![word[2 * j], word[2 * j + 1]],
        mmcs::rows_of(openings[i as int].opening_proof@),
    )
}

/// The rounds of a query check out.
proof fn lemma_query_rounds<F: MerkleField, EF: TwoAdicExtension<F>>(
    run: WhirRun<F, EF>,
    c: Iopp<F, EF>,
    sums: Seq<(usize, EF)>,
    openings: Seq<CommitPhaseProofStep<F, EF>>,
    s: QueryState<EF>,
    query: nat,
    i: nat,
)
    requires
        run.wf(),
        run.checked_by(c),
        run.has_sums(sums, query),
        query < pow2(run.num_vars() + run.log_blowup),
        query <= usize::MAX,
        i <= run.num_vars(),
        openings.len() >= run.num_vars(),
        run.before_join(s, query, i),
        forall|j: nat|
            j < run.num_vars() ==> #[trigger] pair_opened(run, c, openings, query, j),
    ensures
        whir_query::query_rounds(c, sums, openings, s, i) is Ok,
        run.before_join(
            whir_query::query_rounds(c, sums, openings, s, i)->Ok_0,
            query,
            run.num_vars(),
        ),
    decreases run.num_vars() - i,
{
    let n = run.num_vars();
    whir_honest::lemma_in_order(run, n);
    assert(query::committed(c, openings.len()) == n);
    if i < n {
        let m = whir_query::joined(s, sums, c.betas, c.log_len(i));
        lemma_join(run, c, sums, s, query, i);
        assert(pair_opened(run, c, openings, query, i));
        let at = query / pow2(i);
        let j = at as int / 2;
        let word = run.word(i);
        let row = query::pair_row(m, openings[i as int].sibling_value);
        assert(row =~= seq![word[2 * j], word[2 * j + 1]]);
        lemma_fold(run, c, m, row, query, i);
        lemma_query_rounds(
            run,
            c,
            sums,
            openings,
            whir_query::folded_pair(m, row, c.log_len(i), c.challenges[i as int]),
            query,
            i + 1,
        );
    }
}

/// A query of an honest prover is accepted.
pub proof fn law_whir_query_accepted<F: MerkleField, EF: TwoAdicExtension<F>>(
    run: WhirRun<F, EF>,
    c: Iopp<F, EF>,
    sums: Seq<(usize, EF)>,
    openings: Seq<CommitPhaseProofStep<F, EF>>,
    query: usize,
)
    requires
        run.wf(),
        run.checked_by(c),
        run.has_sums(sums, query as nat),
        query < pow2(run.num_vars() + run.log_blowup),
        openings.len() >= run.num_vars(),
        forall|j: nat|
            j < run.num_vars() ==> #[trigger] pair_opened(run, c, openings, query as nat, j),
    ensures
        whir_query::query_verdict(c, sums, openings, query) == Ok::<(), BaseFoldError>(()),
{
    let n = run.num_vars();
    let lb = run.log_blowup;
    let groups = run.plan.groups;
    assert(pow2(0) == 1) by {
        lemma2_to64();
    }
    let s = query::started::<EF>(query);
    assert(query as nat / pow2(0) == query as nat) by {
        vstd::arithmetic::div_mod::lemma_div_basics(query as int);
    }
    if groups.len() > 1 {
        assert(groups[0].log_height > groups[groups.len() - 1].log_height);
    }
    assert(n > 0);
    lemma_query_rounds(run, c, sums, openings, s, query as nat, 0);
    let end = whir_query::query_rounds(c, sums, openings, s, 0)->Ok_0;
    let k = (n - 1) as nat;
    let h = run.at(k);
    whir_honest::lemma_in_order(run, k);
    whir_honest::lemma_in_order(run, n);
    assert(run.round_made(k));
    assert(mmcs::is_digest(run.plan.oracles[k as int]));
    whir_honest::lemma_bound(run, h, k);
    if run.enters(h, 1) {
        let g = h.s.group as int;
        if g < groups.len() - 1 {
            assert(groups[g].log_height > groups[groups.len() - 1].log_height);
        }
        assert(false);
    }
    let f = run.at(n).f;
    assert(f =~= linear::constant(f[0], 1));
    assert(f[0].valid());
    bits::lemma_log2_pow2(0);
    EF::law_generators(0);
    linear::law_constant_encoding(f[0], 1, lb);
    query::lemma_shifted(query as nat, n + lb, n);
}

} // verus!
