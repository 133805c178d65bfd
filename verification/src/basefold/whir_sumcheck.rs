//! The prover's side of the rounds that a scheme with values out of the domain adds to the
//! sumcheck: the value out of the domain, and the join of two sums.
use vstd::prelude::*;
use vstd::arithmetic::power2::*;
use crate::basefold::challenger::{DuplexChallenger, SpongeField};
use crate::basefold::eqpoly;
use crate::basefold::eqpoly::EqPolynomial;
use crate::basefold::linear;
use crate::basefold::math;
use crate::basefold::math::compute_dotproduct;
use crate::basefold::mlpoly;
use crate::basefold::mlpoly::MultilinearPolynomial;
use crate::basefold::openings::SumcheckInstanceProof;
use crate::basefold::sumcheck;
use crate::basefold::unipoly;
use crate::basefold::unipoly::UniPoly;
use crate::basefold::whir_rounds;
use crate::basefold::whir_rounds::successive_squares;
use crate::bits;
use crate::field;
use crate::field::algebra;
use crate::field::{ExtensionField, Field};

verus! {

/// The equality polynomial of a point out of the domain: the point's coordinates are the successive
/// squares of an element.
pub open spec fn squares_table<EF: Field>(alpha: EF, n: nat) -> Seq<EF> {
    eqpoly::eq_table(whir_rounds::squares(alpha, n))
}

/// The table between two tables, entry by entry.
pub open spec fn joined_table<EF: Field>(a: Seq<EF>, b: Seq<EF>, r: EF) -> Seq<EF> {
    Seq::new(a.len(), |i: int| mlpoly::lerp(a[i], b[i], r))
}

/// The table with a weight times another.
pub open spec fn weighted_table<EF: Field>(e: Seq<EF>, weight: EF, t: Seq<EF>) -> Seq<EF> {
    linear::combined(EF::one_elem(), e, weight, t)
}

/// The quadratic polynomial of a join: its values at zero and one are the two claims, and its value
/// at two is the sum of the tables that lie there on the lines through both.
pub open spec fn is_join_poly<EF: Field>(
    c: Seq<EF>,
    claim_0: EF,
    claim_1: EF,
    f: (Seq<EF>, Seq<EF>),
    e: (Seq<EF>, Seq<EF>),
) -> bool {
    let two = EF::from_int(2);
    &&& c.len() == 3
    &&& field::all_valid(c)
    &&& unipoly::interpolates(
        c,
        seq![
            claim_0,
            claim_1,
            math::dot(joined_table(f.0, f.1, two), joined_table(e.0, e.1, two)),
        ],
    )
}

/// The entries of the two tables in turn.
pub open spec fn interleaved<EF>(a: Seq<EF>, b: Seq<EF>) -> Seq<EF> {
    Seq::new(2 * a.len(), |i: int| if i % 2 == 0 { a[i / 2] } else { b[i / 2] })
}

proof fn lemma_interleaved<EF: Field>(a: Seq<EF>, b: Seq<EF>, r: EF)
    requires
        a.len() == b.len(),
        field::all_valid(a),
        field::all_valid(b),
    ensures
        mlpoly::bound_bottom(interleaved(a, b), r) == joined_table(a, b, r),
        field::all_valid(interleaved(a, b)),
{
    assert(mlpoly::bound_bottom(interleaved(a, b), r) =~= joined_table(a, b, r));
}

/// The ends of the lines through two tables are the tables.
proof fn lemma_joined_ends<EF: Field>(a: Seq<EF>, b: Seq<EF>)
    requires
        a.len() == b.len(),
        field::all_valid(a),
        field::all_valid(b),
    ensures
        joined_table(a, b, EF::from_int(0)) == a,
        joined_table(a, b, EF::from_int(1)) == b,
{
    assert forall|i: int| 0 <= i < a.len() implies joined_table(a, b, EF::from_int(0))[i] == a[i]
        && joined_table(a, b, EF::from_int(1))[i] == b[i] by {
        sumcheck::lemma_lerp_ends(a[i], b[i]);
    }
    assert(joined_table(a, b, EF::from_int(0)) =~= a);
    assert(joined_table(a, b, EF::from_int(1)) =~= b);
}

/// The polynomial of a join of two true claims adds up to both, and takes at every element the sum
/// of the tables that lie there on the lines through both.
pub proof fn law_join_poly<EF: Field>(
    c: Seq<EF>,
    claim_0: EF,
    claim_1: EF,
    f: (Seq<EF>, Seq<EF>),
    e: (Seq<EF>, Seq<EF>),
    r: EF,
)
    requires
        f.0.len() == f.1.len() == e.0.len() == e.1.len(),
        f.0.len() > 0,
        field::all_valid(f.0),
        field::all_valid(f.1),
        field::all_valid(e.0),
        field::all_valid(e.1),
        claim_0 == math::dot(f.0, e.0),
        claim_1 == math::dot(f.1, e.1),
        is_join_poly(c, claim_0, claim_1, f, e),
        r.valid(),
    ensures
        unipoly::poly_eval(c, EF::zero_elem()).plus(unipoly::poly_eval(c, EF::one_elem()))
            == claim_0.plus(claim_1),
        unipoly::poly_eval(c, r) == math::dot(
            joined_table(f.0, f.1, r),
            joined_table(e.0, e.1, r),
        ),
{
    broadcast use algebra::group_valid;

    EF::law_constants();
    let zero = EF::from_int(0);
    let one = EF::from_int(1);
    let two = EF::from_int(2);
    let evals = seq![
        claim_0,
        claim_1,
        math::dot(joined_table(f.0, f.1, two), joined_table(e.0, e.1, two)),
    ];
    assert(unipoly::poly_eval(c, EF::from_int(0)) == evals[0]);
    assert(unipoly::poly_eval(c, EF::from_int(1)) == evals[1]);
    let ff = interleaved(f.0, f.1);
    let ee = interleaved(e.0, e.1);
    lemma_interleaved(f.0, f.1, zero);
    lemma_interleaved(f.0, f.1, one);
    lemma_interleaved(f.0, f.1, two);
    lemma_interleaved(f.0, f.1, r);
    lemma_interleaved(e.0, e.1, zero);
    lemma_interleaved(e.0, e.1, one);
    lemma_interleaved(e.0, e.1, two);
    lemma_interleaved(e.0, e.1, r);
    lemma_joined_ends(f.0, f.1);
    lemma_joined_ends(e.0, e.1);
    linear::lemma_dot_valid(f.0, e.0);
    linear::lemma_dot_valid(f.1, e.1);
    let both = claim_0.plus(claim_1);
    sumcheck::lemma_split_dot(ff, ee, f.0.len());
    assert(ff.take(2 * f.0.len() as int) =~= ff);
    assert(ee.take(2 * f.0.len() as int) =~= ee);
    let n = f.0.len() as int;
    assert(f.0.take(n) =~= f.0 && f.1.take(n) =~= f.1);
    assert(e.0.take(n) =~= e.0 && e.1.take(n) =~= e.1);
    assert(math::dot(ff, ee) == both);
    EF::law_plus(claim_0, claim_1, claim_1);
    algebra::lemma_opposites(claim_1, claim_0);
    assert(both.minus(claim_0) == claim_1);
    assert(sumcheck::is_round_poly(c, ff, ee, both)) by {
        assert(seq![claim_0, both.minus(claim_0), evals[2]] =~= evals);
    }
    sumcheck::law_round_poly(c, ff, ee, both, r);
}

/// The table between two tables as a combination of both.
pub proof fn lemma_joined_combined<EF: Field>(a: Seq<EF>, b: Seq<EF>, r: EF)
    requires
        a.len() == b.len(),
        field::all_valid(a),
        field::all_valid(b),
        r.valid(),
    ensures
        joined_table(a, b, r) == linear::combined(EF::one_elem().minus(r), a, r, b),
        field::all_valid(joined_table(a, b, r)),
{
    broadcast use algebra::group_valid;

    let left = joined_table(a, b, r);
    let right = linear::combined(EF::one_elem().minus(r), a, r, b);
    assert forall|i: int| 0 <= i < a.len() implies left[i] == right[i] by {
        lemma_lerp_weights(a[i], b[i], r);
    }
    assert(left =~= right);
}

/// A point of a line as a weighted sum of its ends.
pub proof fn lemma_lerp_weights<EF: Field>(a: EF, b: EF, r: EF)
    requires
        a.valid(),
        b.valid(),
        r.valid(),
    ensures
        mlpoly::lerp(a, b, r) == EF::one_elem().minus(r).times(a).plus(r.times(b)),
{
    broadcast use algebra::group_valid;

    EF::law_constants();
    let one = EF::one_elem();
    let ra = r.times(a);
    let rb = r.times(b);
    algebra::lemma_products(r, b, a);
    algebra::lemma_products(a, one, r);
    algebra::lemma_products(a, a, a);
    // a + (rb - ra) == (a - ra) + rb
    algebra::lemma_regroup(a, rb, ra);
}

/// The table between two tables.
fn join_tables<EF: Field>(a: &Vec<EF>, b: &Vec<EF>, r: EF) -> (s: Vec<EF>)
    requires
        a@.len() == b@.len(),
    ensures
        s@ == joined_table(a@, b@, r),
{
    let n: usize = a.len();
    let mut s: Vec<EF> = Vec::new();
    let mut i: usize = 0;
    while i < n
        invariant
            i <= n,
            n == a@.len(),
            a@.len() == b@.len(),
            s@ == joined_table(a@, b@, r).take(i as int),
        decreases n - i,
    {
        s.push(a[i].add(r.mul(b[i].sub(a[i]))));
        i += 1;
        assert(s@ =~= joined_table(a@, b@, r).take(i as int));
    }
    assert(s@ =~= joined_table(a@, b@, r));
    s
}

/// The sum of the tables that lie at two on the lines through both.
fn sum_at_two<EF: Field>(f0: &Vec<EF>, f1: &Vec<EF>, e0: &Vec<EF>, e1: &Vec<EF>) -> (r: EF)
    requires
        f0@.len() == f1@.len() == e0@.len() == e1@.len(),
        field::all_valid(f0@),
        field::all_valid(f1@),
        field::all_valid(e0@),
        field::all_valid(e1@),
    ensures
        r == math::dot(
            joined_table(f0@, f1@, EF::from_int(2)),
            joined_table(e0@, e1@, EF::from_int(2)),
        ),
        r.valid(),
{
    let n: usize = f0.len();
    let ghost f = joined_table(f0@, f1@, EF::from_int(2));
    let ghost e = joined_table(e0@, e1@, EF::from_int(2));
    let mut sum: EF = EF::zero();
    let mut i: usize = 0;
    while i < n
        invariant
            i <= n,
            n == f0@.len(),
            f0@.len() == f1@.len() == e0@.len() == e1@.len(),
            field::all_valid(f0@),
            field::all_valid(f1@),
            field::all_valid(e0@),
            field::all_valid(e1@),
            f == joined_table(f0@, f1@, EF::from_int(2)),
            e == joined_table(e0@, e1@, EF::from_int(2)),
            sum == math::dot(f.take(i as int), e.take(i as int)),
        decreases n - i,
    {
        proof {
            sumcheck::lemma_lerp_ends(f0@[i as int], f1@[i as int]);
            sumcheck::lemma_lerp_ends(e0@[i as int], e1@[i as int]);
            assert(f.take(i + 1).drop_last() =~= f.take(i as int));
            assert(e.take(i + 1).drop_last() =~= e.take(i as int));
        }
        let f_at_2: EF = f1[i].add(f1[i]).sub(f0[i]);
        let e_at_2: EF = e1[i].add(e1[i]).sub(e0[i]);
        sum = sum.add(f_at_2.mul(e_at_2));
        i += 1;
    }
    proof {
        assert(f.take(n as int) =~= f);
        assert(e.take(n as int) =~= e);
        linear::lemma_dot_valid(f, e);
    }
    sum
}

/// The successive squares of a canonical element are canonical.
pub proof fn lemma_squares_valid<EF: Field>(alpha: EF, n: nat)
    requires
        alpha.valid(),
    ensures
        field::all_valid(whir_rounds::squares(alpha, n)),
        whir_rounds::squares(alpha, n).len() == n,
        squares_table(alpha, n).len() == pow2(n),
        field::all_valid(squares_table(alpha, n)),
    decreases n,
{
    broadcast use algebra::group_valid;

    whir_rounds::lemma_squares_len(alpha, n);
    if n > 1 {
        lemma_squares_valid(alpha, (n - 1) as nat);
    }
    let s = whir_rounds::squares(alpha, n);
    assert forall|i: int| 0 <= i < squares_table(alpha, n).len() implies (
    #[trigger] squares_table(alpha, n)[i]).valid() by {
        eqpoly::lemma_eq_at_valid(s, i as nat);
    }
}

impl<EF> SumcheckInstanceProof<EF> {
    /// One round that joins two sums of products into one: the two sums are the values at zero and
    /// one of the polynomial of the round, and both pairs of tables are replaced by those that lie
    /// at the challenge on the lines through them.
    ///
    /// Returns the polynomial, the challenge, and the tables.
    pub fn sumcheck_prove_merge_two_instances<F: SpongeField>(
        claim_0: &EF,
        claim_1: &EF,
        f_0: &MultilinearPolynomial<EF>,
        e_0: &MultilinearPolynomial<EF>,
        f_1: &MultilinearPolynomial<EF>,
        e_1: &MultilinearPolynomial<EF>,
        transcript: &mut DuplexChallenger<F>,
    ) -> (r: (UniPoly<EF>, EF, (MultilinearPolynomial<EF>, MultilinearPolynomial<EF>))) where
        EF: ExtensionField<F>,

        requires
            old(transcript)@.wf(),
            f_0.wf(),
            f_0.evals@.len() == f_1.evals@.len() == e_0.evals@.len() == e_1.evals@.len(),
            field::all_valid(f_0.evals@),
            field::all_valid(f_1.evals@),
            field::all_valid(e_0.evals@),
            field::all_valid(e_1.evals@),
            claim_0.valid(),
            claim_1.valid(),
        ensures
            is_join_poly(
                r.0.coeffs@,
                *claim_0,
                *claim_1,
                (f_0.evals@, f_1.evals@),
                (e_0.evals@, e_1.evals@),
            ),
            r.1 == old(transcript)@.observed_exts(r.0.coeffs@).next_ext::<EF>(),
            r.1.valid(),
            final(transcript)@ == old(transcript)@.observed_exts(r.0.coeffs@).sampled_ext::<EF>(),
            final(transcript)@.wf(),
            r.2.0.evals@ == joined_table(f_0.evals@, f_1.evals@, r.1),
            r.2.1.evals@ == joined_table(e_0.evals@, e_1.evals@, r.1),
            r.2.0.wf(),
            r.2.1.wf(),
            field::all_valid(r.2.0.evals@),
            field::all_valid(r.2.1.evals@),
    {
        let eval_2: EF = sum_at_two(&f_0.evals, &f_1.evals, &e_0.evals, &e_1.evals);
        let evals: Vec<EF> = vec![*claim_0, *claim_1, eval_2];
        proof {
            EF::law_constants();
            assert(evals@ =~= seq![*claim_0, *claim_1, eval_2]);
        }
        let poly: UniPoly<EF> = UniPoly::from_evals(evals.as_slice());
        transcript.observe_ext_elements(&poly.coeffs);
        let r: EF = transcript.sample_ext_element();
        let f: Vec<EF> = join_tables(&f_0.evals, &f_1.evals, r);
        let e: Vec<EF> = join_tables(&e_0.evals, &e_1.evals, r);
        proof {
            lemma_joined_combined(f_0.evals@, f_1.evals@, r);
            lemma_joined_combined(e_0.evals@, e_1.evals@, r);
        }
        (poly, r, (MultilinearPolynomial::new(f), MultilinearPolynomial::new(e)))
    }

    /// The value out of the domain: samples a point and a weight, observes the value of the first
    /// table at the point, and adds the weighted equality polynomial of the point to the second.
    ///
    /// Returns the element that the point is made of, the weight, and the value.
    pub fn sumcheck_prove_whir_round<F: SpongeField>(
        f: &MultilinearPolynomial<EF>,
        e: &mut MultilinearPolynomial<EF>,
        transcript: &mut DuplexChallenger<F>,
    ) -> (r: (EF, EF, EF)) where EF: ExtensionField<F>
        requires
            old(transcript)@.wf(),
            f.wf(),
            f.evals@.len() == old(e).evals@.len(),
            bits::log2(f.evals@.len()) < usize::BITS,
            field::all_valid(f.evals@),
            field::all_valid(old(e).evals@),
        ensures
            ({
                let t = old(transcript)@;
                let n = bits::log2(f.evals@.len());
                &&& r.0 == t.next_ext::<EF>()
                &&& r.1 == t.sampled_ext::<EF>().next_ext::<EF>()
                &&& r.2 == math::dot(f.evals@, squares_table(r.0, n))
                &&& final(e).evals@ == weighted_table(old(e).evals@, r.1, squares_table(r.0, n))
                &&& final(transcript)@ == t.sampled_ext::<EF>().sampled_ext::<EF>().observed_ext(
                    r.2,
                )
            }),
            r.0.valid(),
            r.1.valid(),
            r.2.valid(),
            field::all_valid(final(e).evals@),
            final(e).evals@.len() == old(e).evals@.len(),
            final(transcript)@.wf(),
    {
        let alpha: EF = transcript.sample_ext_element();
        let gamma: EF = transcript.sample_ext_element();
        let n: usize = f.get_num_vars();
        proof {
            lemma_squares_valid(alpha, n as nat);
        }
        let table: Vec<EF> = EqPolynomial::new(successive_squares(alpha, n)).evals();
        let y: EF = compute_dotproduct(f.evals.as_slice(), table.as_slice());
        proof {
            linear::lemma_dot_valid(f.evals@, table@);
        }
        transcript.observe_ext_element(y);
        let ghost before = e.evals@;
        let ghost after = weighted_table(before, gamma, table@);
        let count: usize = e.evals.len();
        let mut sums: Vec<EF> = Vec::new();
        let mut i: usize = 0;
        while i < count
            invariant
                i <= count,
                count == e.evals@.len(),
                count == table@.len(),
                before == e.evals@,
                field::all_valid(before),
                after == weighted_table(before, gamma, table@),
                sums@ == after.take(i as int),
            decreases count - i,
        {
            proof {
                algebra::lemma_products(before[i as int], before[i as int], before[i as int]);
            }
            sums.push(e.evals[i].add(gamma.mul(table[i])));
            i += 1;
            assert(sums@ =~= after.take(i as int));
        }
        proof {
            assert(sums@ =~= after);
            linear::lemma_combined_valid(EF::one_elem(), before, gamma, table@);
        }
        e.evals = sums;
        (alpha, gamma, y)
    }
}

} // verus!
