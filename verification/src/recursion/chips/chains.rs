//! How the rows of one instruction hand their values on, and what the rows of a permutation say.
use vstd::prelude::*;
use crate::basefold::poseidon::Rounds;
use crate::field;
use crate::field::algebra;
use crate::field::Field;
use crate::recursion::builder;
use crate::recursion::chips::ext_exp_reverse_bits;
use crate::recursion::chips::mem::MemoryAccessCols;
use crate::recursion::chips::poseidon2_skinny;
use crate::recursion::chips::poseidon2_skinny::{Poseidon2, Poseidon2PreprocessedCols};
use crate::recursion::chips::poseidon2_skinny_kb;
use crate::recursion::chips::poseidon2_skinny_kb::{Poseidon2KbCols, Poseidon2KbPreprocessedCols};
use crate::recursion::chips::prefix_sum_checks;
use crate::recursion::chips::sumcheck_round;
use crate::recursion::types::Address;

verus! {

/// Reads a place once, which is to write it minus one times.
pub open spec fn reads_once<F: Field>(a: MemoryAccessCols<F>, place: Address<F>) -> bool {
    a.addr == place && a.mult.plus(F::one_elem()) == F::zero_elem()
}

/// Reads a place once where a condition holds, and else does not.
pub open spec fn reads_if<F: Field>(a: MemoryAccessCols<F>, place: Address<F>, b: bool) -> bool {
    if b {
        reads_once(a, place)
    } else {
        a.mult == F::zero_elem()
    }
}

/// Writes a place where a condition holds, and else does not.
pub open spec fn writes_if<F: Field>(
    a: MemoryAccessCols<F>,
    place: Address<F>,
    mult: F,
    b: bool,
) -> bool {
    if b {
        a.addr == place && a.mult == mult
    } else {
        a.mult == F::zero_elem()
    }
}

/// What the one access hands out the other takes in, once.
pub open spec fn handed_on<F: Field>(out: MemoryAccessCols<F>, taken: MemoryAccessCols<F>) -> bool {
    out.addr == taken.addr && out.mult == F::one_elem() && taken.mult.plus(out.mult)
        == F::zero_elem()
}

proof fn lemma_minus_one<F: Field>(mult: F)
    requires
        mult.valid(),
    ensures
        F::one_elem().opposite().plus(F::one_elem()) == F::zero_elem(),
        F::zero_elem().opposite() == F::zero_elem(),
        mult.times(F::one_elem()) == mult,
        mult.times(F::zero_elem()) == F::zero_elem(),
{
    broadcast use algebra::group_valid;

    let one = F::one_elem();
    F::law_plus(one, one.opposite(), one);
    algebra::lemma_opposites(one, one);
    algebra::lemma_products(mult, mult, mult);
}

/// Law: the rows of a sumcheck round read each coefficient once, the challenge and the claim once in
/// all, and write the new claim in the last row; each row takes in what the row before handed out, the
/// first takes in nothing and the last hands out nothing.
pub proof fn law_sumcheck_places<F: Field>(
    coeffs: Seq<Address<F>>,
    challenge: Address<F>,
    claim: Address<F>,
    new_claim: Address<F>,
    mult: F,
    chain_rs: Seq<Address<F>>,
    chain_ha: Seq<Address<F>>,
    i: int,
)
    requires
        0 <= i < coeffs.len(),
        mult.valid(),
    ensures
        ({
            let n = coeffs.len() as int;
            let at = |k: int|
                sumcheck_round::places_of(
                    coeffs,
                    challenge,
                    claim,
                    new_claim,
                    mult,
                    chain_rs,
                    chain_ha,
                    k,
                );
            let p = at(i);
            &&& p.is_real == F::one_elem()
            &&& p.iteration_num == F::from_int(i)
            &&& p.is_first == F::one_elem() <==> i == 0
            &&& p.is_last == F::one_elem() <==> i == n - 1
            &&& p.is_claim_check == p.is_last
            &&& i != 0 ==> p.is_first == F::zero_elem()
            &&& i != n - 1 ==> p.is_last == F::zero_elem()
            &&& reads_once(p.coeff_mem, coeffs[i])
            &&& reads_if(p.challenge_mem, challenge, i == 0)
            &&& reads_if(p.claim_mem, claim, i == 0)
            &&& writes_if(p.out_mem, new_claim, mult, i == n - 1)
            &&& i > 0 ==> handed_on(at(i - 1).chain_rs_out, p.chain_rs_in)
            &&& i > 0 ==> handed_on(at(i - 1).chain_ha_out, p.chain_ha_in)
            &&& i > 0 ==> p.chain_rs_in.addr == chain_rs[i - 1] && p.chain_ha_in.addr == chain_ha[i
                - 1]
            &&& i == 0 ==> p.chain_rs_in.mult == F::zero_elem() && p.chain_ha_in.mult
                == F::zero_elem()
            &&& i == n - 1 ==> p.chain_rs_out.mult == F::zero_elem() && p.chain_ha_out.mult
                == F::zero_elem()
        }),
{
    F::law_constants();
    lemma_minus_one(mult);
}

/// Law: the rows of a product of equalities read each pair once, the initial accumulator once in all,
/// and write the result in the last row; each row takes in what the row before handed out.
pub proof fn law_prefix_places<F: Field>(
    x1: Seq<Address<F>>,
    x2: Seq<Address<F>>,
    init: Address<F>,
    result: Address<F>,
    mult: F,
    chain: Seq<Address<F>>,
    i: int,
)
    requires
        0 <= i < x1.len(),
        mult.valid(),
    ensures
        ({
            let n = x1.len() as int;
            let at = |k: int|
                prefix_sum_checks::places_of(x1, x2, init, result, mult, chain, k);
            let p = at(i);
            &&& p.is_real == F::one_elem()
            &&& p.iteration_num == F::from_int(i)
            &&& p.is_first == F::one_elem() <==> i == 0
            &&& p.is_last == F::one_elem() <==> i == n - 1
            &&& i != 0 ==> p.is_first == F::zero_elem()
            &&& i != n - 1 ==> p.is_last == F::zero_elem()
            &&& reads_once(p.x1_mem, x1[i])
            &&& reads_once(p.x2_mem, x2[i])
            &&& reads_if(p.acc_mem, init, i == 0)
            &&& writes_if(p.out_mem, result, mult, i == n - 1)
            &&& i > 0 ==> handed_on(at(i - 1).chain_acc_out, p.chain_acc_in)
            &&& i > 0 ==> p.chain_acc_in.addr == chain[i - 1]
            &&& i == 0 ==> p.chain_acc_in.mult == F::zero_elem()
            &&& i == n - 1 ==> p.chain_acc_out.mult == F::zero_elem()
        }),
{
    F::law_constants();
    lemma_minus_one(mult);
}

/// Law: the rows of an exponentiation read each bit once, the base once in all, and write the result in
/// the last row; each row takes in what the row before handed out.
pub proof fn law_exp_places<F: Field>(
    base: Address<F>,
    exp: Seq<Address<F>>,
    result: Address<F>,
    mult: F,
    chain: Seq<Address<F>>,
    i: int,
)
    requires
        0 <= i < exp.len(),
        mult.valid(),
    ensures
        ({
            let n = exp.len() as int;
            let at = |k: int|
                ext_exp_reverse_bits::places_of(base, exp, result, mult, chain, k);
            let p = at(i);
            &&& p.is_real == F::one_elem()
            &&& p.iteration_num == F::from_int(i)
            &&& p.is_first == F::one_elem() <==> i == 0
            &&& p.is_last == F::one_elem() <==> i == n - 1
            &&& i != 0 ==> p.is_first == F::zero_elem()
            &&& i != n - 1 ==> p.is_last == F::zero_elem()
            &&& reads_once(p.exponent_mem, exp[i])
            &&& reads_if(p.x_mem, base, i == 0)
            &&& writes_if(p.result_mem, result, mult, i == n - 1)
            &&& i > 0 ==> handed_on(at(i - 1).chain_accum_out, p.chain_accum_in)
            &&& i > 0 ==> p.chain_accum_in.addr == chain[i - 1]
            &&& i == 0 ==> p.chain_accum_in.mult == F::zero_elem()
            &&& i == n - 1 ==> p.chain_accum_out.mult == F::zero_elem()
        }),
{
    F::law_constants();
    lemma_minus_one(mult);
}

proof fn lemma_swap<F: Field>(a: F, b: F, c: F, d: F)
    requires
        a.valid(),
        b.valid(),
        c.valid(),
        d.valid(),
    ensures
        a.plus(b).plus(c.plus(d)) == a.plus(c).plus(b.plus(d)),
{
    broadcast use algebra::group_valid;

    F::law_plus(a, b, c.plus(d));
    F::law_plus(b, c, d);
    F::law_plus(c, b, d);
    F::law_plus(a, c, b.plus(d));
}

/// Law: the mixing of four entries adds up over sums, and is the matrix with the rows `2 3 1 1`,
/// `1 2 3 1`, `1 1 2 3` and `3 1 1 2`.
pub proof fn law_mixed_four<F: Field>(
    x: F,
    a0: F,
    a1: F,
    a2: F,
    a3: F,
    b0: F,
    b1: F,
    b2: F,
    b3: F,
)
    requires
        x.valid(),
        a0.valid() && a1.valid() && a2.valid() && a3.valid(),
        b0.valid() && b1.valid() && b2.valid() && b3.valid(),
    ensures
        ({
            let z = F::zero_elem();
            let two = x.plus(x);
            let three = x.plus(x).plus(x);
            let a = poseidon2_skinny_kb::m4(a0, a1, a2, a3);
            let b = poseidon2_skinny_kb::m4(b0, b1, b2, b3);
            let s = poseidon2_skinny_kb::m4(a0.plus(b0), a1.plus(b1), a2.plus(b2), a3.plus(b3));
            &&& poseidon2_skinny_kb::m4(x, z, z, z) == seq![two, x, x, three]
            &&& poseidon2_skinny_kb::m4(z, x, z, z) == seq![three, two, x, x]
            &&& poseidon2_skinny_kb::m4(z, z, x, z) == seq![x, three, two, x]
            &&& poseidon2_skinny_kb::m4(z, z, z, x) == seq![x, x, three, two]
            &&& s == seq![a[0].plus(b[0]), a[1].plus(b[1]), a[2].plus(b[2]), a[3].plus(b[3])]
        }),
{
    broadcast use algebra::group_valid;

    let z = F::zero_elem();
    F::law_constants();
    let two = x.plus(x);
    let three = two.plus(x);
    F::law_plus(x, x, x);
    F::law_plus(x, z, z);
    F::law_plus(two, z, z);
    F::law_plus(three, z, z);
    F::law_plus(z, z, z);
    algebra::lemma_opposites(x, x);
    algebra::lemma_opposites(two, x);
    assert(x.plus(two) == three);
    assert(poseidon2_skinny_kb::m4(x, z, z, z) =~= seq![two, x, x, three]);
    assert(poseidon2_skinny_kb::m4(z, x, z, z) =~= seq![three, two, x, x]);
    assert(poseidon2_skinny_kb::m4(z, z, x, z) =~= seq![x, three, two, x]);
    assert(poseidon2_skinny_kb::m4(z, z, z, x) =~= seq![x, x, three, two]);
    lemma_swap(a0, b0, a1, b1);
    lemma_swap(a2, b2, a3, b3);
    lemma_swap(a0.plus(a1), b0.plus(b1), a2.plus(a3), b2.plus(b3));
    let ta = a0.plus(a1).plus(a2.plus(a3));
    let tb = b0.plus(b1).plus(b2.plus(b3));
    lemma_swap(ta, tb, a1, b1);
    lemma_swap(ta, tb, a3, b3);
    lemma_swap(ta.plus(a1), tb.plus(b1), a0.plus(a1), b0.plus(b1));
    lemma_swap(a2, b2, a2, b2);
    lemma_swap(ta.plus(a1), tb.plus(b1), a2.plus(a2), b2.plus(b2));
    lemma_swap(ta.plus(a3), tb.plus(b3), a2.plus(a3), b2.plus(b3));
    lemma_swap(a0, b0, a0, b0);
    lemma_swap(ta.plus(a3), tb.plus(b3), a0.plus(a0), b0.plus(b0));
    let a = poseidon2_skinny_kb::m4(a0, a1, a2, a3);
    let b = poseidon2_skinny_kb::m4(b0, b1, b2, b3);
    assert(poseidon2_skinny_kb::m4(a0.plus(b0), a1.plus(b1), a2.plus(b2), a3.plus(b3)) =~= seq![
        a[0].plus(b[0]),
        a[1].plus(b[1]),
        a[2].plus(b[2]),
        a[3].plus(b[3]),
    ]);
}

/// Law: in the outer linear layer each group of four is mixed, and to every entry the entries at its
/// place in all four groups are added.
pub proof fn law_outer_layer<F: Field>(s: Seq<F>, g: int, k: int)
    requires
        s.len() == 16,
        0 <= g < 4,
        0 <= k < 4,
    ensures
        ({
            let mixed = |h: int|
                poseidon2_skinny_kb::m4(s[4 * h], s[4 * h + 1], s[4 * h + 2], s[4 * h + 3])[k];
            let r = poseidon2_skinny_kb::external_linear(s);
            &&& r.len() == 16
            &&& r[4 * g + k] == mixed(g).plus(
                mixed(0).plus(mixed(1)).plus(mixed(2)).plus(mixed(3)),
            )
        }),
{
    broadcast use algebra::group_valid;

    let m = poseidon2_skinny_kb::groups_mixed(s);
    let mixed = |h: int|
        poseidon2_skinny_kb::m4(s[4 * h], s[4 * h + 1], s[4 * h + 2], s[4 * h + 3])[k];
    assert(m[k] == mixed(0));
    assert(m[k + 4] == mixed(1));
    assert(m[k + 8] == mixed(2));
    assert(m[k + 12] == mixed(3));
    assert((4 * g + k) % 4 == k);
    assert(m[4 * g + k] == mixed(g));
    assert(mixed(0).valid());
    algebra::lemma_opposites(mixed(0), mixed(0));
}

/// Law: in the inner linear layer, the sum of all entries is added to each entry times its place on the
/// diagonal, and the whole is scaled.
pub proof fn law_inner_layer<F: Field>(s: Seq<F>, diagonal: Seq<F>, factor: F, i: int)
    requires
        s.len() == 16,
        field::all_valid(s),
        diagonal.len() == 16,
        field::all_valid(diagonal),
        0 <= i < 16,
    ensures
        ({
            let r = poseidon2_skinny_kb::internal_linear(s, diagonal, factor);
            let all = s[0].plus(s[1]).plus(s[2]).plus(s[3]).plus(s[4]).plus(s[5]).plus(s[6]).plus(
                s[7],
            ).plus(s[8]).plus(s[9]).plus(s[10]).plus(s[11]).plus(s[12]).plus(s[13]).plus(
                s[14],
            ).plus(s[15]);
            &&& r.len() == 16
            &&& r[i] == diagonal[i].times(s[i]).plus(all).times(factor)
        }),
{
    broadcast use algebra::group_valid;

    reveal_with_fuel(poseidon2_skinny_kb::sum_upto, 17);
    algebra::lemma_opposites(s[0], s[0]);
    algebra::lemma_products(s[i], diagonal[i], s[i]);
}

proof fn lemma_all_equal<F: Field>(c: F, x: Seq<F>, y: Seq<F>)
    requires
        c == F::one_elem(),
        x.len() == 16,
        y.len() == 16,
        field::all_valid(x),
        field::all_valid(y),
        forall|i: int|
            0 <= i < 16 ==> #[trigger] poseidon2_skinny_kb::all_equal_when(c, x, y)[i]
                == F::zero_elem(),
    ensures
        x == y,
{
    broadcast use algebra::group_valid;

    assert forall|i: int| 0 <= i < 16 implies x[i] == y[i] by {
        assert(poseidon2_skinny_kb::all_equal_when(c, x, y)[i] == F::zero_elem());
        let d = x[i].minus(y[i]);
        algebra::lemma_products(d, d, d);
        algebra::lemma_opposites(x[i], y[i]);
        algebra::lemma_opposites(y[i], y[i]);
    }
    assert(x =~= y);
}

proof fn lemma_outer_valid<F: Field>(s: Seq<F>)
    requires
        s.len() == 16,
    ensures
        poseidon2_skinny_kb::external_linear(s).len() == 16,
        field::all_valid(poseidon2_skinny_kb::external_linear(s)),
{
    broadcast use algebra::group_valid;

}

/// The state with the constants added and every entry raised to the power that `power` gives.
pub open spec fn boxed<F: Field>(s: Seq<F>, rc: Seq<F>, n: nat) -> Seq<F> {
    Seq::new(16, |i: int| field::power(s[i].plus(rc[i]), n))
}

/// The state with the constant added to its first entry and that entry raised.
pub open spec fn first_boxed<F: Field>(s: Seq<F>, rc: F, n: nat) -> Seq<F> {
    s.update(0, field::power(s[0].plus(rc), n))
}

proof fn lemma_powers<F: Field>(x: F)
    requires
        x.valid(),
    ensures
        poseidon2_skinny_kb::cube(x) == field::power(x, 3),
        poseidon2_skinny::seventh(x) == field::power(x, 7),
{
    broadcast use algebra::group_valid;

    let one = F::one_elem();
    F::law_constants();
    reveal_with_fuel(field::power, 8);
    algebra::lemma_power_small(x);
    algebra::lemma_power_sum(x, 1, 1);
    algebra::lemma_power_sum(x, 2, 1);
    algebra::lemma_power_sum(x, 3, 3);
    algebra::lemma_power_sum(x, 6, 1);
}

/// Law: in a row that meets the constraints of the degree-nine table, the state after an outer round is
/// the outer layer of the seventh powers of the state with the constants added, where the first round
/// has the outer layer of the input for its state; and that after an inner round is the inner layer of
/// the state with its first entry so raised.
pub proof fn law_skinny_row<F: Field>(
    cols: Poseidon2<F>,
    p: Poseidon2PreprocessedCols<F>,
    diagonal: Seq<F>,
    factor: F,
)
    requires
        builder::satisfied(poseidon2_skinny::row_model(cols, p, diagonal, factor)),
        field::all_valid(cols.state_out@),
        p.is_real == F::one_elem(),
    ensures
        ({
            let one = F::one_elem();
            let zero = F::zero_elem();
            let rc = p.round_constants@;
            let start = poseidon2_skinny_kb::external_linear(cols.state_in@);
            &&& p.round_kind == zero && p.is_first_round == one ==> cols.state_out@
                == poseidon2_skinny_kb::external_linear(boxed(start, rc, 7))
            &&& p.round_kind == zero && p.is_first_round == zero ==> cols.state_out@
                == poseidon2_skinny_kb::external_linear(boxed(cols.state_in@, rc, 7))
            &&& p.round_kind == one ==> cols.state_out@ == poseidon2_skinny_kb::internal_linear(
                first_boxed(cols.state_in@, rc[0], 7),
                diagonal,
                factor,
            )
        }),
{
    broadcast use algebra::group_valid;

    let one = F::one_elem();
    let zero = F::zero_elem();
    let m = poseidon2_skinny::row_model(cols, p, diagonal, factor).constraints;
    let rc = p.round_constants@;
    let input = cols.state_in@;
    let out = cols.state_out@;
    let start = poseidon2_skinny_kb::external_linear(input);
    let outer = one.minus(p.round_kind);
    algebra::lemma_products(one, one, one);
    algebra::lemma_products(zero, zero, zero);
    algebra::lemma_opposites(one, one);
    if p.round_kind == zero && p.is_first_round == one {
        let r = poseidon2_skinny::external_round(start, rc);
        let c = p.is_real.times(outer).times(p.is_first_round);
        assert forall|i: int| 0 <= i < 16 implies #[trigger] poseidon2_skinny_kb::all_equal_when(
            c,
            out,
            r,
        )[i] == zero by {
            assert(m[i] == zero);
        }
        lemma_outer_valid(Seq::new(16, |i: int| poseidon2_skinny::seventh(start[i].plus(rc[i]))));
        lemma_all_equal(c, out, r);
        lemma_outer_round(start, rc);
    }
    if p.round_kind == zero && p.is_first_round == zero {
        let r = poseidon2_skinny::external_round(input, rc);
        let c = p.is_real.times(outer).times(one.minus(p.is_first_round));
        assert forall|i: int| 0 <= i < 16 implies #[trigger] poseidon2_skinny_kb::all_equal_when(
            c,
            out,
            r,
        )[i] == zero by {
            assert(m[16 + i] == zero);
        }
        lemma_outer_valid(Seq::new(16, |i: int| poseidon2_skinny::seventh(input[i].plus(rc[i]))));
        lemma_all_equal(c, out, r);
        lemma_outer_round(input, rc);
    }
    if p.round_kind == one {
        let r = poseidon2_skinny::internal_round(input, rc[0], diagonal, factor);
        let c = p.is_real.times(p.round_kind);
        assert forall|i: int| 0 <= i < 16 implies #[trigger] poseidon2_skinny_kb::all_equal_when(
            c,
            out,
            r,
        )[i] == zero by {
            assert(m[32 + i] == zero);
        }
        lemma_all_equal(c, out, r);
        lemma_powers(input[0].plus(rc[0]));
    }
}

proof fn lemma_outer_round<F: Field>(s: Seq<F>, rc: Seq<F>)
    ensures
        poseidon2_skinny::external_round(s, rc) == poseidon2_skinny_kb::external_linear(
            boxed(s, rc, 7),
        ),
        poseidon2_skinny_kb::external_round(s, rc) == poseidon2_skinny_kb::external_linear(
            boxed(s, rc, 3),
        ),
{
    broadcast use algebra::group_valid;

    assert forall|i: int| 0 <= i < 16 implies poseidon2_skinny::seventh(
        #[trigger] s[i].plus(rc[i]),
    ) == boxed(s, rc, 7)[i] && poseidon2_skinny_kb::cube(s[i].plus(rc[i])) == boxed(s, rc, 3)[i] by {
        lemma_powers(s[i].plus(rc[i]));
    }
    assert(Seq::new(16, |i: int| poseidon2_skinny::seventh(s[i].plus(rc[i]))) =~= boxed(s, rc, 7));
    assert(Seq::new(16, |i: int| poseidon2_skinny_kb::cube(s[i].plus(rc[i]))) =~= boxed(s, rc, 3));
}

/// One row holds two outer rounds: the constants of both, from the state it begins with to that it ends
/// with.
pub open spec fn two_outer_rounds<F: Field>(
    start: Seq<F>,
    end: Seq<F>,
    rc1: Seq<F>,
    rc2: Seq<F>,
) -> bool {
    end == poseidon2_skinny_kb::external_linear(
        boxed(poseidon2_skinny_kb::external_linear(boxed(start, rc1, 3)), rc2, 3),
    )
}

/// The states of inner rounds, each the inner layer of the one before with its first entry raised.
pub open spec fn inner_rounds<F: Field>(
    states: Seq<Seq<F>>,
    rc: Seq<F>,
    diagonal: Seq<F>,
    factor: F,
) -> bool {
    forall|k: int|
        #![trigger states[k]]
        0 < k < states.len() ==> states[k] == poseidon2_skinny_kb::internal_linear(
            first_boxed(states[k - 1], rc[k - 1], 3),
            diagonal,
            factor,
        )
}

proof fn lemma_outer_row<F: Field>(
    m: Seq<F>,
    at: int,
    c: F,
    cols: Poseidon2KbCols<F>,
    first: bool,
    rc1: Seq<F>,
    rc2: Seq<F>,
)
    requires
        c == F::one_elem(),
        0 <= at,
        at + 32 <= m.len(),
        forall|i: int| 0 <= i < m.len() ==> #[trigger] m[i] == F::zero_elem(),
        m.subrange(at, at + 32) == poseidon2_skinny_kb::external_model(
            c,
            cols,
            first,
            rc1,
            rc2,
        ).constraints,
        field::all_valid(cols.state_out@),
        field::all_valid(cols.round_witness@),
    ensures
        two_outer_rounds(
            poseidon2_skinny_kb::first_input(cols.state_in@, first),
            cols.state_out@,
            rc1,
            rc2,
        ),
{
    let s = m.subrange(at, at + 32);
    let witness = cols.round_witness@.subrange(0, 16);
    let start = poseidon2_skinny_kb::first_input(cols.state_in@, first);
    let r1 = poseidon2_skinny_kb::external_round(start, rc1);
    let r2 = poseidon2_skinny_kb::external_round(witness, rc2);
    assert forall|i: int| 0 <= i < 16 implies #[trigger] poseidon2_skinny_kb::all_equal_when(
        c,
        witness,
        r1,
    )[i] == F::zero_elem() by {
        assert(s[i] == m[at + i]);
    }
    assert forall|i: int| 0 <= i < 16 implies #[trigger] poseidon2_skinny_kb::all_equal_when(
        c,
        cols.state_out@,
        r2,
    )[i] == F::zero_elem() by {
        assert(s[16 + i] == m[at + 16 + i]);
    }
    lemma_outer_valid(boxed(start, rc1, 3));
    lemma_outer_valid(boxed(witness, rc2, 3));
    lemma_outer_round(start, rc1);
    lemma_outer_round(witness, rc2);
    lemma_all_equal(c, witness, r1);
    lemma_all_equal(c, cols.state_out@, r2);
}

/// Law: a row that meets the constraints of the degree-three table holds two outer rounds or all twenty
/// inner rounds, by its flag, with the constants of its place in the permutation; the first one has the
/// outer layer of the input for its state.
pub proof fn law_skinny_kb_row<F: Field>(
    cols: Poseidon2KbCols<F>,
    p: Poseidon2KbPreprocessedCols<F>,
    rounds: Rounds<F>,
    diagonal: Seq<F>,
    factor: F,
)
    requires
        builder::satisfied(
            poseidon2_skinny_kb::row_model(cols, p, rounds, diagonal, factor),
        ),
        field::all_valid(cols.state_out@),
        field::all_valid(cols.round_witness@),
    ensures
        ({
            let one = F::one_elem();
            let sel = p.is_round@;
            let rc = rounds.external;
            let start = cols.state_in@;
            let end = cols.state_out@;
            &&& sel[0] == one ==> two_outer_rounds(
                poseidon2_skinny_kb::external_linear(start),
                end,
                rc[0],
                rc[1],
            )
            &&& sel[1] == one ==> two_outer_rounds(start, end, rc[2], rc[3])
            &&& sel[3] == one ==> two_outer_rounds(start, end, rc[4], rc[5])
            &&& sel[4] == one ==> two_outer_rounds(start, end, rc[6], rc[7])
            &&& sel[2] == one ==> exists|states: Seq<Seq<F>>| #[trigger]
                inner_rounds(states, rounds.internal, diagonal, factor) && states.len() == 21
                    && states[0] == start && states[20] == end
        }),
{
    broadcast use algebra::group_valid;

    let one = F::one_elem();
    let sel = p.is_round@;
    let rc = rounds.external;
    let m = poseidon2_skinny_kb::row_model(cols, p, rounds, diagonal, factor).constraints;
    let e0 = poseidon2_skinny_kb::external_model(sel[0], cols, true, rc[0], rc[1]).constraints;
    let e1 = poseidon2_skinny_kb::external_model(sel[1], cols, false, rc[2], rc[3]).constraints;
    let e3 = poseidon2_skinny_kb::external_model(sel[3], cols, false, rc[4], rc[5]).constraints;
    let e4 = poseidon2_skinny_kb::external_model(sel[4], cols, false, rc[6], rc[7]).constraints;
    let inner = poseidon2_skinny_kb::internal_model(
        sel[2],
        cols,
        rounds.internal,
        diagonal,
        factor,
    ).constraints;
    assert(m =~= e0 + e1 + e3 + e4 + inner);
    assert(m.subrange(0, 32) =~= e0);
    assert(m.subrange(32, 64) =~= e1);
    assert(m.subrange(64, 96) =~= e3);
    assert(m.subrange(96, 128) =~= e4);
    if sel[0] == one {
        lemma_outer_row(m, 0, sel[0], cols, true, rc[0], rc[1]);
    }
    if sel[1] == one {
        lemma_outer_row(m, 32, sel[1], cols, false, rc[2], rc[3]);
    }
    if sel[3] == one {
        lemma_outer_row(m, 64, sel[3], cols, false, rc[4], rc[5]);
    }
    if sel[4] == one {
        lemma_outer_row(m, 96, sel[4], cols, false, rc[6], rc[7]);
    }
    if sel[2] == one {
        let witness = cols.round_witness@;
        let c = rounds.internal;
        let state = |k: int|
            poseidon2_skinny_kb::internal_states(
                cols.state_in@,
                witness,
                diagonal,
                factor,
                k as nat,
            );
        let end = poseidon2_skinny_kb::internal_result(
            cols.state_in@,
            witness,
            c,
            diagonal,
            factor,
        );
        let states = Seq::new(
            21,
            |k: int|
                if k == 20 {
                    end
                } else {
                    state(k)
                },
        );
        assert forall|k: int| #![trigger states[k]] 0 < k < 21 implies states[k]
            == poseidon2_skinny_kb::internal_linear(
            first_boxed(states[k - 1], c[k - 1], 3),
            diagonal,
            factor,
        ) by {
            let j = k - 1;
            let x = state(j)[0].plus(c[j]);
            lemma_powers(x);
            if k < 20 {
                assert(inner[j] == builder::equal_when(
                    sel[2],
                    witness[j],
                    poseidon2_skinny_kb::cube(x),
                ));
                assert(m[128 + j] == inner[j]);
                let d = witness[j].minus(poseidon2_skinny_kb::cube(x));
                algebra::lemma_products(d, d, d);
                algebra::lemma_opposites(witness[j], poseidon2_skinny_kb::cube(x));
                algebra::lemma_opposites(
                    poseidon2_skinny_kb::cube(x),
                    poseidon2_skinny_kb::cube(x),
                );
            }
        }
        assert forall|i: int| 0 <= i < 16 implies #[trigger] poseidon2_skinny_kb::all_equal_when(
            sel[2],
            cols.state_out@,
            end,
        )[i] == F::zero_elem() by {
            assert(inner[19 + i] == m[128 + 19 + i]);
        }
        lemma_all_equal(sel[2], cols.state_out@, end);
        assert(inner_rounds(states, c, diagonal, factor));
        assert(states[0] == cols.state_in@ && states[20] == cols.state_out@);
    }
}

/// Law: every row of a permutation reads the sixteen entries of its state once for each of its flags and
/// writes those of the state after it.
pub proof fn law_state_accesses<F: Field>(
    cols: Poseidon2KbCols<F>,
    p: Poseidon2KbPreprocessedCols<F>,
    n: nat,
    i: int,
)
    requires
        0 <= i < n <= 16,
    ensures
        ({
            let s = poseidon2_skinny_kb::state_interactions(cols, p, n);
            let flags = p.is_round@[0].plus(p.is_round@[1]).plus(p.is_round@[2]).plus(
                p.is_round@[3],
            ).plus(p.is_round@[4]);
            let zero = F::zero_elem();
            &&& s.len() == 2 * n
            &&& s[2 * i].is_send && s[2 * i + 1].is_send
            &&& s[2 * i].addr == p.state_in_addrs@[i].0
            &&& s[2 * i].value == builder::single(cols.state_in@[i])
            &&& p.is_round@[0].valid() ==> s[2 * i].mult.plus(flags) == zero
            &&& s[2 * i + 1].addr == p.state_out_mem@[i].addr.0
            &&& s[2 * i + 1].value == builder::single(cols.state_out@[i])
            &&& s[2 * i + 1].mult == p.state_out_mem@[i].mult
        }),
    decreases n,
{
    broadcast use algebra::group_valid;

    reveal_with_fuel(poseidon2_skinny_kb::state_interactions, 2);
    reveal_with_fuel(poseidon2_skinny_kb::sum_upto, 6);
    let k = (n - 1) as nat;
    if i < k {
        law_state_accesses(cols, p, k, i);
    } else if k > 0 {
        law_state_accesses(cols, p, k, 0);
    }
    let sel = p.is_round@;
    if sel[0].valid() {
        algebra::lemma_opposites(sel[0], sel[0]);
    }
    let flags = poseidon2_skinny_kb::sum_upto(sel, 5);
    algebra::lemma_opposites(F::zero_elem(), flags);
}

/// Law: the same of the degree-nine table, whose rows read with one multiplicity.
pub proof fn law_skinny_accesses<F: Field>(
    cols: Poseidon2<F>,
    p: Poseidon2PreprocessedCols<F>,
    n: nat,
    i: int,
)
    requires
        0 <= i < n <= 16,
    ensures
        ({
            let s = poseidon2_skinny::state_interactions(cols, p, n);
            &&& s.len() == 2 * n
            &&& s[2 * i].is_send && s[2 * i + 1].is_send
            &&& s[2 * i].addr == p.state_in_addrs@[i].0
            &&& s[2 * i].value == builder::single(cols.state_in@[i])
            &&& s[2 * i].mult == p.state_in_neg_mult
            &&& s[2 * i + 1].addr == p.state_out_mem@[i].addr.0
            &&& s[2 * i + 1].value == builder::single(cols.state_out@[i])
            &&& s[2 * i + 1].mult == p.state_out_mem@[i].mult
        }),
    decreases n,
{
    reveal_with_fuel(poseidon2_skinny::state_interactions, 2);
    let k = (n - 1) as nat;
    if i < k {
        law_skinny_accesses(cols, p, k, i);
    } else if k > 0 {
        law_skinny_accesses(cols, p, k, 0);
    }
}

} // verus!
