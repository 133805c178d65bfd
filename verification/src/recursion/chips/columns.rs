//! Where the columns of the tables of chained instructions stand.
use vstd::prelude::*;
use crate::field::Field;
use crate::recursion::chips::alu_base;
use crate::recursion::chips::ext_exp_reverse_bits;
use crate::recursion::chips::ext_exp_reverse_bits::{
    ExtExpReverseBitsCols, ExtExpReverseBitsPreprocessedCols,
};
use crate::recursion::chips::prefix_sum_checks;
use crate::recursion::chips::prefix_sum_checks::{
    PrefixSumChecksCols, PrefixSumChecksPreprocessedCols,
};
use crate::recursion::chips::sumcheck_round;
use crate::recursion::chips::sumcheck_round::{SumcheckRoundCols, SumcheckRoundPreprocessedCols};

verus! {

/// Law: the rows of a sumcheck round: the challenge, the coefficient, the running sum, the claim,
/// the accumulator, its product with the challenge, and what the row before handed on, one after
/// the other; and the places of the rows in the same way, each access by its address and its
/// multiplicity.
pub proof fn law_sumcheck_entries<F: Field>(
    rows: Seq<SumcheckRoundCols<F>>,
    places: Seq<SumcheckRoundPreprocessedCols<F>>,
    n: nat,
    i: int,
)
    requires
        0 <= i < n,
    ensures
        ({
            let c = rows[i];
            let p = places[i];
            &&& sumcheck_round::entries(rows, n).len() == 32 * n
            &&& sumcheck_round::entries(rows, n).subrange(32 * i, 32 * i + 32) == seq![
                c.challenge.0,
                c.challenge.1,
                c.challenge.2,
                c.challenge.3,
                c.current_coeff.0,
                c.current_coeff.1,
                c.current_coeff.2,
                c.current_coeff.3,
                c.running_sum.0,
                c.running_sum.1,
                c.running_sum.2,
                c.running_sum.3,
                c.claim.0,
                c.claim.1,
                c.claim.2,
                c.claim.3,
                c.horner_accum.0,
                c.horner_accum.1,
                c.horner_accum.2,
                c.horner_accum.3,
                c.horner_accum_mul_challenge.0,
                c.horner_accum_mul_challenge.1,
                c.horner_accum_mul_challenge.2,
                c.horner_accum_mul_challenge.3,
                c.prev_running_sum.0,
                c.prev_running_sum.1,
                c.prev_running_sum.2,
                c.prev_running_sum.3,
                c.prev_horner_mul_challenge.0,
                c.prev_horner_mul_challenge.1,
                c.prev_horner_mul_challenge.2,
                c.prev_horner_mul_challenge.3,
            ]
            &&& sumcheck_round::all_place_entries(places, n).len() == 21 * n
            &&& sumcheck_round::all_place_entries(places, n).subrange(21 * i, 21 * i + 21) == seq![
                p.challenge_mem.addr.0,
                p.challenge_mem.mult,
                p.coeff_mem.addr.0,
                p.coeff_mem.mult,
                p.claim_mem.addr.0,
                p.claim_mem.mult,
                p.out_mem.addr.0,
                p.out_mem.mult,
                p.iteration_num,
                p.is_first,
                p.is_last,
                p.is_real,
                p.is_claim_check,
                p.chain_rs_out.addr.0,
                p.chain_rs_out.mult,
                p.chain_rs_in.addr.0,
                p.chain_rs_in.mult,
                p.chain_ha_out.addr.0,
                p.chain_ha_out.mult,
                p.chain_ha_in.addr.0,
                p.chain_ha_in.mult,
            ]
        }),
{
    lemma_sumcheck_rows(rows, n, i);
    lemma_sumcheck_places(places, n, i);
    lemma_sumcheck_row(rows[i]);
    lemma_sumcheck_place(places[i]);
}

proof fn lemma_sumcheck_row<F: Field>(c: SumcheckRoundCols<F>)
    ensures
        sumcheck_round::row_entries(c) == seq![
            c.challenge.0,
            c.challenge.1,
            c.challenge.2,
            c.challenge.3,
            c.current_coeff.0,
            c.current_coeff.1,
            c.current_coeff.2,
            c.current_coeff.3,
            c.running_sum.0,
            c.running_sum.1,
            c.running_sum.2,
            c.running_sum.3,
            c.claim.0,
            c.claim.1,
            c.claim.2,
            c.claim.3,
            c.horner_accum.0,
            c.horner_accum.1,
            c.horner_accum.2,
            c.horner_accum.3,
            c.horner_accum_mul_challenge.0,
            c.horner_accum_mul_challenge.1,
            c.horner_accum_mul_challenge.2,
            c.horner_accum_mul_challenge.3,
            c.prev_running_sum.0,
            c.prev_running_sum.1,
            c.prev_running_sum.2,
            c.prev_running_sum.3,
            c.prev_horner_mul_challenge.0,
            c.prev_horner_mul_challenge.1,
            c.prev_horner_mul_challenge.2,
            c.prev_horner_mul_challenge.3,
        ],
{
    assert(sumcheck_round::row_entries(c) =~= seq![
        c.challenge.0,
        c.challenge.1,
        c.challenge.2,
        c.challenge.3,
        c.current_coeff.0,
        c.current_coeff.1,
        c.current_coeff.2,
        c.current_coeff.3,
        c.running_sum.0,
        c.running_sum.1,
        c.running_sum.2,
        c.running_sum.3,
        c.claim.0,
        c.claim.1,
        c.claim.2,
        c.claim.3,
        c.horner_accum.0,
        c.horner_accum.1,
        c.horner_accum.2,
        c.horner_accum.3,
        c.horner_accum_mul_challenge.0,
        c.horner_accum_mul_challenge.1,
        c.horner_accum_mul_challenge.2,
        c.horner_accum_mul_challenge.3,
        c.prev_running_sum.0,
        c.prev_running_sum.1,
        c.prev_running_sum.2,
        c.prev_running_sum.3,
        c.prev_horner_mul_challenge.0,
        c.prev_horner_mul_challenge.1,
        c.prev_horner_mul_challenge.2,
        c.prev_horner_mul_challenge.3,
    ]);
}

proof fn lemma_sumcheck_place<F: Field>(p: SumcheckRoundPreprocessedCols<F>)
    ensures
        sumcheck_round::place_entries(p) == seq![
            p.challenge_mem.addr.0,
            p.challenge_mem.mult,
            p.coeff_mem.addr.0,
            p.coeff_mem.mult,
            p.claim_mem.addr.0,
            p.claim_mem.mult,
            p.out_mem.addr.0,
            p.out_mem.mult,
            p.iteration_num,
            p.is_first,
            p.is_last,
            p.is_real,
            p.is_claim_check,
            p.chain_rs_out.addr.0,
            p.chain_rs_out.mult,
            p.chain_rs_in.addr.0,
            p.chain_rs_in.mult,
            p.chain_ha_out.addr.0,
            p.chain_ha_out.mult,
            p.chain_ha_in.addr.0,
            p.chain_ha_in.mult,
        ],
{
    assert(sumcheck_round::place_entries(p) =~= seq![
        p.challenge_mem.addr.0,
        p.challenge_mem.mult,
        p.coeff_mem.addr.0,
        p.coeff_mem.mult,
        p.claim_mem.addr.0,
        p.claim_mem.mult,
        p.out_mem.addr.0,
        p.out_mem.mult,
        p.iteration_num,
        p.is_first,
        p.is_last,
        p.is_real,
        p.is_claim_check,
        p.chain_rs_out.addr.0,
        p.chain_rs_out.mult,
        p.chain_rs_in.addr.0,
        p.chain_rs_in.mult,
        p.chain_ha_out.addr.0,
        p.chain_ha_out.mult,
        p.chain_ha_in.addr.0,
        p.chain_ha_in.mult,
    ]);
}

proof fn lemma_sumcheck_rows<F: Field>(rows: Seq<SumcheckRoundCols<F>>, n: nat, i: int)
    requires
        0 <= i < n,
    ensures
        sumcheck_round::entries(rows, n).len() == 32 * n,
        sumcheck_round::entries(rows, n).subrange(32 * i, 32 * i + 32) == sumcheck_round::row_entries(rows[i]),
    decreases n,
{
    reveal_with_fuel(sumcheck_round::entries, 2);
    let k = (n - 1) as nat;
    let s = sumcheck_round::entries(rows, n);
    let own = sumcheck_round::row_entries(rows[k as int]);
    assert(own.len() == 32);
    if i < k {
        lemma_sumcheck_rows(rows, k, i);
        assert(s.subrange(32 * i, 32 * i + 32) =~= sumcheck_round::entries(rows, k).subrange(
            32 * i,
            32 * i + 32,
        ));
    } else {
        if k > 0 {
            lemma_sumcheck_rows(rows, k, 0);
        }
        assert(s.subrange(32 * i, 32 * i + 32) =~= own);
    }
}

proof fn lemma_sumcheck_places<F: Field>(places: Seq<SumcheckRoundPreprocessedCols<F>>, n: nat, i: int)
    requires
        0 <= i < n,
    ensures
        sumcheck_round::all_place_entries(places, n).len() == 21 * n,
        sumcheck_round::all_place_entries(places, n).subrange(21 * i, 21 * i + 21)
            == sumcheck_round::place_entries(places[i]),
    decreases n,
{
    reveal_with_fuel(sumcheck_round::all_place_entries, 2);
    let k = (n - 1) as nat;
    let s = sumcheck_round::all_place_entries(places, n);
    let own = sumcheck_round::place_entries(places[k as int]);
    assert(own.len() == 21);
    if i < k {
        lemma_sumcheck_places(places, k, i);
        assert(s.subrange(21 * i, 21 * i + 21) =~= sumcheck_round::all_place_entries(
            places,
            k,
        ).subrange(21 * i, 21 * i + 21));
    } else {
        if k > 0 {
            lemma_sumcheck_places(places, k, 0);
        }
        assert(s.subrange(21 * i, 21 * i + 21) =~= own);
    }
}

/// Law: the rows of a product of equalities: the pair, its equality, its product, the accumulator
/// before and after, and what the row before handed on, one after the other; and the places of
/// the rows in the same way, each access by its address and its multiplicity.
pub proof fn law_prefix_entries<F: Field>(
    rows: Seq<PrefixSumChecksCols<F>>,
    places: Seq<PrefixSumChecksPreprocessedCols<F>>,
    n: nat,
    i: int,
)
    requires
        0 <= i < n,
    ensures
        ({
            let c = rows[i];
            let p = places[i];
            &&& prefix_sum_checks::entries(rows, n).len() == 28 * n
            &&& prefix_sum_checks::entries(rows, n).subrange(28 * i, 28 * i + 28) == seq![
                c.x1.0,
                c.x1.1,
                c.x1.2,
                c.x1.3,
                c.x2.0,
                c.x2.1,
                c.x2.2,
                c.x2.3,
                c.eq_val.0,
                c.eq_val.1,
                c.eq_val.2,
                c.eq_val.3,
                c.x1_mul_x2.0,
                c.x1_mul_x2.1,
                c.x1_mul_x2.2,
                c.x1_mul_x2.3,
                c.acc.0,
                c.acc.1,
                c.acc.2,
                c.acc.3,
                c.new_acc.0,
                c.new_acc.1,
                c.new_acc.2,
                c.new_acc.3,
                c.prev_new_acc.0,
                c.prev_new_acc.1,
                c.prev_new_acc.2,
                c.prev_new_acc.3,
            ]
            &&& prefix_sum_checks::all_place_entries(places, n).len() == 16 * n
            &&& prefix_sum_checks::all_place_entries(places, n).subrange(16 * i, 16 * i + 16) == seq![
                p.x1_mem.addr.0,
                p.x1_mem.mult,
                p.x2_mem.addr.0,
                p.x2_mem.mult,
                p.acc_mem.addr.0,
                p.acc_mem.mult,
                p.out_mem.addr.0,
                p.out_mem.mult,
                p.iteration_num,
                p.is_first,
                p.is_last,
                p.is_real,
                p.chain_acc_out.addr.0,
                p.chain_acc_out.mult,
                p.chain_acc_in.addr.0,
                p.chain_acc_in.mult,
            ]
        }),
{
    lemma_prefix_rows(rows, n, i);
    lemma_prefix_places(places, n, i);
    lemma_prefix_row(rows[i]);
    lemma_prefix_place(places[i]);
}

proof fn lemma_prefix_row<F: Field>(c: PrefixSumChecksCols<F>)
    ensures
        prefix_sum_checks::row_entries(c) == seq![
            c.x1.0,
            c.x1.1,
            c.x1.2,
            c.x1.3,
            c.x2.0,
            c.x2.1,
            c.x2.2,
            c.x2.3,
            c.eq_val.0,
            c.eq_val.1,
            c.eq_val.2,
            c.eq_val.3,
            c.x1_mul_x2.0,
            c.x1_mul_x2.1,
            c.x1_mul_x2.2,
            c.x1_mul_x2.3,
            c.acc.0,
            c.acc.1,
            c.acc.2,
            c.acc.3,
            c.new_acc.0,
            c.new_acc.1,
            c.new_acc.2,
            c.new_acc.3,
            c.prev_new_acc.0,
            c.prev_new_acc.1,
            c.prev_new_acc.2,
            c.prev_new_acc.3,
        ],
{
    assert(prefix_sum_checks::row_entries(c) =~= seq![
        c.x1.0,
        c.x1.1,
        c.x1.2,
        c.x1.3,
        c.x2.0,
        c.x2.1,
        c.x2.2,
        c.x2.3,
        c.eq_val.0,
        c.eq_val.1,
        c.eq_val.2,
        c.eq_val.3,
        c.x1_mul_x2.0,
        c.x1_mul_x2.1,
        c.x1_mul_x2.2,
        c.x1_mul_x2.3,
        c.acc.0,
        c.acc.1,
        c.acc.2,
        c.acc.3,
        c.new_acc.0,
        c.new_acc.1,
        c.new_acc.2,
        c.new_acc.3,
        c.prev_new_acc.0,
        c.prev_new_acc.1,
        c.prev_new_acc.2,
        c.prev_new_acc.3,
    ]);
}

proof fn lemma_prefix_place<F: Field>(p: PrefixSumChecksPreprocessedCols<F>)
    ensures
        prefix_sum_checks::place_entries(p) == seq![
            p.x1_mem.addr.0,
            p.x1_mem.mult,
            p.x2_mem.addr.0,
            p.x2_mem.mult,
            p.acc_mem.addr.0,
            p.acc_mem.mult,
            p.out_mem.addr.0,
            p.out_mem.mult,
            p.iteration_num,
            p.is_first,
            p.is_last,
            p.is_real,
            p.chain_acc_out.addr.0,
            p.chain_acc_out.mult,
            p.chain_acc_in.addr.0,
            p.chain_acc_in.mult,
        ],
{
    assert(prefix_sum_checks::place_entries(p) =~= seq![
        p.x1_mem.addr.0,
        p.x1_mem.mult,
        p.x2_mem.addr.0,
        p.x2_mem.mult,
        p.acc_mem.addr.0,
        p.acc_mem.mult,
        p.out_mem.addr.0,
        p.out_mem.mult,
        p.iteration_num,
        p.is_first,
        p.is_last,
        p.is_real,
        p.chain_acc_out.addr.0,
        p.chain_acc_out.mult,
        p.chain_acc_in.addr.0,
        p.chain_acc_in.mult,
    ]);
}

proof fn lemma_prefix_rows<F: Field>(rows: Seq<PrefixSumChecksCols<F>>, n: nat, i: int)
    requires
        0 <= i < n,
    ensures
        prefix_sum_checks::entries(rows, n).len() == 28 * n,
        prefix_sum_checks::entries(rows, n).subrange(28 * i, 28 * i + 28) == prefix_sum_checks::row_entries(rows[i]),
    decreases n,
{
    reveal_with_fuel(prefix_sum_checks::entries, 2);
    let k = (n - 1) as nat;
    let s = prefix_sum_checks::entries(rows, n);
    let own = prefix_sum_checks::row_entries(rows[k as int]);
    assert(own.len() == 28);
    if i < k {
        lemma_prefix_rows(rows, k, i);
        assert(s.subrange(28 * i, 28 * i + 28) =~= prefix_sum_checks::entries(rows, k).subrange(
            28 * i,
            28 * i + 28,
        ));
    } else {
        if k > 0 {
            lemma_prefix_rows(rows, k, 0);
        }
        assert(s.subrange(28 * i, 28 * i + 28) =~= own);
    }
}

proof fn lemma_prefix_places<F: Field>(places: Seq<PrefixSumChecksPreprocessedCols<F>>, n: nat, i: int)
    requires
        0 <= i < n,
    ensures
        prefix_sum_checks::all_place_entries(places, n).len() == 16 * n,
        prefix_sum_checks::all_place_entries(places, n).subrange(16 * i, 16 * i + 16)
            == prefix_sum_checks::place_entries(places[i]),
    decreases n,
{
    reveal_with_fuel(prefix_sum_checks::all_place_entries, 2);
    let k = (n - 1) as nat;
    let s = prefix_sum_checks::all_place_entries(places, n);
    let own = prefix_sum_checks::place_entries(places[k as int]);
    assert(own.len() == 16);
    if i < k {
        lemma_prefix_places(places, k, i);
        assert(s.subrange(16 * i, 16 * i + 16) =~= prefix_sum_checks::all_place_entries(
            places,
            k,
        ).subrange(16 * i, 16 * i + 16));
    } else {
        if k > 0 {
            lemma_prefix_places(places, k, 0);
        }
        assert(s.subrange(16 * i, 16 * i + 16) =~= own);
    }
}

/// Law: the rows of an exponentiation: the base, the bit, the square handed on, its product, the
/// accumulator, its square, and the multiplier, one after the other; and the places of the rows
/// in the same way, each access by its address and its multiplicity.
pub proof fn law_exp_entries<F: Field>(
    rows: Seq<ExtExpReverseBitsCols<F>>,
    places: Seq<ExtExpReverseBitsPreprocessedCols<F>>,
    n: nat,
    i: int,
)
    requires
        0 <= i < n,
    ensures
        ({
            let c = rows[i];
            let p = places[i];
            &&& ext_exp_reverse_bits::entries(rows, n).len() == 25 * n
            &&& ext_exp_reverse_bits::entries(rows, n).subrange(25 * i, 25 * i + 25) == seq![
                c.x.0,
                c.x.1,
                c.x.2,
                c.x.3,
                c.current_bit,
                c.prev_accum_squared.0,
                c.prev_accum_squared.1,
                c.prev_accum_squared.2,
                c.prev_accum_squared.3,
                c.prev_accum_squared_times_multiplier.0,
                c.prev_accum_squared_times_multiplier.1,
                c.prev_accum_squared_times_multiplier.2,
                c.prev_accum_squared_times_multiplier.3,
                c.accum.0,
                c.accum.1,
                c.accum.2,
                c.accum.3,
                c.accum_squared.0,
                c.accum_squared.1,
                c.accum_squared.2,
                c.accum_squared.3,
                c.multiplier.0,
                c.multiplier.1,
                c.multiplier.2,
                c.multiplier.3,
            ]
            &&& ext_exp_reverse_bits::all_place_entries(places, n).len() == 14 * n
            &&& ext_exp_reverse_bits::all_place_entries(places, n).subrange(14 * i, 14 * i + 14) == seq![
                p.x_mem.addr.0,
                p.x_mem.mult,
                p.exponent_mem.addr.0,
                p.exponent_mem.mult,
                p.result_mem.addr.0,
                p.result_mem.mult,
                p.iteration_num,
                p.is_first,
                p.is_last,
                p.is_real,
                p.chain_accum_out.addr.0,
                p.chain_accum_out.mult,
                p.chain_accum_in.addr.0,
                p.chain_accum_in.mult,
            ]
        }),
{
    lemma_exp_rows(rows, n, i);
    lemma_exp_places(places, n, i);
    lemma_exp_row(rows[i]);
    lemma_exp_place(places[i]);
}

proof fn lemma_exp_row<F: Field>(c: ExtExpReverseBitsCols<F>)
    ensures
        ext_exp_reverse_bits::row_entries(c) == seq![
            c.x.0,
            c.x.1,
            c.x.2,
            c.x.3,
            c.current_bit,
            c.prev_accum_squared.0,
            c.prev_accum_squared.1,
            c.prev_accum_squared.2,
            c.prev_accum_squared.3,
            c.prev_accum_squared_times_multiplier.0,
            c.prev_accum_squared_times_multiplier.1,
            c.prev_accum_squared_times_multiplier.2,
            c.prev_accum_squared_times_multiplier.3,
            c.accum.0,
            c.accum.1,
            c.accum.2,
            c.accum.3,
            c.accum_squared.0,
            c.accum_squared.1,
            c.accum_squared.2,
            c.accum_squared.3,
            c.multiplier.0,
            c.multiplier.1,
            c.multiplier.2,
            c.multiplier.3,
        ],
{
    assert(ext_exp_reverse_bits::row_entries(c) =~= seq![
        c.x.0,
        c.x.1,
        c.x.2,
        c.x.3,
        c.current_bit,
        c.prev_accum_squared.0,
        c.prev_accum_squared.1,
        c.prev_accum_squared.2,
        c.prev_accum_squared.3,
        c.prev_accum_squared_times_multiplier.0,
        c.prev_accum_squared_times_multiplier.1,
        c.prev_accum_squared_times_multiplier.2,
        c.prev_accum_squared_times_multiplier.3,
        c.accum.0,
        c.accum.1,
        c.accum.2,
        c.accum.3,
        c.accum_squared.0,
        c.accum_squared.1,
        c.accum_squared.2,
        c.accum_squared.3,
        c.multiplier.0,
        c.multiplier.1,
        c.multiplier.2,
        c.multiplier.3,
    ]);
}

proof fn lemma_exp_place<F: Field>(p: ExtExpReverseBitsPreprocessedCols<F>)
    ensures
        ext_exp_reverse_bits::place_entries(p) == seq![
            p.x_mem.addr.0,
            p.x_mem.mult,
            p.exponent_mem.addr.0,
            p.exponent_mem.mult,
            p.result_mem.addr.0,
            p.result_mem.mult,
            p.iteration_num,
            p.is_first,
            p.is_last,
            p.is_real,
            p.chain_accum_out.addr.0,
            p.chain_accum_out.mult,
            p.chain_accum_in.addr.0,
            p.chain_accum_in.mult,
        ],
{
    assert(ext_exp_reverse_bits::place_entries(p) =~= seq![
        p.x_mem.addr.0,
        p.x_mem.mult,
        p.exponent_mem.addr.0,
        p.exponent_mem.mult,
        p.result_mem.addr.0,
        p.result_mem.mult,
        p.iteration_num,
        p.is_first,
        p.is_last,
        p.is_real,
        p.chain_accum_out.addr.0,
        p.chain_accum_out.mult,
        p.chain_accum_in.addr.0,
        p.chain_accum_in.mult,
    ]);
}

proof fn lemma_exp_rows<F: Field>(rows: Seq<ExtExpReverseBitsCols<F>>, n: nat, i: int)
    requires
        0 <= i < n,
    ensures
        ext_exp_reverse_bits::entries(rows, n).len() == 25 * n,
        ext_exp_reverse_bits::entries(rows, n).subrange(25 * i, 25 * i + 25) == ext_exp_reverse_bits::row_entries(rows[i]),
    decreases n,
{
    reveal_with_fuel(ext_exp_reverse_bits::entries, 2);
    let k = (n - 1) as nat;
    let s = ext_exp_reverse_bits::entries(rows, n);
    let own = ext_exp_reverse_bits::row_entries(rows[k as int]);
    assert(own.len() == 25);
    if i < k {
        lemma_exp_rows(rows, k, i);
        assert(s.subrange(25 * i, 25 * i + 25) =~= ext_exp_reverse_bits::entries(rows, k).subrange(
            25 * i,
            25 * i + 25,
        ));
    } else {
        if k > 0 {
            lemma_exp_rows(rows, k, 0);
        }
        assert(s.subrange(25 * i, 25 * i + 25) =~= own);
    }
}

proof fn lemma_exp_places<F: Field>(places: Seq<ExtExpReverseBitsPreprocessedCols<F>>, n: nat, i: int)
    requires
        0 <= i < n,
    ensures
        ext_exp_reverse_bits::all_place_entries(places, n).len() == 14 * n,
        ext_exp_reverse_bits::all_place_entries(places, n).subrange(14 * i, 14 * i + 14)
            == ext_exp_reverse_bits::place_entries(places[i]),
    decreases n,
{
    reveal_with_fuel(ext_exp_reverse_bits::all_place_entries, 2);
    let k = (n - 1) as nat;
    let s = ext_exp_reverse_bits::all_place_entries(places, n);
    let own = ext_exp_reverse_bits::place_entries(places[k as int]);
    assert(own.len() == 14);
    if i < k {
        lemma_exp_places(places, k, i);
        assert(s.subrange(14 * i, 14 * i + 14) =~= ext_exp_reverse_bits::all_place_entries(
            places,
            k,
        ).subrange(14 * i, 14 * i + 14));
    } else {
        if k > 0 {
            lemma_exp_places(places, k, 0);
        }
        assert(s.subrange(14 * i, 14 * i + 14) =~= own);
    }
}

/// Law: padding keeps the entries and puts zeros behind them.
pub proof fn law_zero_padded<F: Field>(s: Seq<F>, len: int, i: int)
    requires
        s.len() <= len,
        0 <= i < len,
    ensures
        alu_base::zero_padded(s, len).len() == len,
        alu_base::zero_padded(s, len).take(s.len() as int) == s,
        i >= s.len() ==> alu_base::zero_padded(s, len)[i] == F::zero_elem(),
{
    assert(alu_base::zero_padded(s, len).take(s.len() as int) =~= s);
}

} // verus!
