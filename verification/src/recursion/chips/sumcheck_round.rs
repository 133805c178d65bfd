//! The table of sumcheck rounds.
use vstd::prelude::*;
use crate::bits;
use crate::field::algebra;
use crate::field::Field;
use crate::recursion::builder;
use crate::recursion::builder::{add_blocks, mul_blocks, single_block, RowBuilder, RowModel};
use crate::recursion::chips::alu_base;
use crate::recursion::chips::alu_base::from_bool;
use crate::recursion::chips::alu_ext;
use crate::recursion::chips::alu_ext::push_block;
use crate::recursion::chips::ext_exp_reverse_bits;
use crate::recursion::chips::ext_exp_reverse_bits::{push_access, without_access};
use crate::recursion::chips::mem::MemoryAccessCols;
use crate::recursion::types::{Address, Block};
use crate::recursion::utils;
use crate::stark::trace::{CompressedMatrix, PaddingRow};

verus! {

pub const NUM_SUMCHECK_ROUND_COLS: usize = 32;

pub const NUM_SUMCHECK_ROUND_PREPROCESS_COLS: usize = 21;

/// The table with one coefficient in a row.
#[derive(Clone, Copy, Debug)]
pub struct SumcheckRoundChip;

/// The places of a row.
#[derive(Clone, Copy, Debug)]
pub struct SumcheckRoundPreprocessedCols<T> {
    pub challenge_mem: MemoryAccessCols<T>,
    pub coeff_mem: MemoryAccessCols<T>,
    pub claim_mem: MemoryAccessCols<T>,
    pub out_mem: MemoryAccessCols<T>,
    pub iteration_num: T,
    pub is_first: T,
    pub is_last: T,
    pub is_real: T,
    pub is_claim_check: T,
    pub chain_rs_out: MemoryAccessCols<T>,
    pub chain_rs_in: MemoryAccessCols<T>,
    pub chain_ha_out: MemoryAccessCols<T>,
    pub chain_ha_in: MemoryAccessCols<T>,
}

/// The values of a row.
#[derive(Clone, Copy, Debug)]
pub struct SumcheckRoundCols<F> {
    pub challenge: Block<F>,
    pub current_coeff: Block<F>,
    /// The sum of the coefficients so far.
    pub running_sum: Block<F>,
    pub claim: Block<F>,
    /// The value at the challenge so far, by Horner's rule.
    pub horner_accum: Block<F>,
    pub horner_accum_mul_challenge: Block<F>,
    pub prev_running_sum: Block<F>,
    pub prev_horner_mul_challenge: Block<F>,
}

/// The operands of a round: the places of the polynomial, the challenge and the claims, and those
/// that link its rows.
#[derive(Clone, Debug)]
pub struct SumcheckOperands<F> {
    pub coeffs: Vec<Address<F>>,
    pub challenge: Address<F>,
    pub claim: Address<F>,
    pub new_claim: Address<F>,
    pub mult: F,
    pub chain_rs_addrs: Vec<Address<F>>,
    pub chain_ha_addrs: Vec<Address<F>>,
}

/// The sum of the first `n` coefficients.
pub open spec fn sum_of<F: Field>(coeffs: Seq<Block<F>>, n: nat) -> Block<F>
    decreases n,
{
    if n <= 1 {
        coeffs[0]
    } else {
        builder::block_sum(sum_of(coeffs, (n - 1) as nat), coeffs[n - 1])
    }
}

/// The value at the challenge of the polynomial with the first `n` coefficients, from the highest
/// degree.
pub open spec fn value_of<F: Field>(
    coeffs: Seq<Block<F>>,
    challenge: Block<F>,
    w: F,
    n: nat,
) -> Block<F>
    decreases n,
{
    if n <= 1 {
        coeffs[0]
    } else {
        builder::block_sum(
            builder::block_product(value_of(coeffs, challenge, w, (n - 1) as nat), challenge, w),
            coeffs[n - 1],
        )
    }
}

/// The rows of a round.
pub open spec fn rows_of<F: Field>(
    coeffs: Seq<Block<F>>,
    challenge: Block<F>,
    claim: Block<F>,
    w: F,
) -> Seq<SumcheckRoundCols<F>> {
    Seq::new(
        coeffs.len(),
        |i: int|
            {
                let value = value_of(coeffs, challenge, w, (i + 1) as nat);
                SumcheckRoundCols {
                    challenge,
                    current_coeff: coeffs[i],
                    running_sum: sum_of(coeffs, (i + 1) as nat),
                    claim,
                    horner_accum: value,
                    horner_accum_mul_challenge: builder::block_product(value, challenge, w),
                    prev_running_sum: if i == 0 {
                        builder::single(F::zero_elem())
                    } else {
                        sum_of(coeffs, i as nat)
                    },
                    prev_horner_mul_challenge: if i == 0 {
                        builder::single(F::zero_elem())
                    } else {
                        builder::block_product(
                            value_of(coeffs, challenge, w, i as nat),
                            challenge,
                            w,
                        )
                    },
                }
            },
    )
}

/// A place that hands a value on, except in the last row.
pub open spec fn chain_out<F: Field>(chain: Seq<Address<F>>, i: int, last: int) -> MemoryAccessCols<
    F,
> {
    if i < last {
        MemoryAccessCols { addr: chain[i], mult: F::one_elem() }
    } else {
        ext_exp_reverse_bits::no_access()
    }
}

/// A place that takes a value up, except in the first row.
pub open spec fn chain_in<F: Field>(chain: Seq<Address<F>>, i: int) -> MemoryAccessCols<F> {
    if i > 0 {
        MemoryAccessCols { addr: chain[i - 1], mult: F::one_elem().opposite() }
    } else {
        ext_exp_reverse_bits::no_access()
    }
}

/// The places of a row: the challenge and the claim are read in the first row, a coefficient in
/// each, the new claim is written in the last.
pub open spec fn places_of<F: Field>(
    coeffs: Seq<Address<F>>,
    challenge: Address<F>,
    claim: Address<F>,
    new_claim: Address<F>,
    mult: F,
    chain_rs: Seq<Address<F>>,
    chain_ha: Seq<Address<F>>,
    i: int,
) -> SumcheckRoundPreprocessedCols<F> {
    let last = coeffs.len() - 1;
    let first = alu_base::flag::<F>(i == 0);
    SumcheckRoundPreprocessedCols {
        challenge_mem: MemoryAccessCols { addr: challenge, mult: first.opposite() },
        coeff_mem: MemoryAccessCols { addr: coeffs[i], mult: F::one_elem().opposite() },
        claim_mem: MemoryAccessCols { addr: claim, mult: first.opposite() },
        out_mem: MemoryAccessCols { addr: new_claim, mult: mult.times(alu_base::flag(i == last)) },
        iteration_num: F::from_int(i),
        is_first: first,
        is_last: alu_base::flag(i == last),
        is_real: F::one_elem(),
        is_claim_check: alu_base::flag(i == last),
        chain_rs_out: chain_out(chain_rs, i, last),
        chain_rs_in: chain_in(chain_rs, i),
        chain_ha_out: chain_out(chain_ha, i, last),
        chain_ha_in: chain_in(chain_ha, i),
    }
}

/// A row's constraints and accesses to memory.
pub open spec fn row_model<F: Field>(
    c: SumcheckRoundCols<F>,
    p: SumcheckRoundPreprocessedCols<F>,
    w: F,
) -> RowModel<F> {
    let not_first = F::one_elem().minus(p.is_first);
    RowModel {
        constraints: builder::blocks_equal_when(p.is_first, c.running_sum, c.current_coeff)
            + builder::blocks_equal_when_both(
            p.is_real,
            not_first,
            c.running_sum,
            builder::block_sum(c.prev_running_sum, c.current_coeff),
        ) + builder::blocks_equal_when(p.is_first, c.horner_accum, c.current_coeff)
            + builder::blocks_equal_when_both(
            p.is_real,
            not_first,
            c.horner_accum,
            builder::block_sum(c.prev_horner_mul_challenge, c.current_coeff),
        ) + builder::blocks_equal_when(
            p.is_real,
            c.horner_accum_mul_challenge,
            builder::block_product(c.horner_accum, c.challenge, w),
        ) + builder::blocks_equal_when(
            p.is_claim_check,
            c.claim,
            builder::block_sum(c.current_coeff, c.running_sum),
        ),
        interactions: seq![
            builder::sent(p.challenge_mem.addr, c.challenge, p.challenge_mem.mult),
            builder::sent(p.claim_mem.addr, c.claim, p.claim_mem.mult),
            builder::sent(p.coeff_mem.addr, c.current_coeff, p.coeff_mem.mult),
            builder::sent(p.out_mem.addr, c.horner_accum, p.out_mem.mult),
            builder::sent(p.chain_rs_out.addr, c.running_sum, p.chain_rs_out.mult),
            builder::sent(p.chain_rs_in.addr, c.prev_running_sum, p.chain_rs_in.mult),
            builder::sent(
                p.chain_ha_out.addr,
                c.horner_accum_mul_challenge,
                p.chain_ha_out.mult,
            ),
            builder::sent(p.chain_ha_in.addr, c.prev_horner_mul_challenge, p.chain_ha_in.mult),
        ],
    }
}

/// The entries of a row.
pub open spec fn row_entries<F>(c: SumcheckRoundCols<F>) -> Seq<F> {
    alu_ext::block_entries(c.challenge) + alu_ext::block_entries(c.current_coeff) + alu_ext::block_entries(c.running_sum) + alu_ext::block_entries(c.claim) + alu_ext::block_entries(c.horner_accum) + alu_ext::block_entries(c.horner_accum_mul_challenge) + alu_ext::block_entries(c.prev_running_sum) + alu_ext::block_entries(c.prev_horner_mul_challenge)
}

/// The entries of rows, one after the other.
pub open spec fn entries<F>(rows: Seq<SumcheckRoundCols<F>>, n: nat) -> Seq<F>
    decreases n,
{
    if n == 0 {
        Seq::empty()
    } else {
        entries(rows, (n - 1) as nat) + row_entries(rows[n - 1])
    }
}

/// The entries of the places of a row.
pub open spec fn place_entries<F>(p: SumcheckRoundPreprocessedCols<F>) -> Seq<F> {
    ext_exp_reverse_bits::access_pair(p.challenge_mem) + ext_exp_reverse_bits::access_pair(p.coeff_mem) + ext_exp_reverse_bits::access_pair(p.claim_mem) + ext_exp_reverse_bits::access_pair(p.out_mem) + seq![p.iteration_num, p.is_first, p.is_last, p.is_real, p.is_claim_check] + ext_exp_reverse_bits::access_pair(p.chain_rs_out) + ext_exp_reverse_bits::access_pair(p.chain_rs_in) + ext_exp_reverse_bits::access_pair(p.chain_ha_out) + ext_exp_reverse_bits::access_pair(p.chain_ha_in)
}

/// The entries of the places of rows, one after the other.
pub open spec fn all_place_entries<F>(rows: Seq<SumcheckRoundPreprocessedCols<F>>, n: nat) -> Seq<F>
    decreases n,
{
    if n == 0 {
        Seq::empty()
    } else {
        all_place_entries(rows, (n - 1) as nat) + place_entries(rows[n - 1])
    }
}

impl SumcheckRoundChip {
    /// The table with the given rows.
    pub fn generate_trace<F: Field>(
        rows: &Vec<SumcheckRoundCols<F>>,
        fixed_log2_rows: Option<usize>,
    ) -> (r: CompressedMatrix<F>)
        requires
            bits::pow2_above(rows@.len()) <= usize::MAX,
            fixed_log2_rows matches Some(log2_rows) ==> log2_rows < usize::BITS,
        ensures
            r.width == NUM_SUMCHECK_ROUND_COLS,
            r.padding_row == (PaddingRow::<F>::Zero { width: r.width }),
            r.main@ == entries(rows@, rows@.len()),
            r.total_height as nat == utils::threshold_height(
                utils::padded_height(rows@.len(), fixed_log2_rows),
            ),
    {
        let n: usize = rows.len();
        let total_height: usize = utils::padded_rows_threshold(
            utils::next_power_of_two(n, fixed_log2_rows),
        );
        let mut values: Vec<F> = Vec::new();
        let mut i: usize = 0;
        while i < n
            invariant
                i <= n,
                n == rows@.len(),
                values@ == entries(rows@, i as nat),
            decreases n - i,
        {
            let c = rows[i];
            let ghost before = values@;
            push_block(&mut values, &c.challenge);
            push_block(&mut values, &c.current_coeff);
            push_block(&mut values, &c.running_sum);
            push_block(&mut values, &c.claim);
            push_block(&mut values, &c.horner_accum);
            push_block(&mut values, &c.horner_accum_mul_challenge);
            push_block(&mut values, &c.prev_running_sum);
            push_block(&mut values, &c.prev_horner_mul_challenge);
            assert(values@ =~= before + row_entries(c));
            i += 1;
        }
        CompressedMatrix::new(values, NUM_SUMCHECK_ROUND_COLS, total_height)
    }

    /// The table of places with the given rows.
    pub fn generate_preprocessed_trace<F: Field>(
        rows: &Vec<SumcheckRoundPreprocessedCols<F>>,
        fixed_log2_rows: Option<usize>,
    ) -> (r: CompressedMatrix<F>)
        requires
            bits::pow2_above(rows@.len()) <= usize::MAX,
            fixed_log2_rows matches Some(log2_rows) ==> log2_rows < usize::BITS,
        ensures
            r.width == NUM_SUMCHECK_ROUND_PREPROCESS_COLS,
            r.padding_row == (PaddingRow::<F>::Zero { width: r.width }),
            r.main@ == all_place_entries(rows@, rows@.len()),
            r.total_height as nat == utils::threshold_height(
                utils::padded_height(rows@.len(), fixed_log2_rows),
            ),
    {
        let n: usize = rows.len();
        let total_height: usize = utils::padded_rows_threshold(
            utils::next_power_of_two(n, fixed_log2_rows),
        );
        let mut values: Vec<F> = Vec::new();
        let mut i: usize = 0;
        while i < n
            invariant
                i <= n,
                n == rows@.len(),
                values@ == all_place_entries(rows@, i as nat),
            decreases n - i,
        {
            let p = rows[i];
            let ghost before = values@;
            push_access(&mut values, &p.challenge_mem);
            push_access(&mut values, &p.coeff_mem);
            push_access(&mut values, &p.claim_mem);
            push_access(&mut values, &p.out_mem);
            values.push(p.iteration_num);
            values.push(p.is_first);
            values.push(p.is_last);
            values.push(p.is_real);
            values.push(p.is_claim_check);
            push_access(&mut values, &p.chain_rs_out);
            push_access(&mut values, &p.chain_rs_in);
            push_access(&mut values, &p.chain_ha_out);
            push_access(&mut values, &p.chain_ha_in);
            assert(values@ =~= before + place_entries(p));
            i += 1;
        }
        CompressedMatrix::new(values, NUM_SUMCHECK_ROUND_PREPROCESS_COLS, total_height)
    }

}

impl SumcheckRoundChip {
    /// The rows of a round.
    pub fn event_rows<F: Field>(
        coeffs: &Vec<Block<F>>,
        challenge: &Block<F>,
        claim: &Block<F>,
        w: F,
    ) -> (r: Vec<SumcheckRoundCols<F>>)
        ensures
            r@ == rows_of(coeffs@, *challenge, *claim, w),
    {
        let n: usize = coeffs.len();
        let zero = single_block(F::zero());
        let mut rows: Vec<SumcheckRoundCols<F>> = Vec::new();
        let mut prev_running_sum = zero;
        let mut prev_horner_mul_challenge = zero;
        let mut i: usize = 0;
        while i < n
            invariant
                i <= n,
                n == coeffs@.len(),
                prev_running_sum == (if i == 0 {
                    builder::single(F::zero_elem())
                } else {
                    sum_of(coeffs@, i as nat)
                }),
                prev_horner_mul_challenge == (if i == 0 {
                    builder::single(F::zero_elem())
                } else {
                    builder::block_product(
                        value_of(coeffs@, *challenge, w, i as nat),
                        *challenge,
                        w,
                    )
                }),
                rows@.len() == i,
                forall|j: int|
                    0 <= j < i ==> #[trigger] rows@[j] == rows_of(
                        coeffs@,
                        *challenge,
                        *claim,
                        w,
                    )[j],
            decreases n - i,
        {
            let coeff = coeffs[i];
            let running_sum = if i == 0 {
                coeff
            } else {
                add_blocks(&prev_running_sum, &coeff)
            };
            let horner_accum = if i == 0 {
                coeff
            } else {
                add_blocks(&prev_horner_mul_challenge, &coeff)
            };
            let horner_accum_mul_challenge = mul_blocks(&horner_accum, challenge, w);
            rows.push(
                SumcheckRoundCols {
                    challenge: *challenge,
                    current_coeff: coeff,
                    running_sum,
                    claim: *claim,
                    horner_accum,
                    horner_accum_mul_challenge,
                    prev_running_sum,
                    prev_horner_mul_challenge,
                },
            );
            prev_running_sum = running_sum;
            prev_horner_mul_challenge = horner_accum_mul_challenge;
            i += 1;
        }
        assert(rows@ =~= rows_of(coeffs@, *challenge, *claim, w));
        rows
    }

    /// The places of the rows of a round.
    pub fn instr_rows<F: Field>(op: &SumcheckOperands<F>) -> (r: Vec<
        SumcheckRoundPreprocessedCols<F>,
    >)
        requires
            op.chain_rs_addrs@.len() + 1 >= op.coeffs@.len(),
            op.chain_ha_addrs@.len() + 1 >= op.coeffs@.len(),
        ensures
            r@.len() == op.coeffs@.len(),
            forall|i: int|
                0 <= i < r@.len() ==> #[trigger] r@[i] == places_of(
                    op.coeffs@,
                    op.challenge,
                    op.claim,
                    op.new_claim,
                    op.mult,
                    op.chain_rs_addrs@,
                    op.chain_ha_addrs@,
                    i,
                ),
    {
        let n: usize = op.coeffs.len();
        let mut rows: Vec<SumcheckRoundPreprocessedCols<F>> = Vec::new();
        let mut i: usize = 0;
        while i < n
            invariant
                i <= n,
                n == op.coeffs@.len(),
                op.chain_rs_addrs@.len() + 1 >= n,
                op.chain_ha_addrs@.len() + 1 >= n,
                rows@.len() == i,
                forall|j: int|
                    0 <= j < i ==> #[trigger] rows@[j] == places_of(
                        op.coeffs@,
                        op.challenge,
                        op.claim,
                        op.new_claim,
                        op.mult,
                        op.chain_rs_addrs@,
                        op.chain_ha_addrs@,
                        j,
                    ),
            decreases n - i,
        {
            let is_first: F = from_bool(i == 0);
            let is_last: F = from_bool(i == n - 1);
            let one = F::one();
            let mut chain_rs_out = without_access();
            let mut chain_ha_out = without_access();
            if i < n - 1 {
                chain_rs_out = MemoryAccessCols { addr: op.chain_rs_addrs[i], mult: one };
                chain_ha_out = MemoryAccessCols { addr: op.chain_ha_addrs[i], mult: one };
            }
            let mut chain_rs_in = without_access();
            let mut chain_ha_in = without_access();
            if i > 0 {
                chain_rs_in = MemoryAccessCols { addr: op.chain_rs_addrs[i - 1], mult: one.neg() };
                chain_ha_in = MemoryAccessCols { addr: op.chain_ha_addrs[i - 1], mult: one.neg() };
            }
            rows.push(
                SumcheckRoundPreprocessedCols {
                    challenge_mem: MemoryAccessCols { addr: op.challenge, mult: is_first.neg() },
                    coeff_mem: MemoryAccessCols { addr: op.coeffs[i], mult: one.neg() },
                    claim_mem: MemoryAccessCols { addr: op.claim, mult: is_first.neg() },
                    out_mem: MemoryAccessCols { addr: op.new_claim, mult: op.mult.mul(is_last) },
                    iteration_num: F::from_u64(i as u64),
                    is_first,
                    is_last,
                    is_real: one,
                    is_claim_check: is_last,
                    chain_rs_out,
                    chain_rs_in,
                    chain_ha_out,
                    chain_ha_in,
                },
            );
            i += 1;
        }
        rows
    }

    /// The constraints and the accesses to memory of a row.
    pub fn eval_sumcheck_round<F: Field>(
        builder: &mut RowBuilder<F>,
        local: &SumcheckRoundCols<F>,
        local_prepr: &SumcheckRoundPreprocessedCols<F>,
    )
        ensures
            final(builder)@ == builder::joined(
                old(builder)@,
                row_model(*local, *local_prepr, old(builder).w),
            ),
            final(builder).w == old(builder).w,
    {
        let w = builder.w;
        let c = *local;
        let p = *local_prepr;
        let not_first = F::one().sub(p.is_first);
        builder.send_block(p.challenge_mem.addr, c.challenge, p.challenge_mem.mult);
        builder.send_block(p.claim_mem.addr, c.claim, p.claim_mem.mult);
        builder.send_block(p.coeff_mem.addr, c.current_coeff, p.coeff_mem.mult);
        builder.assert_ext_eq_when(p.is_first, &c.running_sum, &c.current_coeff);
        builder.assert_ext_eq_when_both(
            p.is_real,
            not_first,
            &c.running_sum,
            &add_blocks(&c.prev_running_sum, &c.current_coeff),
        );
        builder.assert_ext_eq_when(p.is_first, &c.horner_accum, &c.current_coeff);
        builder.assert_ext_eq_when_both(
            p.is_real,
            not_first,
            &c.horner_accum,
            &add_blocks(&c.prev_horner_mul_challenge, &c.current_coeff),
        );
        builder.assert_ext_eq_when(
            p.is_real,
            &c.horner_accum_mul_challenge,
            &mul_blocks(&c.horner_accum, &c.challenge, w),
        );
        builder.assert_ext_eq_when(
            p.is_claim_check,
            &c.claim,
            &add_blocks(&c.current_coeff, &c.running_sum),
        );
        builder.send_block(p.out_mem.addr, c.horner_accum, p.out_mem.mult);
        builder.send_block(p.chain_rs_out.addr, c.running_sum, p.chain_rs_out.mult);
        builder.send_block(p.chain_rs_in.addr, c.prev_running_sum, p.chain_rs_in.mult);
        builder.send_block(
            p.chain_ha_out.addr,
            c.horner_accum_mul_challenge,
            p.chain_ha_out.mult,
        );
        builder.send_block(p.chain_ha_in.addr, c.prev_horner_mul_challenge, p.chain_ha_in.mult);
        assert(builder@ =~= builder::joined(old(builder)@, row_model(c, p, w)));
    }
}

/// What a row hands on is what the next row takes up.
pub proof fn law_rows_linked<F: Field>(
    coeffs: Seq<Block<F>>,
    challenge: Block<F>,
    claim: Block<F>,
    w: F,
    i: int,
)
    requires
        0 < i < coeffs.len(),
    ensures
        ({
            let rows = rows_of(coeffs, challenge, claim, w);
            &&& rows[i].prev_running_sum == rows[i - 1].running_sum
            &&& rows[i].prev_horner_mul_challenge == rows[i - 1].horner_accum_mul_challenge
        }),
{
}

/// The last row writes the value of the polynomial at the challenge.
pub proof fn law_last_row<F: Field>(
    coeffs: Seq<Block<F>>,
    challenge: Block<F>,
    claim: Block<F>,
    w: F,
)
    requires
        coeffs.len() > 0,
    ensures
        rows_of(coeffs, challenge, claim, w).last().horner_accum == value_of(
            coeffs,
            challenge,
            w,
            coeffs.len(),
        ),
{
}

pub proof fn lemma_values_canonical<F: Field>(
    coeffs: Seq<Block<F>>,
    challenge: Block<F>,
    w: F,
    n: nat,
)
    requires
        0 < n <= coeffs.len(),
        alu_ext::canonical_block(coeffs[0]),
    ensures
        alu_ext::canonical_block(sum_of(coeffs, n)),
        alu_ext::canonical_block(value_of(coeffs, challenge, w, n)),
{
    broadcast use algebra::group_valid;

}

/// Four values that vanish vanish under another condition.
proof fn lemma_both<F: Field>(c: F, d: F, x: Block<F>, y: Block<F>)
    requires
        c.valid(),
        d.valid(),
        alu_ext::canonical_block(x),
        alu_ext::canonical_block(y),
        d == F::zero_elem() || x == y,
    ensures
        forall|i: int|
            0 <= i < 4 ==> #[trigger] builder::blocks_equal_when_both(c, d, x, y)[i]
                == F::zero_elem(),
{
    let z = F::zero_elem();
    F::law_constants();
    alu_ext::lemma_equal_when(d, x, y);
    let inner = builder::blocks_equal_when(d, x, y);
    assert(inner[0] == z && inner[1] == z && inner[2] == z && inner[3] == z);
    algebra::lemma_products(c, z, z);
    let s = builder::blocks_equal_when_both(c, d, x, y);
    assert(s[0] == z && s[1] == z && s[2] == z && s[3] == z);
}

/// The rows of a round satisfy the constraints of the table where the claim is the sum of the
/// values at zero and at one: the constant coefficient plus the sum of all.
pub proof fn law_rows_satisfied<F: Field>(
    coeffs: Seq<Block<F>>,
    challenge: Block<F>,
    claim: Block<F>,
    p: SumcheckRoundPreprocessedCols<F>,
    w: F,
    i: int,
)
    requires
        w.valid(),
        forall|k: int| 0 <= k < coeffs.len() ==> alu_ext::canonical_block(#[trigger] coeffs[k]),
        0 <= i < coeffs.len(),
        p.is_real == F::one_elem(),
        p.is_first == alu_base::flag::<F>(i == 0),
        p.is_claim_check == alu_base::flag::<F>(i == coeffs.len() - 1),
        alu_ext::canonical_block(claim),
        claim == builder::block_sum(coeffs.last(), sum_of(coeffs, coeffs.len())),
    ensures
        builder::satisfied(row_model(rows_of(coeffs, challenge, claim, w)[i], p, w)),
{
    broadcast use algebra::group_valid;

    let one = F::one_elem();
    let z = F::zero_elem();
    F::law_constants();
    let c = rows_of(coeffs, challenge, claim, w)[i];
    lemma_values_canonical(coeffs, challenge, w, (i + 1) as nat);
    assert(alu_ext::canonical_block(coeffs[i]));
    let not_first = one.minus(p.is_first);
    let sum = builder::block_sum(c.prev_running_sum, c.current_coeff);
    let value = builder::block_sum(c.prev_horner_mul_challenge, c.current_coeff);
    let total = builder::block_sum(c.current_coeff, c.running_sum);
    let next = c.horner_accum_mul_challenge;
    if i == 0 {
        algebra::lemma_opposites(one, one);
    }
    alu_ext::lemma_equal_when(p.is_first, c.running_sum, c.current_coeff);
    alu_ext::lemma_equal_when(p.is_first, c.horner_accum, c.current_coeff);
    lemma_both(one, not_first, c.running_sum, sum);
    lemma_both(one, not_first, c.horner_accum, value);
    alu_ext::lemma_equal_when(one, next, next);
    alu_ext::lemma_equal_when(p.is_claim_check, claim, total);
    let s = row_model(c, p, w).constraints;
    assert forall|k: int| 0 <= k < s.len() implies #[trigger] s[k] == z by {
        if k < 4 {
            assert(s[k] == builder::blocks_equal_when(
                p.is_first,
                c.running_sum,
                c.current_coeff,
            )[k]);
        } else if k < 8 {
            assert(s[k] == builder::blocks_equal_when_both(
                one,
                not_first,
                c.running_sum,
                sum,
            )[k - 4]);
        } else if k < 12 {
            assert(s[k] == builder::blocks_equal_when(
                p.is_first,
                c.horner_accum,
                c.current_coeff,
            )[k - 8]);
        } else if k < 16 {
            assert(s[k] == builder::blocks_equal_when_both(
                one,
                not_first,
                c.horner_accum,
                value,
            )[k - 12]);
        } else if k < 20 {
            assert(s[k] == builder::blocks_equal_when(one, next, next)[k - 16]);
        } else {
            assert(s[k] == builder::blocks_equal_when(p.is_claim_check, claim, total)[k - 20]);
        }
    }
}

} // verus!
