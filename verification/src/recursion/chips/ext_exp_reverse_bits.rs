//! The table of exponentiations by bits.
use vstd::prelude::*;
use crate::bits;
use crate::field;
use crate::field::algebra;
use crate::field::Field;
use crate::recursion::builder;
use crate::recursion::builder::{mul_blocks, single_block, RowBuilder, RowModel};
use crate::recursion::chips::alu_base;
use crate::recursion::chips::alu_base::from_bool;
use crate::recursion::chips::alu_ext;
use crate::recursion::chips::alu_ext::push_block;
use crate::recursion::chips::mem::MemoryAccessCols;
use crate::recursion::types::{Address, Block};
use crate::recursion::utils;
use crate::stark::trace::{CompressedMatrix, PaddingRow};

verus! {

pub const NUM_EXT_EXP_REVERSE_BITS_COLS: usize = 25;

pub const NUM_EXT_EXP_REVERSE_BITS_PREPROCESSED_COLS: usize = 14;

/// The table with one bit in a row.
#[derive(Clone, Copy, Debug)]
pub struct ExtExpReverseBitsChip<const DEGREE: usize>;

/// The places of a row.
#[derive(Clone, Copy, Debug)]
pub struct ExtExpReverseBitsPreprocessedCols<T> {
    pub x_mem: MemoryAccessCols<T>,
    pub exponent_mem: MemoryAccessCols<T>,
    pub result_mem: MemoryAccessCols<T>,
    pub iteration_num: T,
    pub is_first: T,
    pub is_last: T,
    pub is_real: T,
    pub chain_accum_out: MemoryAccessCols<T>,
    pub chain_accum_in: MemoryAccessCols<T>,
}

/// The values of a row.
#[derive(Clone, Copy, Debug)]
pub struct ExtExpReverseBitsCols<T> {
    /// The base of the exponentiation.
    pub x: Block<T>,
    /// The bit of the exponent.
    pub current_bit: T,
    /// The square of the accumulator before.
    pub prev_accum_squared: Block<T>,
    /// That square times the multiplier.
    pub prev_accum_squared_times_multiplier: Block<T>,
    /// The accumulator.
    pub accum: Block<T>,
    /// The square of the accumulator.
    pub accum_squared: Block<T>,
    /// The base where the bit is one, else one.
    pub multiplier: Block<T>,
}

/// The operands of an exponentiation: the places of the base, the bits and the result, and those
/// that link its rows.
#[derive(Clone, Debug)]
pub struct ExpOperands<F> {
    pub base: Address<F>,
    pub exp: Vec<Address<F>>,
    pub result: Address<F>,
    pub mult: F,
    pub chain_accum_addrs: Vec<Address<F>>,
}

/// The base where the bit is one, else one.
pub open spec fn multiplier_of<F: Field>(base: Block<F>, bit: F) -> Block<F> {
    if bit == F::one_elem() {
        base
    } else {
        builder::single(F::one_elem())
    }
}

/// The row of a bit, after an accumulator.
pub open spec fn row_of<F: Field>(
    base: Block<F>,
    bit: F,
    prev: Block<F>,
    w: F,
) -> ExtExpReverseBitsCols<F> {
    let multiplier = multiplier_of(base, bit);
    let square = builder::block_product(prev, prev, w);
    let accum = builder::block_product(square, multiplier, w);
    ExtExpReverseBitsCols {
        x: base,
        current_bit: bit,
        prev_accum_squared: square,
        prev_accum_squared_times_multiplier: accum,
        accum,
        accum_squared: builder::block_product(accum, accum, w),
        multiplier,
    }
}

/// The accumulator after the first `n` bits.
pub open spec fn accum_after<F: Field>(base: Block<F>, exp: Seq<F>, w: F, n: nat) -> Block<F>
    decreases n,
{
    if n == 0 {
        builder::single(F::one_elem())
    } else {
        row_of(base, exp[n - 1], accum_after(base, exp, w, (n - 1) as nat), w).accum
    }
}

/// The rows of an exponentiation.
pub open spec fn rows_of<F: Field>(base: Block<F>, exp: Seq<F>, w: F) -> Seq<
    ExtExpReverseBitsCols<F>,
> {
    Seq::new(
        exp.len(),
        |i: int| row_of(base, exp[i], accum_after(base, exp, w, i as nat), w),
    )
}

/// The entries of a row.
pub open spec fn row_entries<F>(c: ExtExpReverseBitsCols<F>) -> Seq<F> {
    alu_ext::block_entries(c.x) + seq![c.current_bit] + alu_ext::block_entries(c.prev_accum_squared)
        + alu_ext::block_entries(c.prev_accum_squared_times_multiplier) + alu_ext::block_entries(
        c.accum,
    ) + alu_ext::block_entries(c.accum_squared) + alu_ext::block_entries(c.multiplier)
}

/// The entries of rows, one after the other.
pub open spec fn entries<F>(rows: Seq<ExtExpReverseBitsCols<F>>, n: nat) -> Seq<F>
    decreases n,
{
    if n == 0 {
        Seq::empty()
    } else {
        entries(rows, (n - 1) as nat) + row_entries(rows[n - 1])
    }
}

/// No access.
pub open spec fn no_access<F: Field>() -> MemoryAccessCols<F> {
    MemoryAccessCols { addr: Address(F::zero_elem()), mult: F::zero_elem() }
}

pub fn without_access<F: Field>() -> (r: MemoryAccessCols<F>)
    ensures
        r == no_access::<F>(),
{
    MemoryAccessCols { addr: Address(F::zero()), mult: F::zero() }
}

/// The places of the row of a bit: the base is read in the first row, the bit in each, the result
/// is written in the last, and the squares are handed from row to row.
pub open spec fn places_of<F: Field>(
    base: Address<F>,
    exp: Seq<Address<F>>,
    result: Address<F>,
    mult: F,
    chain: Seq<Address<F>>,
    i: int,
) -> ExtExpReverseBitsPreprocessedCols<F> {
    let last = exp.len() - 1;
    ExtExpReverseBitsPreprocessedCols {
        x_mem: MemoryAccessCols { addr: base, mult: alu_base::flag::<F>(i == 0).opposite() },
        exponent_mem: MemoryAccessCols { addr: exp[i], mult: F::one_elem().opposite() },
        result_mem: MemoryAccessCols {
            addr: result,
            mult: mult.times(alu_base::flag(i == last)),
        },
        iteration_num: F::from_int(i),
        is_first: alu_base::flag(i == 0),
        is_last: alu_base::flag(i == last),
        is_real: F::one_elem(),
        chain_accum_out: if i < last {
            MemoryAccessCols { addr: chain[i], mult: F::one_elem() }
        } else {
            no_access()
        },
        chain_accum_in: if i > 0 {
            MemoryAccessCols { addr: chain[i - 1], mult: F::one_elem().opposite() }
        } else {
            no_access()
        },
    }
}

/// The entries of an access.
pub open spec fn access_pair<F>(a: MemoryAccessCols<F>) -> Seq<F> {
    seq![a.addr.0, a.mult]
}

/// Appends the entries of an access.
pub fn push_access<F: Field>(values: &mut Vec<F>, a: &MemoryAccessCols<F>)
    ensures
        final(values)@ == old(values)@ + access_pair(*a),
{
    values.push(a.addr.0);
    values.push(a.mult);
    assert(values@ =~= old(values)@ + access_pair(*a));
}

/// The entries of the places of a row.
pub open spec fn place_entries<F>(p: ExtExpReverseBitsPreprocessedCols<F>) -> Seq<F> {
    access_pair(p.x_mem) + access_pair(p.exponent_mem) + access_pair(p.result_mem) + seq![
        p.iteration_num,
        p.is_first,
        p.is_last,
        p.is_real,
    ] + access_pair(p.chain_accum_out) + access_pair(p.chain_accum_in)
}

/// The entries of the places of rows, one after the other.
pub open spec fn all_place_entries<F>(
    rows: Seq<ExtExpReverseBitsPreprocessedCols<F>>,
    n: nat,
) -> Seq<F>
    decreases n,
{
    if n == 0 {
        Seq::empty()
    } else {
        all_place_entries(rows, (n - 1) as nat) + place_entries(rows[n - 1])
    }
}

/// A row's constraints and accesses to memory.
pub open spec fn row_model<F: Field>(
    c: ExtExpReverseBitsCols<F>,
    p: ExtExpReverseBitsPreprocessedCols<F>,
    degree: nat,
    w: F,
) -> RowModel<F> {
    let one = F::one_elem();
    let z = F::zero_elem();
    let dummy = field::power(p.is_real, degree);
    let not_first = one.minus(p.is_first);
    let head: Seq<F> = if degree > 3 {
        seq![dummy.minus(dummy)]
    } else {
        Seq::empty()
    };
    RowModel {
        constraints: head + builder::blocks_equal_when(p.is_first, c.accum, c.multiplier) + seq![
            builder::equal_when(
                p.is_real,
                c.multiplier.0.minus(one),
                c.current_bit.times(c.x.0.minus(one)),
            ),
            builder::equal_when(
                p.is_real,
                c.multiplier.1.minus(z),
                c.current_bit.times(c.x.1.minus(z)),
            ),
            builder::equal_when(
                p.is_real,
                c.multiplier.2.minus(z),
                c.current_bit.times(c.x.2.minus(z)),
            ),
            builder::equal_when(
                p.is_real,
                c.multiplier.3.minus(z),
                c.current_bit.times(c.x.3.minus(z)),
            ),
        ] + builder::blocks_equal_when(
            p.is_real,
            c.prev_accum_squared_times_multiplier,
            builder::block_product(c.prev_accum_squared, c.multiplier, w),
        ) + builder::blocks_equal_when_both(
            p.is_real,
            not_first,
            c.accum,
            c.prev_accum_squared_times_multiplier,
        ) + builder::blocks_equal_when(
            p.is_real,
            c.accum_squared,
            builder::block_product(c.accum, c.accum, w),
        ),
        interactions: seq![
            builder::sent(p.x_mem.addr, c.x, p.x_mem.mult),
            builder::sent(
                p.exponent_mem.addr,
                builder::single(c.current_bit),
                p.exponent_mem.mult,
            ),
            builder::sent(p.result_mem.addr, c.accum, p.result_mem.mult),
            builder::sent(p.chain_accum_out.addr, c.accum_squared, p.chain_accum_out.mult),
            builder::sent(p.chain_accum_in.addr, c.prev_accum_squared, p.chain_accum_in.mult),
        ],
    }
}

/// The row of a bit, after an accumulator.
fn make_row<F: Field>(base: &Block<F>, bit: F, prev: &Block<F>, w: F) -> (r:
    ExtExpReverseBitsCols<F>)
    ensures
        r == row_of(*base, bit, *prev, w),
{
    let multiplier = if bit.is_equal(&F::one()) {
        *base
    } else {
        single_block(F::one())
    };
    let square = mul_blocks(prev, prev, w);
    let accum = mul_blocks(&square, &multiplier, w);
    ExtExpReverseBitsCols {
        x: *base,
        current_bit: bit,
        prev_accum_squared: square,
        prev_accum_squared_times_multiplier: mul_blocks(&square, &multiplier, w),
        accum,
        accum_squared: mul_blocks(&accum, &accum, w),
        multiplier,
    }
}

/// The product of `degree` copies.
pub fn repeated_product<F: Field>(x: F, degree: usize) -> (r: F)
    ensures
        r == field::power(x, degree as nat),
{
    let mut acc = F::one();
    let mut i: usize = 0;
    while i < degree
        invariant
            i <= degree,
            acc == field::power(x, i as nat),
        decreases degree - i,
    {
        acc = acc.mul(x);
        i += 1;
    }
    acc
}

impl<const DEGREE: usize> ExtExpReverseBitsChip<DEGREE> {
    /// The rows of an exponentiation.
    pub fn event_rows<F: Field>(base: &Block<F>, exp: &Vec<F>, w: F) -> (r: Vec<
        ExtExpReverseBitsCols<F>,
    >)
        ensures
            r@ == rows_of(*base, exp@, w),
    {
        let n: usize = exp.len();
        let mut rows: Vec<ExtExpReverseBitsCols<F>> = Vec::new();
        let mut accum = single_block(F::one());
        let mut i: usize = 0;
        while i < n
            invariant
                i <= n,
                n == exp@.len(),
                accum == accum_after(*base, exp@, w, i as nat),
                rows@.len() == i,
                forall|j: int| 0 <= j < i ==> #[trigger] rows@[j] == rows_of(*base, exp@, w)[j],
            decreases n - i,
        {
            let row = make_row(base, exp[i], &accum, w);
            accum = row.accum;
            rows.push(row);
            i += 1;
        }
        assert(rows@ =~= rows_of(*base, exp@, w));
        rows
    }

    /// The places of the rows of an exponentiation.
    pub fn instr_rows<F: Field>(op: &ExpOperands<F>) -> (r: Vec<
        ExtExpReverseBitsPreprocessedCols<F>,
    >)
        requires
            op.chain_accum_addrs@.len() + 1 >= op.exp@.len(),
        ensures
            r@.len() == op.exp@.len(),
            forall|i: int|
                0 <= i < r@.len() ==> #[trigger] r@[i] == places_of(
                    op.base,
                    op.exp@,
                    op.result,
                    op.mult,
                    op.chain_accum_addrs@,
                    i,
                ),
    {
        let n: usize = op.exp.len();
        let mut rows: Vec<ExtExpReverseBitsPreprocessedCols<F>> = Vec::new();
        let mut i: usize = 0;
        while i < n
            invariant
                i <= n,
                n == op.exp@.len(),
                op.chain_accum_addrs@.len() + 1 >= n,
                rows@.len() == i,
                forall|j: int|
                    0 <= j < i ==> #[trigger] rows@[j] == places_of(
                        op.base,
                        op.exp@,
                        op.result,
                        op.mult,
                        op.chain_accum_addrs@,
                        j,
                    ),
            decreases n - i,
        {
            let is_first: F = from_bool(i == 0);
            let is_last: F = from_bool(i == n - 1);
            rows.push(
                ExtExpReverseBitsPreprocessedCols {
                    x_mem: MemoryAccessCols { addr: op.base, mult: is_first.neg() },
                    exponent_mem: MemoryAccessCols { addr: op.exp[i], mult: F::one().neg() },
                    result_mem: MemoryAccessCols { addr: op.result, mult: op.mult.mul(is_last) },
                    iteration_num: F::from_u64(i as u64),
                    is_first,
                    is_last,
                    is_real: F::one(),
                    chain_accum_out: if i < n - 1 {
                        MemoryAccessCols { addr: op.chain_accum_addrs[i], mult: F::one() }
                    } else {
                        without_access()
                    },
                    chain_accum_in: if i > 0 {
                        MemoryAccessCols { addr: op.chain_accum_addrs[i - 1], mult: F::one().neg() }
                    } else {
                        without_access()
                    },
                },
            );
            i += 1;
        }
        rows
    }

    /// The table with the given rows.
    pub fn generate_trace<F: Field>(
        rows: &Vec<ExtExpReverseBitsCols<F>>,
        fixed_log2_rows: Option<usize>,
    ) -> (r: CompressedMatrix<F>)
        requires
            bits::pow2_above(rows@.len()) <= usize::MAX,
            fixed_log2_rows matches Some(log2_rows) ==> log2_rows < usize::BITS,
        ensures
            r.width == NUM_EXT_EXP_REVERSE_BITS_COLS,
            r.padding_row == (PaddingRow::<F>::Zero { width: r.width }),
            r.main@ == entries(rows@, rows@.len()),
            r.total_height as nat == utils::threshold_height(
                utils::padded_height(rows@.len(), fixed_log2_rows),
            ),
    {
        let n: usize = rows.len();
        let total_height: usize = utils::padded_rows_threshold(
            utils::next_power_of_two(n, fixed_log2_rows),
        );
        let mut values: Vec<F> = Vec::new();
        let mut i: usize = 0;
        while i < n
            invariant
                i <= n,
                n == rows@.len(),
                values@ == entries(rows@, i as nat),
            decreases n - i,
        {
            let c = rows[i];
            let ghost before = values@;
            push_block(&mut values, &c.x);
            values.push(c.current_bit);
            push_block(&mut values, &c.prev_accum_squared);
            push_block(&mut values, &c.prev_accum_squared_times_multiplier);
            push_block(&mut values, &c.accum);
            push_block(&mut values, &c.accum_squared);
            push_block(&mut values, &c.multiplier);
            assert(values@ =~= before + row_entries(c));
            i += 1;
        }
        CompressedMatrix::new(values, NUM_EXT_EXP_REVERSE_BITS_COLS, total_height)
    }

    /// The table of places with the given rows.
    pub fn generate_preprocessed_trace<F: Field>(
        rows: &Vec<ExtExpReverseBitsPreprocessedCols<F>>,
        fixed_log2_rows: Option<usize>,
    ) -> (r: CompressedMatrix<F>)
        requires
            bits::pow2_above(rows@.len()) <= usize::MAX,
            fixed_log2_rows matches Some(log2_rows) ==> log2_rows < usize::BITS,
        ensures
            r.width == NUM_EXT_EXP_REVERSE_BITS_PREPROCESSED_COLS,
            r.padding_row == (PaddingRow::<F>::Zero { width: r.width }),
            r.main@ == all_place_entries(rows@, rows@.len()),
            r.total_height as nat == utils::threshold_height(
                utils::padded_height(rows@.len(), fixed_log2_rows),
            ),
    {
        let n: usize = rows.len();
        let total_height: usize = utils::padded_rows_threshold(
            utils::next_power_of_two(n, fixed_log2_rows),
        );
        let mut values: Vec<F> = Vec::new();
        let mut i: usize = 0;
        while i < n
            invariant
                i <= n,
                n == rows@.len(),
                values@ == all_place_entries(rows@, i as nat),
            decreases n - i,
        {
            let p = rows[i];
            let ghost before = values@;
            push_access(&mut values, &p.x_mem);
            push_access(&mut values, &p.exponent_mem);
            push_access(&mut values, &p.result_mem);
            values.push(p.iteration_num);
            values.push(p.is_first);
            values.push(p.is_last);
            values.push(p.is_real);
            push_access(&mut values, &p.chain_accum_out);
            push_access(&mut values, &p.chain_accum_in);
            assert(values@ =~= before + place_entries(p));
            i += 1;
        }
        CompressedMatrix::new(values, NUM_EXT_EXP_REVERSE_BITS_PREPROCESSED_COLS, total_height)
    }

    /// The constraints and the accesses to memory of a row.
    pub fn eval_ext_exp_reverse_bits<F: Field>(
        builder: &mut RowBuilder<F>,
        local: &ExtExpReverseBitsCols<F>,
        local_prepr: &ExtExpReverseBitsPreprocessedCols<F>,
    )
        ensures
            final(builder)@ == builder::joined(
                old(builder)@,
                row_model(*local, *local_prepr, DEGREE as nat, old(builder).w),
            ),
            final(builder).w == old(builder).w,
    {
        let w = builder.w;
        let c = *local;
        let p = *local_prepr;
        if DEGREE > 3 {
            let lhs = repeated_product(p.is_real, DEGREE);
            let rhs = repeated_product(p.is_real, DEGREE);
            builder.assert_eq(lhs, rhs);
        }
        builder.send_block(p.x_mem.addr, c.x, p.x_mem.mult);
        builder.send_single(p.exponent_mem.addr, c.current_bit, p.exponent_mem.mult);
        builder.assert_ext_eq_when(p.is_first, &c.accum, &c.multiplier);
        let one = F::one();
        let z = F::zero();
        let bit = c.current_bit;
        builder.assert_eq_when(p.is_real, c.multiplier.0.sub(one), bit.mul(c.x.0.sub(one)));
        builder.assert_eq_when(p.is_real, c.multiplier.1.sub(z), bit.mul(c.x.1.sub(z)));
        builder.assert_eq_when(p.is_real, c.multiplier.2.sub(z), bit.mul(c.x.2.sub(z)));
        builder.assert_eq_when(p.is_real, c.multiplier.3.sub(z), bit.mul(c.x.3.sub(z)));
        builder.assert_ext_eq_when(
            p.is_real,
            &c.prev_accum_squared_times_multiplier,
            &mul_blocks(&c.prev_accum_squared, &c.multiplier, w),
        );
        builder.assert_ext_eq_when_both(
            p.is_real,
            one.sub(p.is_first),
            &c.accum,
            &c.prev_accum_squared_times_multiplier,
        );
        builder.assert_ext_eq_when(
            p.is_real,
            &c.accum_squared,
            &mul_blocks(&c.accum, &c.accum, w),
        );
        builder.send_block(p.result_mem.addr, c.accum, p.result_mem.mult);
        builder.send_block(p.chain_accum_out.addr, c.accum_squared, p.chain_accum_out.mult);
        builder.send_block(p.chain_accum_in.addr, c.prev_accum_squared, p.chain_accum_in.mult);
        assert(builder@ =~= builder::joined(
            old(builder)@,
            row_model(c, p, DEGREE as nat, w),
        ));
    }
}

/// What a row hands on is what the next row takes up.
pub proof fn law_rows_linked<F: Field>(base: Block<F>, exp: Seq<F>, w: F, i: int)
    requires
        0 < i < exp.len(),
    ensures
        rows_of(base, exp, w)[i].prev_accum_squared == rows_of(base, exp, w)[i - 1].accum_squared,
{
}

/// The rows of an exponentiation by bits satisfy the constraints of the table.
pub proof fn law_rows_satisfied<F: Field>(
    base: Block<F>,
    exp: Seq<F>,
    base_addr: Address<F>,
    exp_addrs: Seq<Address<F>>,
    result: Address<F>,
    mult: F,
    chain: Seq<Address<F>>,
    degree: nat,
    w: F,
    i: int,
)
    requires
        alu_ext::canonical_block(base),
        w.valid(),
        exp_addrs.len() == exp.len(),
        0 <= i < exp.len(),
        exp[i] == F::zero_elem() || exp[i] == F::one_elem(),
    ensures
        builder::satisfied(
            row_model(
                rows_of(base, exp, w)[i],
                places_of(base_addr, exp_addrs, result, mult, chain, i),
                degree,
                w,
            ),
        ),
{
    broadcast use algebra::group_valid;

    let one = F::one_elem();
    let z = F::zero_elem();
    F::law_constants();
    let c = rows_of(base, exp, w)[i];
    let p = places_of(base_addr, exp_addrs, result, mult, chain, i);
    let prev = accum_after(base, exp, w, i as nat);
    let bit = exp[i];
    let dummy = field::power(p.is_real, degree);
    algebra::lemma_power_valid(p.is_real, degree);
    algebra::lemma_opposites(dummy, z);
    assert(alu_ext::canonical_block(c.multiplier));
    assert(alu_ext::canonical_block(c.accum));
    if i == 0 {
        lemma_one_neutral(c.multiplier, w);
        lemma_one_neutral(builder::single(one), w);
        assert(c.accum == c.multiplier);
    }
    let sq = builder::block_product(c.accum, c.accum, w);
    let first = builder::blocks_equal_when(p.is_first, c.accum, c.multiplier);
    alu_ext::lemma_equal_when(p.is_first, c.accum, c.multiplier);
    alu_ext::lemma_equal_when(one, c.accum, c.accum);
    alu_ext::lemma_equal_when(one, sq, sq);
    algebra::lemma_products(one, z, z);
    algebra::lemma_products(one.minus(p.is_first), z, z);
    algebra::lemma_opposites(c.accum.0, z);
    algebra::lemma_opposites(c.accum.1, z);
    algebra::lemma_opposites(c.accum.2, z);
    algebra::lemma_opposites(c.accum.3, z);
    lemma_multiplier(base.0, bit, one);
    lemma_multiplier(base.1, bit, z);
    lemma_multiplier(base.2, bit, z);
    lemma_multiplier(base.3, bit, z);
    let m = row_model(c, p, degree, w).constraints;
    let h: int = if degree > 3 {
        1
    } else {
        0
    };
    assert forall|k: int| 0 <= k < m.len() implies #[trigger] m[k] == z by {
        let j = k - h;
        if j < 0 {
        } else if j < 4 {
            assert(m[k] == first[j]);
        } else if j < 8 {
        } else if j < 12 {
            assert(m[k] == builder::blocks_equal_when(one, c.accum, c.accum)[j - 8]);
        } else if j < 16 {
            let both = builder::blocks_equal_when_both(
                one,
                one.minus(p.is_first),
                c.accum,
                c.accum,
            );
            assert(both[0] == z && both[1] == z && both[2] == z && both[3] == z);
            assert(m[k] == both[j - 12]);
        } else {
            assert(m[k] == builder::blocks_equal_when(one, sq, sq)[j - 16]);
        }
    }
}

/// A multiplier that is the base where the bit is one and else the unit.
proof fn lemma_multiplier<F: Field>(x: F, bit: F, unit: F)
    requires
        x.valid(),
        unit.valid(),
        bit == F::zero_elem() || bit == F::one_elem(),
    ensures
        builder::equal_when(
            F::one_elem(),
            (if bit == F::one_elem() {
                x
            } else {
                unit
            }).minus(unit),
            bit.times(x.minus(unit)),
        ) == F::zero_elem(),
{
    broadcast use algebra::group_valid;

    let one = F::one_elem();
    let z = F::zero_elem();
    F::law_constants();
    algebra::lemma_products(x.minus(unit), z, z);
    algebra::lemma_opposites(x.minus(unit), z);
    algebra::lemma_opposites(unit, z);
    algebra::lemma_opposites(z, z);
    algebra::lemma_products(one, z, z);
}

/// One times a block is the block.
pub proof fn lemma_one_neutral<F: Field>(b: Block<F>, w: F)
    requires
        alu_ext::canonical_block(b),
        w.valid(),
    ensures
        builder::block_product(builder::single(F::one_elem()), b, w) == b,
{
    broadcast use algebra::group_valid;

    let z = F::zero_elem();
    F::law_constants();
    algebra::lemma_products(b.0, z, z);
    algebra::lemma_products(b.1, z, z);
    algebra::lemma_products(b.2, z, z);
    algebra::lemma_products(b.3, z, z);
    algebra::lemma_products(w, z, z);
    F::law_plus(z, z, z);
    F::law_plus(b.0, z, z);
    F::law_plus(b.1, z, z);
    F::law_plus(b.2, z, z);
    F::law_plus(b.3, z, z);
    algebra::lemma_opposites(b.1, z);
    algebra::lemma_opposites(b.2, z);
    algebra::lemma_opposites(b.3, z);
}

} // verus!
