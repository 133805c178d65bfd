//! The table of products of equalities.
use vstd::prelude::*;
use crate::bits;
use crate::field::algebra;
use crate::field::Field;
use crate::recursion::builder;
use crate::recursion::builder::{add_blocks, mul_blocks, single_block, sub_blocks, RowBuilder, RowModel};
use crate::recursion::chips::alu_base;
use crate::recursion::chips::alu_base::from_bool;
use crate::recursion::chips::alu_ext;
use crate::recursion::chips::alu_ext::push_block;
use crate::recursion::chips::ext_exp_reverse_bits;
use crate::recursion::chips::ext_exp_reverse_bits::{push_access, without_access};
use crate::recursion::chips::mem::MemoryAccessCols;
use crate::recursion::types::{Address, Block};
use crate::recursion::utils;
use crate::stark::trace::{CompressedMatrix, PaddingRow};

verus! {

pub const NUM_PREFIX_SUM_CHECKS_COLS: usize = 28;

pub const NUM_PREFIX_SUM_CHECKS_PREPROCESS_COLS: usize = 16;

/// The table with one pair of coordinates in a row.
#[derive(Clone, Copy, Debug)]
pub struct PrefixSumChecksChip;

/// The places of a row.
#[derive(Clone, Copy, Debug)]
pub struct PrefixSumChecksPreprocessedCols<T> {
    pub x1_mem: MemoryAccessCols<T>,
    pub x2_mem: MemoryAccessCols<T>,
    pub acc_mem: MemoryAccessCols<T>,
    pub out_mem: MemoryAccessCols<T>,
    pub iteration_num: T,
    pub is_first: T,
    pub is_last: T,
    pub is_real: T,
    pub chain_acc_out: MemoryAccessCols<T>,
    pub chain_acc_in: MemoryAccessCols<T>,
}

/// The values of a row.
#[derive(Clone, Copy, Debug)]
pub struct PrefixSumChecksCols<F> {
    pub x1: Block<F>,
    pub x2: Block<F>,
    /// The equality of the coordinates.
    pub eq_val: Block<F>,
    pub x1_mul_x2: Block<F>,
    /// The accumulator before.
    pub acc: Block<F>,
    /// The accumulator times the equality.
    pub new_acc: Block<F>,
    /// What the row before handed on.
    pub prev_new_acc: Block<F>,
}

/// The operands of a product of equalities: the places of the coordinates, of the accumulator and
/// of the result, and those that link its rows.
#[derive(Clone, Debug)]
pub struct PrefixOperands<F> {
    pub x1_vec: Vec<Address<F>>,
    pub x2_vec: Vec<Address<F>>,
    pub init_acc: Address<F>,
    pub result: Address<F>,
    pub mult: F,
    pub chain_acc_addrs: Vec<Address<F>>,
}

pub open spec fn zero_block<F: Field>() -> Block<F> {
    builder::single(F::zero_elem())
}

/// The row of a pair of coordinates, after an accumulator.
pub open spec fn row_of<F: Field>(
    x1: Block<F>,
    x2: Block<F>,
    acc: Block<F>,
    prev_new_acc: Block<F>,
    w: F,
) -> PrefixSumChecksCols<F> {
    let product = builder::block_product(x1, x2, w);
    let eq_val = builder::block_sum(
        builder::block_sum(
            builder::block_difference(
                builder::block_difference(builder::single(F::one_elem()), x1),
                x2,
            ),
            product,
        ),
        product,
    );
    PrefixSumChecksCols {
        x1,
        x2,
        eq_val,
        x1_mul_x2: product,
        acc,
        new_acc: builder::block_product(acc, eq_val, w),
        prev_new_acc,
    }
}

/// The accumulator after the first `n` pairs.
pub open spec fn acc_after<F: Field>(
    x1: Seq<Block<F>>,
    x2: Seq<Block<F>>,
    init: Block<F>,
    w: F,
    n: nat,
) -> Block<F>
    decreases n,
{
    if n == 0 {
        init
    } else {
        row_of(
            x1[n - 1],
            x2[n - 1],
            acc_after(x1, x2, init, w, (n - 1) as nat),
            zero_block(),
            w,
        ).new_acc
    }
}

/// The rows of a product of equalities.
pub open spec fn rows_of<F: Field>(
    x1: Seq<Block<F>>,
    x2: Seq<Block<F>>,
    init: Block<F>,
    w: F,
) -> Seq<PrefixSumChecksCols<F>> {
    Seq::new(
        x1.len(),
        |i: int|
            {
                let acc = acc_after(x1, x2, init, w, i as nat);
                row_of(
                    x1[i],
                    x2[i],
                    acc,
                    if i == 0 {
                        zero_block()
                    } else {
                        acc
                    },
                    w,
                )
            },
    )
}

/// The places of the row of a pair: the coordinates are read in each row, the accumulator in the
/// first, the result is written in the last, and the accumulators are handed from row to row.
pub open spec fn places_of<F: Field>(
    x1: Seq<Address<F>>,
    x2: Seq<Address<F>>,
    init: Address<F>,
    result: Address<F>,
    mult: F,
    chain: Seq<Address<F>>,
    i: int,
) -> PrefixSumChecksPreprocessedCols<F> {
    let last = x1.len() - 1;
    PrefixSumChecksPreprocessedCols {
        x1_mem: MemoryAccessCols { addr: x1[i], mult: F::one_elem().opposite() },
        x2_mem: MemoryAccessCols { addr: x2[i], mult: F::one_elem().opposite() },
        acc_mem: MemoryAccessCols { addr: init, mult: alu_base::flag::<F>(i == 0).opposite() },
        out_mem: MemoryAccessCols { addr: result, mult: mult.times(alu_base::flag(i == last)) },
        iteration_num: F::from_int(i),
        is_first: alu_base::flag(i == 0),
        is_last: alu_base::flag(i == last),
        is_real: F::one_elem(),
        chain_acc_out: if i < last {
            MemoryAccessCols { addr: chain[i], mult: F::one_elem() }
        } else {
            ext_exp_reverse_bits::no_access()
        },
        chain_acc_in: if i > 0 {
            MemoryAccessCols { addr: chain[i - 1], mult: F::one_elem().opposite() }
        } else {
            ext_exp_reverse_bits::no_access()
        },
    }
}

/// A row's constraints and accesses to memory.
pub open spec fn row_model<F: Field>(
    c: PrefixSumChecksCols<F>,
    p: PrefixSumChecksPreprocessedCols<F>,
    w: F,
) -> RowModel<F> {
    let expected = builder::block_sum(
        builder::block_difference(
            builder::block_difference(builder::single(F::one_elem()), c.x1),
            c.x2,
        ),
        builder::block_product(builder::single(F::from_int(2)), c.x1_mul_x2, w),
    );
    RowModel {
        constraints: builder::blocks_equal_when(
            p.is_real,
            c.x1_mul_x2,
            builder::block_product(c.x1, c.x2, w),
        ) + builder::blocks_equal_when(p.is_real, c.eq_val, expected) + builder::blocks_equal_when(
            p.is_real,
            c.new_acc,
            builder::block_product(c.acc, c.eq_val, w),
        ) + builder::blocks_equal_when_both(
            p.is_real,
            F::one_elem().minus(p.is_first),
            c.acc,
            c.prev_new_acc,
        ),
        interactions: seq![
            builder::sent(p.x1_mem.addr, c.x1, p.x1_mem.mult),
            builder::sent(p.x2_mem.addr, c.x2, p.x2_mem.mult),
            builder::sent(p.acc_mem.addr, c.acc, p.acc_mem.mult),
            builder::sent(p.out_mem.addr, c.new_acc, p.out_mem.mult),
            builder::sent(p.chain_acc_out.addr, c.new_acc, p.chain_acc_out.mult),
            builder::sent(p.chain_acc_in.addr, c.prev_new_acc, p.chain_acc_in.mult),
        ],
    }
}

/// The entries of a row.
pub open spec fn row_entries<F>(c: PrefixSumChecksCols<F>) -> Seq<F> {
    alu_ext::block_entries(c.x1) + alu_ext::block_entries(c.x2) + alu_ext::block_entries(c.eq_val) + alu_ext::block_entries(c.x1_mul_x2) + alu_ext::block_entries(c.acc) + alu_ext::block_entries(c.new_acc) + alu_ext::block_entries(c.prev_new_acc)
}

/// The entries of rows, one after the other.
pub open spec fn entries<F>(rows: Seq<PrefixSumChecksCols<F>>, n: nat) -> Seq<F>
    decreases n,
{
    if n == 0 {
        Seq::empty()
    } else {
        entries(rows, (n - 1) as nat) + row_entries(rows[n - 1])
    }
}

/// The entries of the places of a row.
pub open spec fn place_entries<F>(p: PrefixSumChecksPreprocessedCols<F>) -> Seq<F> {
    ext_exp_reverse_bits::access_pair(p.x1_mem) + ext_exp_reverse_bits::access_pair(p.x2_mem) + ext_exp_reverse_bits::access_pair(p.acc_mem) + ext_exp_reverse_bits::access_pair(p.out_mem) + seq![p.iteration_num, p.is_first, p.is_last, p.is_real] + ext_exp_reverse_bits::access_pair(p.chain_acc_out) + ext_exp_reverse_bits::access_pair(p.chain_acc_in)
}

/// The entries of the places of rows, one after the other.
pub open spec fn all_place_entries<F>(rows: Seq<PrefixSumChecksPreprocessedCols<F>>, n: nat) -> Seq<F>
    decreases n,
{
    if n == 0 {
        Seq::empty()
    } else {
        all_place_entries(rows, (n - 1) as nat) + place_entries(rows[n - 1])
    }
}

impl PrefixSumChecksChip {
    /// The table with the given rows.
    pub fn generate_trace<F: Field>(
        rows: &Vec<PrefixSumChecksCols<F>>,
        fixed_log2_rows: Option<usize>,
    ) -> (r: CompressedMatrix<F>)
        requires
            bits::pow2_above(rows@.len()) <= usize::MAX,
            fixed_log2_rows matches Some(log2_rows) ==> log2_rows < usize::BITS,
        ensures
            r.width == NUM_PREFIX_SUM_CHECKS_COLS,
            r.padding_row == (PaddingRow::<F>::Zero { width: r.width }),
            r.main@ == entries(rows@, rows@.len()),
            r.total_height as nat == utils::threshold_height(
                utils::padded_height(rows@.len(), fixed_log2_rows),
            ),
    {
        let n: usize = rows.len();
        let total_height: usize = utils::padded_rows_threshold(
            utils::next_power_of_two(n, fixed_log2_rows),
        );
        let mut values: Vec<F> = Vec::new();
        let mut i: usize = 0;
        while i < n
            invariant
                i <= n,
                n == rows@.len(),
                values@ == entries(rows@, i as nat),
            decreases n - i,
        {
            let c = rows[i];
            let ghost before = values@;
            push_block(&mut values, &c.x1);
            push_block(&mut values, &c.x2);
            push_block(&mut values, &c.eq_val);
            push_block(&mut values, &c.x1_mul_x2);
            push_block(&mut values, &c.acc);
            push_block(&mut values, &c.new_acc);
            push_block(&mut values, &c.prev_new_acc);
            assert(values@ =~= before + row_entries(c));
            i += 1;
        }
        CompressedMatrix::new(values, NUM_PREFIX_SUM_CHECKS_COLS, total_height)
    }

    /// The table of places with the given rows.
    pub fn generate_preprocessed_trace<F: Field>(
        rows: &Vec<PrefixSumChecksPreprocessedCols<F>>,
        fixed_log2_rows: Option<usize>,
    ) -> (r: CompressedMatrix<F>)
        requires
            bits::pow2_above(rows@.len()) <= usize::MAX,
            fixed_log2_rows matches Some(log2_rows) ==> log2_rows < usize::BITS,
        ensures
            r.width == NUM_PREFIX_SUM_CHECKS_PREPROCESS_COLS,
            r.padding_row == (PaddingRow::<F>::Zero { width: r.width }),
            r.main@ == all_place_entries(rows@, rows@.len()),
            r.total_height as nat == utils::threshold_height(
                utils::padded_height(rows@.len(), fixed_log2_rows),
            ),
    {
        let n: usize = rows.len();
        let total_height: usize = utils::padded_rows_threshold(
            utils::next_power_of_two(n, fixed_log2_rows),
        );
        let mut values: Vec<F> = Vec::new();
        let mut i: usize = 0;
        while i < n
            invariant
                i <= n,
                n == rows@.len(),
                values@ == all_place_entries(rows@, i as nat),
            decreases n - i,
        {
            let p = rows[i];
            let ghost before = values@;
            push_access(&mut values, &p.x1_mem);
            push_access(&mut values, &p.x2_mem);
            push_access(&mut values, &p.acc_mem);
            push_access(&mut values, &p.out_mem);
            values.push(p.iteration_num);
            values.push(p.is_first);
            values.push(p.is_last);
            values.push(p.is_real);
            push_access(&mut values, &p.chain_acc_out);
            push_access(&mut values, &p.chain_acc_in);
            assert(values@ =~= before + place_entries(p));
            i += 1;
        }
        CompressedMatrix::new(values, NUM_PREFIX_SUM_CHECKS_PREPROCESS_COLS, total_height)
    }

}

/// The row of a pair of coordinates, after an accumulator.
fn make_row<F: Field>(
    x1: &Block<F>,
    x2: &Block<F>,
    acc: &Block<F>,
    prev_new_acc: &Block<F>,
    w: F,
) -> (r: PrefixSumChecksCols<F>)
    ensures
        r == row_of(*x1, *x2, *acc, *prev_new_acc, w),
{
    let product = mul_blocks(x1, x2, w);
    let rest = sub_blocks(&sub_blocks(&single_block(F::one()), x1), x2);
    let eq_val = add_blocks(&add_blocks(&rest, &product), &product);
    PrefixSumChecksCols {
        x1: *x1,
        x2: *x2,
        eq_val,
        x1_mul_x2: product,
        acc: *acc,
        new_acc: mul_blocks(acc, &eq_val, w),
        prev_new_acc: *prev_new_acc,
    }
}

impl PrefixSumChecksChip {
    /// The rows of a product of equalities.
    pub fn event_rows<F: Field>(
        x1_vec: &Vec<Block<F>>,
        x2_vec: &Vec<Block<F>>,
        init_acc: &Block<F>,
        w: F,
    ) -> (r: Vec<PrefixSumChecksCols<F>>)
        requires
            x2_vec@.len() == x1_vec@.len(),
        ensures
            r@ == rows_of(x1_vec@, x2_vec@, *init_acc, w),
    {
        let n: usize = x1_vec.len();
        let mut rows: Vec<PrefixSumChecksCols<F>> = Vec::new();
        let mut acc = *init_acc;
        let mut prev_new_acc = single_block(F::zero());
        let mut i: usize = 0;
        while i < n
            invariant
                i <= n,
                n == x1_vec@.len(),
                n == x2_vec@.len(),
                acc == acc_after(x1_vec@, x2_vec@, *init_acc, w, i as nat),
                prev_new_acc == (if i == 0 {
                    zero_block()
                } else {
                    acc
                }),
                rows@.len() == i,
                forall|j: int|
                    0 <= j < i ==> #[trigger] rows@[j] == rows_of(
                        x1_vec@,
                        x2_vec@,
                        *init_acc,
                        w,
                    )[j],
            decreases n - i,
        {
            let row = make_row(&x1_vec[i], &x2_vec[i], &acc, &prev_new_acc, w);
            prev_new_acc = row.new_acc;
            acc = row.new_acc;
            rows.push(row);
            i += 1;
        }
        assert(rows@ =~= rows_of(x1_vec@, x2_vec@, *init_acc, w));
        rows
    }

    /// The places of the rows of a product of equalities.
    pub fn instr_rows<F: Field>(op: &PrefixOperands<F>) -> (r: Vec<
        PrefixSumChecksPreprocessedCols<F>,
    >)
        requires
            op.x2_vec@.len() == op.x1_vec@.len(),
            op.chain_acc_addrs@.len() + 1 >= op.x1_vec@.len(),
        ensures
            r@.len() == op.x1_vec@.len(),
            forall|i: int|
                0 <= i < r@.len() ==> #[trigger] r@[i] == places_of(
                    op.x1_vec@,
                    op.x2_vec@,
                    op.init_acc,
                    op.result,
                    op.mult,
                    op.chain_acc_addrs@,
                    i,
                ),
    {
        let n: usize = op.x1_vec.len();
        let mut rows: Vec<PrefixSumChecksPreprocessedCols<F>> = Vec::new();
        let mut i: usize = 0;
        while i < n
            invariant
                i <= n,
                n == op.x1_vec@.len(),
                n == op.x2_vec@.len(),
                op.chain_acc_addrs@.len() + 1 >= n,
                rows@.len() == i,
                forall|j: int|
                    0 <= j < i ==> #[trigger] rows@[j] == places_of(
                        op.x1_vec@,
                        op.x2_vec@,
                        op.init_acc,
                        op.result,
                        op.mult,
                        op.chain_acc_addrs@,
                        j,
                    ),
            decreases n - i,
        {
            let is_first: F = from_bool(i == 0);
            let is_last: F = from_bool(i == n - 1);
            rows.push(
                PrefixSumChecksPreprocessedCols {
                    x1_mem: MemoryAccessCols { addr: op.x1_vec[i], mult: F::one().neg() },
                    x2_mem: MemoryAccessCols { addr: op.x2_vec[i], mult: F::one().neg() },
                    acc_mem: MemoryAccessCols { addr: op.init_acc, mult: is_first.neg() },
                    out_mem: MemoryAccessCols { addr: op.result, mult: op.mult.mul(is_last) },
                    iteration_num: F::from_u64(i as u64),
                    is_first,
                    is_last,
                    is_real: F::one(),
                    chain_acc_out: if i < n - 1 {
                        MemoryAccessCols { addr: op.chain_acc_addrs[i], mult: F::one() }
                    } else {
                        without_access()
                    },
                    chain_acc_in: if i > 0 {
                        MemoryAccessCols { addr: op.chain_acc_addrs[i - 1], mult: F::one().neg() }
                    } else {
                        without_access()
                    },
                },
            );
            i += 1;
        }
        rows
    }

    /// The constraints and the accesses to memory of a row.
    pub fn eval_prefix_sum_checks<F: Field>(
        builder: &mut RowBuilder<F>,
        local: &PrefixSumChecksCols<F>,
        local_prepr: &PrefixSumChecksPreprocessedCols<F>,
    )
        ensures
            final(builder)@ == builder::joined(
                old(builder)@,
                row_model(*local, *local_prepr, old(builder).w),
            ),
            final(builder).w == old(builder).w,
    {
        let w = builder.w;
        let c = *local;
        let p = *local_prepr;
        let one = single_block(F::one());
        let two = single_block(F::from_u64(2));
        builder.send_block(p.x1_mem.addr, c.x1, p.x1_mem.mult);
        builder.send_block(p.x2_mem.addr, c.x2, p.x2_mem.mult);
        builder.send_block(p.acc_mem.addr, c.acc, p.acc_mem.mult);
        builder.assert_ext_eq_when(p.is_real, &c.x1_mul_x2, &mul_blocks(&c.x1, &c.x2, w));
        let expected_eq = add_blocks(
            &sub_blocks(&sub_blocks(&one, &c.x1), &c.x2),
            &mul_blocks(&two, &c.x1_mul_x2, w),
        );
        builder.assert_ext_eq_when(p.is_real, &c.eq_val, &expected_eq);
        builder.assert_ext_eq_when(p.is_real, &c.new_acc, &mul_blocks(&c.acc, &c.eq_val, w));
        builder.assert_ext_eq_when_both(
            p.is_real,
            F::one().sub(p.is_first),
            &c.acc,
            &c.prev_new_acc,
        );
        builder.send_block(p.out_mem.addr, c.new_acc, p.out_mem.mult);
        builder.send_block(p.chain_acc_out.addr, c.new_acc, p.chain_acc_out.mult);
        builder.send_block(p.chain_acc_in.addr, c.prev_new_acc, p.chain_acc_in.mult);
        assert(builder@ =~= builder::joined(old(builder)@, row_model(c, p, w)));
    }
}

/// What a row hands on is what the next row takes up.
pub proof fn law_rows_linked<F: Field>(
    x1: Seq<Block<F>>,
    x2: Seq<Block<F>>,
    init: Block<F>,
    w: F,
    i: int,
)
    requires
        0 < i < x1.len(),
    ensures
        rows_of(x1, x2, init, w)[i].prev_new_acc == rows_of(x1, x2, init, w)[i - 1].new_acc,
{
}

/// Twice a block is the block added to itself.
proof fn lemma_two_blocks<F: Field>(b: Block<F>, w: F)
    requires
        alu_ext::canonical_block(b),
        w.valid(),
    ensures
        builder::block_product(builder::single(F::from_int(2)), b, w) == builder::block_sum(b, b),
{
    broadcast use algebra::group_valid;

    let z = F::zero_elem();
    let two = F::from_int(2);
    F::law_constants();
    F::law_from_int(1, 1);
    algebra::lemma_products(b.0, F::one_elem(), F::one_elem());
    algebra::lemma_products(b.1, F::one_elem(), F::one_elem());
    algebra::lemma_products(b.2, F::one_elem(), F::one_elem());
    algebra::lemma_products(b.3, F::one_elem(), F::one_elem());
    algebra::lemma_products(b.0, two, z);
    algebra::lemma_products(b.1, two, z);
    algebra::lemma_products(b.2, two, z);
    algebra::lemma_products(b.3, two, z);
    algebra::lemma_products(w, z, z);
    F::law_plus(z, z, z);
    F::law_plus(b.0.plus(b.0), z, z);
    F::law_plus(b.1.plus(b.1), z, z);
    F::law_plus(b.2.plus(b.2), z, z);
    F::law_plus(b.3.plus(b.3), z, z);
}

/// The rows of a product of equalities satisfy the constraints of the table.
pub proof fn law_rows_satisfied<F: Field>(
    x1: Seq<Block<F>>,
    x2: Seq<Block<F>>,
    init: Block<F>,
    p: PrefixSumChecksPreprocessedCols<F>,
    w: F,
    i: int,
)
    requires
        w.valid(),
        alu_ext::canonical_block(init),
        0 <= i < x1.len(),
        p.is_real == F::one_elem(),
        p.is_first == alu_base::flag::<F>(i == 0),
    ensures
        builder::satisfied(row_model(rows_of(x1, x2, init, w)[i], p, w)),
{
    broadcast use algebra::group_valid;

    let one = F::one_elem();
    let z = F::zero_elem();
    F::law_constants();
    let c = rows_of(x1, x2, init, w)[i];
    assert(alu_ext::canonical_block(c.acc));
    assert(alu_ext::canonical_block(c.x1_mul_x2));
    assert(alu_ext::canonical_block(c.new_acc));
    lemma_two_blocks(c.x1_mul_x2, w);
    let rest = builder::block_difference(
        builder::block_difference(builder::single(one), c.x1),
        c.x2,
    );
    let m = c.x1_mul_x2;
    F::law_plus(rest.0, m.0, m.0);
    F::law_plus(rest.1, m.1, m.1);
    F::law_plus(rest.2, m.2, m.2);
    F::law_plus(rest.3, m.3, m.3);
    let expected = builder::block_sum(
        rest,
        builder::block_product(builder::single(F::from_int(2)), m, w),
    );
    assert(c.eq_val == expected);
    alu_ext::lemma_equal_when(one, m, m);
    alu_ext::lemma_equal_when(one, expected, expected);
    alu_ext::lemma_equal_when(one, c.new_acc, c.new_acc);
    let not_first = one.minus(p.is_first);
    if i == 0 {
        algebra::lemma_opposites(one, one);
    }
    alu_ext::lemma_equal_when(not_first, c.acc, c.prev_new_acc);
    let inner = builder::blocks_equal_when(not_first, c.acc, c.prev_new_acc);
    algebra::lemma_products(one, z, z);
    let both = builder::blocks_equal_when_both(one, not_first, c.acc, c.prev_new_acc);
    assert(inner[0] == z && inner[1] == z && inner[2] == z && inner[3] == z);
    assert(both[0] == z && both[1] == z && both[2] == z && both[3] == z);
    let s = row_model(c, p, w).constraints;
    assert forall|k: int| 0 <= k < s.len() implies #[trigger] s[k] == z by {
        if k < 4 {
            assert(s[k] == builder::blocks_equal_when(one, m, m)[k]);
        } else if k < 8 {
            assert(s[k] == builder::blocks_equal_when(one, expected, expected)[k - 4]);
        } else if k < 12 {
            assert(s[k] == builder::blocks_equal_when(one, c.new_acc, c.new_acc)[k - 8]);
        } else {
            assert(s[k] == both[k - 12]);
        }
    }
}

} // verus!
