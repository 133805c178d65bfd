//! The table of select operations.
use vstd::prelude::*;
use crate::bits;
use crate::field::algebra;
use crate::field::{Field, PrimeField32};
use crate::recursion::block;
use crate::recursion::block::RawProgram;
use crate::recursion::builder;
use crate::recursion::builder::{RowBuilder, RowModel};
use crate::recursion::chips::alu_base;
use crate::recursion::instruction::Instruction;
use crate::recursion::types::{Address, SelectInstr, SelectIo};
use crate::recursion::utils;
use crate::stark::trace::{CompressedMatrix, PaddingRow};

verus! {

pub const SELECT_COLS: usize = 5;

pub const SELECT_PREPROCESSED_COLS: usize = 8;

/// The table with one select operation in a row.
#[derive(Clone, Copy, Debug)]
pub struct SelectChip;

/// The values of a row.
#[derive(Clone, Copy, Debug)]
pub struct SelectCols<F> {
    pub vals: SelectIo<F>,
}

/// The places of a row.
#[derive(Clone, Copy, Debug)]
pub struct SelectPreprocessedCols<F> {
    pub is_real: F,
    pub addrs: SelectIo<Address<F>>,
    pub mult1: F,
    pub mult2: F,
}

/// A row's constraints and accesses: `out1` is `in1`, or `in2` where the bit is one, and the outputs
/// have the sum of the inputs.
pub open spec fn row_model<F: Field>(v: SelectIo<F>, p: SelectPreprocessedCols<F>) -> RowModel<F> {
    RowModel {
        constraints: seq![
            v.out1.minus(v.in1.plus(v.bit.times(v.in2.minus(v.in1)))),
            builder::equal_when(p.is_real, v.out1.plus(v.out2), v.in1.plus(v.in2)),
        ],
        interactions: seq![
            builder::received(p.addrs.bit, builder::single(v.bit), p.is_real),
            builder::received(p.addrs.in1, builder::single(v.in1), p.is_real),
            builder::received(p.addrs.in2, builder::single(v.in2), p.is_real),
            builder::sent(p.addrs.out1, builder::single(v.out1), p.mult1),
            builder::sent(p.addrs.out2, builder::single(v.out2), p.mult2),
        ],
    }
}

/// The entries of the rows, one after the other.
pub open spec fn value_entries<F>(events: Seq<SelectIo<F>>, n: nat) -> Seq<F>
    decreases n,
{
    if n == 0 {
        Seq::empty()
    } else {
        let e = events[n - 1];
        value_entries(events, (n - 1) as nat) + seq![e.bit, e.out1, e.out2, e.in1, e.in2]
    }
}

/// The entries of the places, one row after the other.
pub open spec fn access_entries<F: Field>(instrs: Seq<SelectInstr<F>>, n: nat) -> Seq<F>
    decreases n,
{
    if n == 0 {
        Seq::empty()
    } else {
        let i = instrs[n - 1];
        access_entries(instrs, (n - 1) as nat) + seq![
            F::one_elem(),
            i.addrs.bit.0,
            i.addrs.out1.0,
            i.addrs.out2.0,
            i.addrs.in1.0,
            i.addrs.in2.0,
            i.mult1,
            i.mult2,
        ]
    }
}

/// The select instructions.
pub open spec fn selects<F>(instrs: Seq<Instruction<F>>) -> Seq<SelectInstr<F>>
    decreases instrs.len(),
{
    if instrs.len() == 0 {
        Seq::empty()
    } else {
        let before = selects(instrs.drop_last());
        match instrs.last() {
            Instruction::Select(select) => before.push(select),
            _ => before,
        }
    }
}

impl SelectChip {
    /// The select instructions of a program.
    pub fn instrs<F: Field>(program: &RawProgram<Instruction<F>>) -> (r: Vec<SelectInstr<F>>)
        ensures
            r@ == selects(program.items()),
    {
        let items = program.list();
        let ghost all = program.items();
        let n: usize = items.len();
        let mut r: Vec<SelectInstr<F>> = Vec::new();
        let mut i: usize = 0;
        assert(all.take(0) =~= Seq::empty());
        while i < n
            invariant
                i <= n,
                n == items@.len(),
                block::refers(items@, all),
                r@ == selects(all.take(i as int)),
            decreases n - i,
        {
            proof {
                assert(all.take(i as int + 1).drop_last() =~= all.take(i as int));
                assert(*items@[i as int] == all[i as int]);
            }
            match items[i] {
                Instruction::Select(select) => {
                    r.push(*select);
                },
                _ => {},
            }
            i += 1;
        }
        assert(all.take(n as int) =~= all);
        r
    }

    /// The height of the table of places.
    pub fn preprocessed_num_rows(instrs_len: usize, fixed_log2_rows: Option<usize>) -> (r: usize)
        requires
            bits::pow2_above(instrs_len as nat) <= usize::MAX,
            fixed_log2_rows matches Some(log2_rows) ==> log2_rows < usize::BITS,
        ensures
            r as nat == alu_base::table_height(instrs_len as nat, fixed_log2_rows),
    {
        alu_base::padded_table_height(instrs_len, fixed_log2_rows)
    }

    /// The table of values.
    pub fn generate_trace<F: Field>(events: &Vec<SelectIo<F>>, fixed_log2_rows: Option<usize>) -> (r:
        CompressedMatrix<F>)
        requires
            bits::pow2_above(events@.len()) <= usize::MAX,
            fixed_log2_rows matches Some(log2_rows) ==> log2_rows < usize::BITS,
        ensures
            r.width == SELECT_COLS,
            r.padding_row == (PaddingRow::<F>::Zero { width: r.width }),
            r.main@ == value_entries(events@, events@.len()),
            r.total_height as nat == utils::threshold_height(
                utils::padded_height(events@.len(), fixed_log2_rows),
            ),
    {
        let n: usize = events.len();
        let total_height: usize = utils::padded_rows_threshold(
            utils::next_power_of_two(n, fixed_log2_rows),
        );
        let mut values: Vec<F> = Vec::new();
        let mut i: usize = 0;
        while i < n
            invariant
                i <= n,
                n == events@.len(),
                values@ == value_entries(events@, i as nat),
            decreases n - i,
        {
            let e = events[i];
            values.push(e.bit);
            values.push(e.out1);
            values.push(e.out2);
            values.push(e.in1);
            values.push(e.in2);
            i += 1;
            assert(values@ =~= value_entries(events@, i as nat));
        }
        CompressedMatrix::new(values, SELECT_COLS, total_height)
    }

    /// The table of places.
    pub fn generate_preprocessed_trace<F: Field>(
        instrs: &Vec<SelectInstr<F>>,
        fixed_log2_rows: Option<usize>,
    ) -> (r: CompressedMatrix<F>)
        requires
            bits::pow2_above(instrs@.len()) <= usize::MAX,
            fixed_log2_rows matches Some(log2_rows) ==> log2_rows < usize::BITS,
        ensures
            r.width == SELECT_PREPROCESSED_COLS,
            r.padding_row == (PaddingRow::<F>::Zero { width: r.width }),
            r.main@ == access_entries(instrs@, instrs@.len()),
            r.total_height as nat == alu_base::table_height(instrs@.len(), fixed_log2_rows),
    {
        let n: usize = instrs.len();
        let total_height: usize = alu_base::padded_table_height(n, fixed_log2_rows);
        let mut values: Vec<F> = Vec::new();
        let mut i: usize = 0;
        while i < n
            invariant
                i <= n,
                n == instrs@.len(),
                values@ == access_entries(instrs@, i as nat),
            decreases n - i,
        {
            let e = instrs[i];
            values.push(F::one());
            values.push(e.addrs.bit.0);
            values.push(e.addrs.out1.0);
            values.push(e.addrs.out2.0);
            values.push(e.addrs.in1.0);
            values.push(e.addrs.in2.0);
            values.push(e.mult1);
            values.push(e.mult2);
            i += 1;
            assert(values@ =~= access_entries(instrs@, i as nat));
        }
        CompressedMatrix::new(values, SELECT_PREPROCESSED_COLS, total_height)
    }

    /// The constraints and the accesses to memory of a row.
    pub fn eval<F: Field>(
        builder: &mut RowBuilder<F>,
        local: &SelectCols<F>,
        prep_local: &SelectPreprocessedCols<F>,
    )
        ensures
            final(builder)@ == builder::joined(old(builder)@, row_model(local.vals, *prep_local)),
            final(builder).w == old(builder).w,
    {
        let v = local.vals;
        let p = *prep_local;
        builder.receive_single(p.addrs.bit, v.bit, p.is_real);
        builder.receive_single(p.addrs.in1, v.in1, p.is_real);
        builder.receive_single(p.addrs.in2, v.in2, p.is_real);
        builder.send_single(p.addrs.out1, v.out1, p.mult1);
        builder.send_single(p.addrs.out2, v.out2, p.mult2);
        builder.assert_eq(v.out1, v.in1.add(v.bit.mul(v.in2.sub(v.in1))));
        builder.assert_eq_when(p.is_real, v.out1.add(v.out2), v.in1.add(v.in2));
        assert(builder@ =~= builder::joined(old(builder)@, row_model(v, p)));
    }
}

/// The outputs of a select operation satisfy the constraints of its table.
pub proof fn law_select_satisfied<F: PrimeField32>(
    bit: F,
    in1: F,
    in2: F,
    p: SelectPreprocessedCols<F>,
)
    requires
        bit.valid(),
        in1.valid(),
        in2.valid(),
        p.is_real.valid(),
    ensures
        ({
            let diff = bit.times(in2.minus(in1));
            builder::satisfied(
                row_model(
                    SelectIo { bit, out1: in1.plus(diff), out2: in2.minus(diff), in1, in2 },
                    p,
                ),
            )
        }),
{
    broadcast use algebra::group_valid;

    let diff = bit.times(in2.minus(in1));
    let z = F::zero_elem();
    F::law_constants();
    algebra::lemma_opposites(in1.plus(diff), z);
    algebra::lemma_regroup(in1, diff, in2.minus(diff));
    F::law_plus(diff, in2.minus(diff), z);
    algebra::lemma_opposites(in2, diff);
    algebra::lemma_opposites(in1.plus(in2), z);
    algebra::lemma_products(p.is_real, z, z);
}

} // verus!
