//! The table of constants.
use vstd::prelude::*;
use crate::bits;
use crate::field::Field;
use crate::recursion::block;
use crate::recursion::block::RawProgram;
use crate::recursion::builder;
use crate::recursion::builder::{RowBuilder, RowModel};
use crate::recursion::chips::alu_base;
use crate::recursion::chips::alu_base::{div_ceil, pad_zeros};
use crate::recursion::instruction::Instruction;
use crate::recursion::types::{Address, Block, MemAccessKind, MemInstr};
use crate::recursion::utils;
use crate::stark::trace::{CompressedMatrix, PaddingRow};

verus! {

pub const NUM_CONST_MEM_ENTRIES_PER_ROW: usize = 2;

pub const NUM_MEM_INIT_COLS: usize = 1;

pub const NUM_MEM_PREPROCESSED_INIT_COLS: usize = 12;

/// A place in memory and how often it is read, or written.
#[derive(Clone, Copy, Debug, PartialEq, Eq)]
pub struct MemoryAccessCols<F> {
    pub addr: Address<F>,
    pub mult: F,
}

pub type MemoryAccessColsChips<F> = MemoryAccessCols<F>;

/// The table of constants.
#[derive(Clone, Copy, Debug)]
pub struct MemoryChip;

/// The values of a row: none, in a single column of zeros.
#[derive(Clone, Copy, Debug)]
pub struct MemoryCols<F> {
    pub nothing: F,
}

/// The constants of a row, and their places.
#[derive(Clone, Copy, Debug)]
pub struct MemoryPreprocessedCols<F> {
    pub values_and_accesses: [(Block<F>, MemoryAccessCols<F>); NUM_CONST_MEM_ENTRIES_PER_ROW],
}

/// The constants that the instructions write, or read back with the opposite multiplicity.
pub open spec fn mem_accesses<F: Field>(instrs: Seq<Instruction<F>>) -> Seq<
    (Block<F>, MemoryAccessCols<F>),
>
    decreases instrs.len(),
{
    if instrs.len() == 0 {
        Seq::empty()
    } else {
        let before = mem_accesses(instrs.drop_last());
        match instrs.last() {
            Instruction::Mem(mem) => before.push(access_of(mem)),
            _ => before,
        }
    }
}

/// The constant of an instruction and its place.
pub open spec fn access_of<F: Field>(mem: MemInstr<F>) -> (Block<F>, MemoryAccessCols<F>) {
    (
        mem.vals.inner,
        MemoryAccessCols {
            addr: mem.addrs.inner,
            mult: match mem.kind {
                MemAccessKind::Read => mem.mult.opposite(),
                MemAccessKind::Write => mem.mult,
            },
        },
    )
}

/// The entries of the constants, one after the other.
pub open spec fn access_entries<F>(s: Seq<(Block<F>, MemoryAccessCols<F>)>, n: nat) -> Seq<F>
    decreases n,
{
    if n == 0 {
        Seq::empty()
    } else {
        let (b, a) = s[n - 1];
        access_entries(s, (n - 1) as nat) + seq![b.0, b.1, b.2, b.3, a.addr.0, a.mult]
    }
}

/// The constants of a row are sent.
pub open spec fn row_model<F: Field>(p: MemoryPreprocessedCols<F>) -> RowModel<F> {
    let s = p.values_and_accesses@;
    builder::exchanged(
        seq![
            builder::sent(s[0].1.addr, s[0].0, s[0].1.mult),
            builder::sent(s[1].1.addr, s[1].0, s[1].1.mult),
        ],
    )
}

impl MemoryChip {
    /// The constants that the instructions write or read back.
    pub fn accesses<F: Field>(program: &RawProgram<Instruction<F>>) -> (r: Vec<
        (Block<F>, MemoryAccessCols<F>),
    >)
        ensures
            r@ == mem_accesses(program.items()),
    {
        let items = program.list();
        let ghost all = program.items();
        let n: usize = items.len();
        let mut r: Vec<(Block<F>, MemoryAccessCols<F>)> = Vec::new();
        let mut i: usize = 0;
        assert(all.take(0) =~= Seq::empty());
        while i < n
            invariant
                i <= n,
                n == items@.len(),
                block::refers(items@, all),
                r@ == mem_accesses(all.take(i as int)),
            decreases n - i,
        {
            proof {
                assert(all.take(i as int + 1).drop_last() =~= all.take(i as int));
                assert(*items@[i as int] == all[i as int]);
            }
            match items[i] {
                Instruction::Mem(mem) => {
                    let mult = match mem.kind {
                        MemAccessKind::Read => mem.mult.neg(),
                        MemAccessKind::Write => mem.mult,
                    };
                    r.push((mem.vals.inner, MemoryAccessCols { addr: mem.addrs.inner, mult }));
                },
                _ => {},
            }
            i += 1;
        }
        assert(all.take(n as int) =~= all);
        r
    }

    /// The table of constants: two in a row, zeros in what is left of the last row.
    pub fn generate_preprocessed_trace<F: Field>(
        accesses: &Vec<(Block<F>, MemoryAccessCols<F>)>,
        fixed_log2_rows: Option<usize>,
    ) -> (r: CompressedMatrix<F>)
        requires
            (accesses@.len() + 2) * 6 <= usize::MAX,
            bits::pow2_above(alu_base::rows_for(accesses@.len(), 2)) <= usize::MAX,
            fixed_log2_rows matches Some(log2_rows) ==> log2_rows < usize::BITS,
        ensures
            r.width == NUM_MEM_PREPROCESSED_INIT_COLS,
            r.padding_row == (PaddingRow::<F>::Zero { width: r.width }),
            r.main@ == alu_base::zero_padded(
                access_entries(accesses@, accesses@.len()),
                alu_base::rows_for(accesses@.len(), 2) * NUM_MEM_PREPROCESSED_INIT_COLS,
            ),
            r.total_height as nat == utils::threshold_height(
                utils::padded_height(alu_base::rows_for(accesses@.len(), 2), fixed_log2_rows),
            ),
    {
        let n: usize = accesses.len();
        let real_nb_rows: usize = div_ceil(n, NUM_CONST_MEM_ENTRIES_PER_ROW);
        let mut values: Vec<F> = Vec::new();
        let mut i: usize = 0;
        while i < n
            invariant
                i <= n,
                n == accesses@.len(),
                values@ == access_entries(accesses@, i as nat),
                values@.len() == 6 * i,
            decreases n - i,
        {
            let (b, a) = accesses[i];
            values.push(b.0);
            values.push(b.1);
            values.push(b.2);
            values.push(b.3);
            values.push(a.addr.0);
            values.push(a.mult);
            i += 1;
            assert(values@ =~= access_entries(accesses@, i as nat));
        }
        let total_height: usize = utils::padded_rows_threshold(
            utils::next_power_of_two(real_nb_rows, fixed_log2_rows),
        );
        pad_zeros(&mut values, real_nb_rows * NUM_MEM_PREPROCESSED_INIT_COLS);
        CompressedMatrix::new(values, NUM_MEM_PREPROCESSED_INIT_COLS, total_height)
    }

    /// The table of values: zeros.
    pub fn generate_trace<F: Field>(mem_const_count: usize, fixed_log2_rows: Option<usize>) -> (r:
        CompressedMatrix<F>)
        requires
            bits::pow2_above(alu_base::rows_for(mem_const_count as nat, 2)) <= usize::MAX,
            fixed_log2_rows matches Some(log2_rows) ==> log2_rows < usize::BITS,
        ensures
            r.width == NUM_MEM_INIT_COLS,
            r.padding_row == (PaddingRow::<F>::Zero { width: r.width }),
            r.main@ == alu_base::zero_padded(
                Seq::<F>::empty(),
                alu_base::rows_for(mem_const_count as nat, 2) as int,
            ),
            r.total_height as nat == utils::threshold_height(
                utils::padded_height(
                    alu_base::rows_for(mem_const_count as nat, 2),
                    fixed_log2_rows,
                ),
            ),
    {
        let real_nb_rows: usize = div_ceil(mem_const_count, NUM_CONST_MEM_ENTRIES_PER_ROW);
        let total_height: usize = utils::padded_rows_threshold(
            utils::next_power_of_two(real_nb_rows, fixed_log2_rows),
        );
        let mut values: Vec<F> = Vec::new();
        pad_zeros(&mut values, real_nb_rows);
        CompressedMatrix::new(values, NUM_MEM_INIT_COLS, total_height)
    }

    /// The accesses to memory of a row.
    pub fn eval<F: Field>(builder: &mut RowBuilder<F>, prep_local: &MemoryPreprocessedCols<F>)
        ensures
            final(builder)@ == builder::joined(old(builder)@, row_model(*prep_local)),
            final(builder).w == old(builder).w,
    {
        let (b0, a0) = prep_local.values_and_accesses[0];
        let (b1, a1) = prep_local.values_and_accesses[1];
        builder.send_block(a0.addr, b0, a0.mult);
        builder.send_block(a1.addr, b1, a1.mult);
        assert(builder@ =~= builder::joined(old(builder)@, row_model(*prep_local)));
    }
}

} // verus!
