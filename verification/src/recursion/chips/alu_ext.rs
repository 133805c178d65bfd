//! The table of the extension field unit.
use vstd::prelude::*;
use crate::bits;
use crate::field;
use crate::field::algebra;
use crate::field::extension::BinomialExtension;
use crate::field::{BinomiallyExtendable, ExtensionField, Field};
use crate::recursion::block;
use crate::recursion::block::RawProgram;
use crate::recursion::builder;
use crate::recursion::builder::{add_blocks, mul_blocks, RowBuilder, RowModel};
use crate::recursion::chips::alu_base;
use crate::recursion::chips::alu_base::{div_ceil, from_bool, pad_zeros, padded_table_height};
use crate::recursion::instruction;
use crate::recursion::instruction::Instruction;
use crate::recursion::semantics;
use crate::recursion::types::{Address, Block, ExtAluInstr, ExtAluIo, ExtAluOpcode};
use crate::stark::trace::{CompressedMatrix, PaddingRow};

verus! {

pub const NUM_EXT_ALU_ENTRIES_PER_ROW: usize = 4;

pub const NUM_EXT_ALU_VALUE_COLS: usize = 12;

pub const NUM_EXT_ALU_ACCESS_COLS: usize = 8;

pub const NUM_EXT_ALU_COLS: usize = 48;

pub const NUM_EXT_ALU_PREPROCESSED_COLS: usize = 32;

/// The table with four operations in a row.
#[derive(Clone, Copy, Debug)]
pub struct ExtAluChip;

/// The values of one operation.
#[derive(Clone, Copy, Debug)]
pub struct ExtAluValueCols<F> {
    pub vals: ExtAluIo<Block<F>>,
}

/// The places of one operation, and which one it is.
#[derive(Clone, Copy, Debug)]
pub struct ExtAluAccessCols<F> {
    pub addrs: ExtAluIo<Address<F>>,
    pub is_add: F,
    pub is_sub: F,
    pub is_mul: F,
    pub is_div: F,
    pub mult: F,
}

/// The values of a row.
#[derive(Clone, Debug)]
pub struct ExtAluCols<F> {
    pub values: Vec<ExtAluValueCols<F>>,
}

/// The places of a row.
#[derive(Clone, Debug)]
pub struct ExtAluPreprocessedCols<F> {
    pub accesses: Vec<ExtAluAccessCols<F>>,
}

/// The places of an instruction.
pub open spec fn access_of<F: Field>(instr: ExtAluInstr<F>) -> ExtAluAccessCols<F> {
    ExtAluAccessCols {
        addrs: instr.addrs,
        is_add: alu_base::flag(instr.opcode == ExtAluOpcode::AddE),
        is_sub: alu_base::flag(instr.opcode == ExtAluOpcode::SubE),
        is_mul: alu_base::flag(instr.opcode == ExtAluOpcode::MulE),
        is_div: alu_base::flag(instr.opcode == ExtAluOpcode::DivE),
        mult: instr.mult,
    }
}

/// The sum of the operation's flags.
pub open spec fn is_real<F: Field>(a: ExtAluAccessCols<F>) -> F {
    a.is_add.plus(a.is_sub).plus(a.is_mul).plus(a.is_div)
}

/// What one operation contributes to a row: one flag at most is set, the output is what the flag
/// says, and the inputs are received and the output sent.
pub open spec fn entry_model<F: Field>(
    v: ExtAluIo<Block<F>>,
    a: ExtAluAccessCols<F>,
    w: F,
) -> RowModel<F> {
    let active = is_real(a);
    RowModel {
        constraints: seq![active.times(active.minus(F::one_elem()))]
            + builder::blocks_equal_when(a.is_add, builder::block_sum(v.in1, v.in2), v.out)
            + builder::blocks_equal_when(a.is_sub, v.in1, builder::block_sum(v.in2, v.out))
            + builder::blocks_equal_when(
            a.is_mul,
            builder::block_product(v.in1, v.in2, w),
            v.out,
        ) + builder::blocks_equal_when(
            a.is_div,
            v.in1,
            builder::block_product(v.in2, v.out, w),
        ),
        interactions: seq![
            builder::received(a.addrs.in1, v.in1, active),
            builder::received(a.addrs.in2, v.in2, active),
            builder::sent(a.addrs.out, v.out, a.mult),
        ],
    }
}

/// What the first `n` operations contribute.
pub open spec fn row_model<F: Field>(
    values: Seq<ExtAluValueCols<F>>,
    accesses: Seq<ExtAluAccessCols<F>>,
    w: F,
    n: nat,
) -> RowModel<F>
    decreases n,
{
    if n == 0 {
        builder::nothing()
    } else {
        builder::joined(
            row_model(values, accesses, w, (n - 1) as nat),
            entry_model(values[n - 1].vals, accesses[n - 1], w),
        )
    }
}

pub open spec fn block_entries<F>(b: Block<F>) -> Seq<F> {
    seq![b.0, b.1, b.2, b.3]
}

/// Appends the four elements of a block.
pub fn push_block<F: Field>(values: &mut Vec<F>, b: &Block<F>)
    ensures
        final(values)@ == old(values)@ + block_entries(*b),
{
    values.push(b.0);
    values.push(b.1);
    values.push(b.2);
    values.push(b.3);
    assert(values@ =~= old(values)@ + block_entries(*b));
}

/// The entries of the values of operations, one after the other.
pub open spec fn value_entries<F>(events: Seq<ExtAluIo<Block<F>>>, n: nat) -> Seq<F>
    decreases n,
{
    if n == 0 {
        Seq::empty()
    } else {
        let e = events[n - 1];
        value_entries(events, (n - 1) as nat) + block_entries(e.out) + block_entries(e.in1)
            + block_entries(e.in2)
    }
}

/// The entries of the places of operations, one after the other.
pub open spec fn access_entries<F: Field>(instrs: Seq<ExtAluInstr<F>>, n: nat) -> Seq<F>
    decreases n,
{
    if n == 0 {
        Seq::empty()
    } else {
        let a = access_of(instrs[n - 1]);
        access_entries(instrs, (n - 1) as nat) + seq![
            a.addrs.out.0,
            a.addrs.in1.0,
            a.addrs.in2.0,
            a.is_add,
            a.is_sub,
            a.is_mul,
            a.is_div,
            a.mult,
        ]
    }
}

/// The instructions for the extension field unit.
pub open spec fn alu_instrs<F>(instrs: Seq<Instruction<F>>) -> Seq<ExtAluInstr<F>>
    decreases instrs.len(),
{
    if instrs.len() == 0 {
        Seq::empty()
    } else {
        let before = alu_instrs(instrs.drop_last());
        match instrs.last() {
            Instruction::ExtAlu(alu) => before.push(alu),
            _ => before,
        }
    }
}

impl ExtAluChip {
    /// The instructions for the extension field unit.
    pub fn instrs<F: Field>(program: &RawProgram<Instruction<F>>) -> (r: Vec<ExtAluInstr<F>>)
        ensures
            r@ == alu_instrs(program.items()),
    {
        let items = program.list();
        let ghost all = program.items();
        let n: usize = items.len();
        let mut r: Vec<ExtAluInstr<F>> = Vec::new();
        let mut i: usize = 0;
        assert(all.take(0) =~= Seq::empty());
        while i < n
            invariant
                i <= n,
                n == items@.len(),
                block::refers(items@, all),
                r@ == alu_instrs(all.take(i as int)),
            decreases n - i,
        {
            proof {
                assert(all.take(i as int + 1).drop_last() =~= all.take(i as int));
                assert(*items@[i as int] == all[i as int]);
            }
            match items[i] {
                Instruction::ExtAlu(alu) => {
                    r.push(*alu);
                },
                _ => {},
            }
            i += 1;
        }
        assert(all.take(n as int) =~= all);
        r
    }

    /// The height of the table of places.
    pub fn preprocessed_num_rows(instrs_len: usize, fixed_log2_rows: Option<usize>) -> (r: usize)
        requires
            bits::pow2_above(alu_base::rows_for(instrs_len as nat, 4)) <= usize::MAX,
            fixed_log2_rows matches Some(log2_rows) ==> log2_rows < usize::BITS,
        ensures
            r as nat == alu_base::table_height(
                alu_base::rows_for(instrs_len as nat, 4),
                fixed_log2_rows,
            ),
    {
        padded_table_height(div_ceil(instrs_len, NUM_EXT_ALU_ENTRIES_PER_ROW), fixed_log2_rows)
    }

    /// The table of values: four operations in a row, zeros in what is left of the last row.
    pub fn generate_trace<F: Field>(
        events: &Vec<ExtAluIo<Block<F>>>,
        fixed_log2_rows: Option<usize>,
    ) -> (r: CompressedMatrix<F>)
        requires
            (events@.len() + 4) * NUM_EXT_ALU_VALUE_COLS <= usize::MAX,
            bits::pow2_above(alu_base::rows_for(events@.len(), 4)) <= usize::MAX,
            fixed_log2_rows matches Some(log2_rows) ==> log2_rows < usize::BITS,
        ensures
            r.width == NUM_EXT_ALU_COLS,
            r.padding_row == (PaddingRow::<F>::Zero { width: r.width }),
            r.main@ == alu_base::zero_padded(
                value_entries(events@, events@.len()),
                alu_base::rows_for(events@.len(), 4) * NUM_EXT_ALU_COLS,
            ),
            r.total_height as nat == alu_base::table_height(
                alu_base::rows_for(events@.len(), 4),
                fixed_log2_rows,
            ),
    {
        let n: usize = events.len();
        let real_nb_rows: usize = div_ceil(n, NUM_EXT_ALU_ENTRIES_PER_ROW);
        let total_height: usize = padded_table_height(real_nb_rows, fixed_log2_rows);
        let mut values: Vec<F> = Vec::new();
        let mut i: usize = 0;
        while i < n
            invariant
                i <= n,
                n == events@.len(),
                values@ == value_entries(events@, i as nat),
                values@.len() == 12 * i,
            decreases n - i,
        {
            push_block(&mut values, &events[i].out);
            push_block(&mut values, &events[i].in1);
            push_block(&mut values, &events[i].in2);
            i += 1;
        }
        pad_zeros(&mut values, real_nb_rows * NUM_EXT_ALU_COLS);
        CompressedMatrix::new(values, NUM_EXT_ALU_COLS, total_height)
    }

    /// The table of places: four operations in a row, zeros in what is left of the last row.
    pub fn generate_preprocessed_trace<F: Field>(
        instrs: &Vec<ExtAluInstr<F>>,
        fixed_log2_rows: Option<usize>,
    ) -> (r: CompressedMatrix<F>)
        requires
            (instrs@.len() + 4) * NUM_EXT_ALU_ACCESS_COLS <= usize::MAX,
            bits::pow2_above(alu_base::rows_for(instrs@.len(), 4)) <= usize::MAX,
            fixed_log2_rows matches Some(log2_rows) ==> log2_rows < usize::BITS,
        ensures
            r.width == NUM_EXT_ALU_PREPROCESSED_COLS,
            r.padding_row == (PaddingRow::<F>::Zero { width: r.width }),
            r.main@ == alu_base::zero_padded(
                access_entries(instrs@, instrs@.len()),
                alu_base::rows_for(instrs@.len(), 4) * NUM_EXT_ALU_PREPROCESSED_COLS,
            ),
            r.total_height as nat == alu_base::table_height(
                alu_base::rows_for(instrs@.len(), 4),
                fixed_log2_rows,
            ),
    {
        let n: usize = instrs.len();
        let real_nb_rows: usize = div_ceil(n, NUM_EXT_ALU_ENTRIES_PER_ROW);
        let total_height: usize = padded_table_height(real_nb_rows, fixed_log2_rows);
        let mut values: Vec<F> = Vec::new();
        let mut i: usize = 0;
        while i < n
            invariant
                i <= n,
                n == instrs@.len(),
                values@ == access_entries(instrs@, i as nat),
                values@.len() == 8 * i,
            decreases n - i,
        {
            let opcode = instrs[i].opcode;
            values.push(instrs[i].addrs.out.0);
            values.push(instrs[i].addrs.in1.0);
            values.push(instrs[i].addrs.in2.0);
            values.push(from_bool(opcode == ExtAluOpcode::AddE));
            values.push(from_bool(opcode == ExtAluOpcode::SubE));
            values.push(from_bool(opcode == ExtAluOpcode::MulE));
            values.push(from_bool(opcode == ExtAluOpcode::DivE));
            values.push(instrs[i].mult);
            i += 1;
            assert(values@ =~= access_entries(instrs@, i as nat));
        }
        pad_zeros(&mut values, real_nb_rows * NUM_EXT_ALU_PREPROCESSED_COLS);
        CompressedMatrix::new(values, NUM_EXT_ALU_PREPROCESSED_COLS, total_height)
    }

    /// The constraints and the accesses to memory of a row.
    pub fn eval<F: Field>(
        builder: &mut RowBuilder<F>,
        local: &ExtAluCols<F>,
        prep_local: &ExtAluPreprocessedCols<F>,
    )
        requires
            local.values@.len() == NUM_EXT_ALU_ENTRIES_PER_ROW,
            prep_local.accesses@.len() == NUM_EXT_ALU_ENTRIES_PER_ROW,
        ensures
            final(builder)@ == builder::joined(
                old(builder)@,
                row_model(local.values@, prep_local.accesses@, old(builder).w, 4),
            ),
            final(builder).w == old(builder).w,
    {
        let w = builder.w;
        let mut i: usize = 0;
        assert(builder@ =~= builder::joined(
            old(builder)@,
            row_model(local.values@, prep_local.accesses@, w, 0),
        ));
        while i < NUM_EXT_ALU_ENTRIES_PER_ROW
            invariant
                i <= NUM_EXT_ALU_ENTRIES_PER_ROW,
                local.values@.len() == NUM_EXT_ALU_ENTRIES_PER_ROW,
                prep_local.accesses@.len() == NUM_EXT_ALU_ENTRIES_PER_ROW,
                builder@ == builder::joined(
                    old(builder)@,
                    row_model(local.values@, prep_local.accesses@, w, i as nat),
                ),
                w == old(builder).w,
                builder.w == w,
            decreases NUM_EXT_ALU_ENTRIES_PER_ROW - i,
        {
            let v = local.values[i].vals;
            let a = prep_local.accesses[i];
            let ghost before = builder@;
            let active = a.is_add.add(a.is_sub).add(a.is_mul).add(a.is_div);
            builder.assert_bool(active);
            builder.assert_ext_eq_when(a.is_add, &add_blocks(&v.in1, &v.in2), &v.out);
            builder.assert_ext_eq_when(a.is_sub, &v.in1, &add_blocks(&v.in2, &v.out));
            builder.assert_ext_eq_when(a.is_mul, &mul_blocks(&v.in1, &v.in2, w), &v.out);
            builder.assert_ext_eq_when(a.is_div, &v.in1, &mul_blocks(&v.in2, &v.out, w));
            builder.receive_block(a.addrs.in1, v.in1, active);
            builder.receive_block(a.addrs.in2, v.in2, active);
            builder.send_block(a.addrs.out, v.out, a.mult);
            i += 1;
            assert(builder@ =~= builder::joined(before, entry_model(v, a, w)));
            assert(builder@ =~= builder::joined(
                old(builder)@,
                row_model(local.values@, prep_local.accesses@, w, i as nat),
            ));
        }
    }
}

/// The block of an extension element, by its coefficients.
pub proof fn lemma_block_coeffs<F: BinomiallyExtendable>(x: BinomialExtension<F>, b: Block<F>)
    ensures
        instruction::ext_block::<F, BinomialExtension<F>>(x) == Block(x.c0, x.c1, x.c2, x.c3),
        instruction::block_ext::<F, BinomialExtension<F>>(b) == (BinomialExtension {
            c0: b.0,
            c1: b.1,
            c2: b.2,
            c3: b.3,
        }),
{
    BinomialExtension::<F>::law_coeffs(x, seq![b.0, b.1, b.2, b.3]);
    let y = instruction::block_ext::<F, BinomialExtension<F>>(b);
    BinomialExtension::<F>::law_coeffs(y, seq![b.0, b.1, b.2, b.3]);
    assert(y.base_coeffs() =~= seq![b.0, b.1, b.2, b.3]);
    assert(y.base_coeffs()[0] == b.0);
    assert(y.base_coeffs()[1] == b.1);
    assert(y.base_coeffs()[2] == b.2);
    assert(y.base_coeffs()[3] == b.3);
}

/// Sums, differences and products of extension elements are those of their blocks.
pub proof fn law_block_arithmetic<F: BinomiallyExtendable>(
    x: BinomialExtension<F>,
    y: BinomialExtension<F>,
)
    ensures
        ({
            let a = instruction::ext_block::<F, BinomialExtension<F>>(x);
            let b = instruction::ext_block::<F, BinomialExtension<F>>(y);
            &&& instruction::ext_block::<F, BinomialExtension<F>>(x.plus(y))
                == builder::block_sum(a, b)
            &&& instruction::ext_block::<F, BinomialExtension<F>>(x.minus(y))
                == builder::block_difference(a, b)
            &&& instruction::ext_block::<F, BinomialExtension<F>>(x.times(y))
                == builder::block_product(a, b, F::from_int(F::w_int()))
        }),
{
    let z = Block(F::zero_elem(), F::zero_elem(), F::zero_elem(), F::zero_elem());
    lemma_block_coeffs(x, z);
    lemma_block_coeffs(y, z);
    lemma_block_coeffs(x.plus(y), z);
    lemma_block_coeffs(x.minus(y), z);
    lemma_block_coeffs(x.times(y), z);
    let w = F::from_int(F::w_int());
    let p = builder::block_product(
        Block(x.c0, x.c1, x.c2, x.c3),
        Block(y.c0, y.c1, y.c2, y.c3),
        w,
    );
    BinomialExtension::<F>::lemma_product(
        x,
        y,
        BinomialExtension { c0: p.0, c1: p.1, c2: p.2, c3: p.3 },
    );
}

/// A block whose condition vanishes, or which equals the other, leaves no residue.
pub proof fn lemma_equal_when<F: Field>(c: F, x: Block<F>, y: Block<F>)
    requires
        c.valid(),
        canonical_block(x),
        canonical_block(y),
        c == F::zero_elem() || x == y,
    ensures
        forall|i: int|
            0 <= i < 4 ==> #[trigger] builder::blocks_equal_when(c, x, y)[i] == F::zero_elem(),
{
    broadcast use algebra::group_valid;

    let z = F::zero_elem();
    F::law_constants();
    algebra::lemma_products(c, z, z);
    algebra::lemma_opposites(x.0, z);
    algebra::lemma_opposites(x.1, z);
    algebra::lemma_opposites(x.2, z);
    algebra::lemma_opposites(x.3, z);
    algebra::lemma_products(x.0.minus(y.0), z, z);
    algebra::lemma_products(x.1.minus(y.1), z, z);
    algebra::lemma_products(x.2.minus(y.2), z, z);
    algebra::lemma_products(x.3.minus(y.3), z, z);
    let s = builder::blocks_equal_when(c, x, y);
    assert(s[0] == z && s[1] == z && s[2] == z && s[3] == z);
}

/// The elements of a block are canonical.
pub open spec fn canonical_block<F: Field>(b: Block<F>) -> bool {
    b.0.valid() && b.1.valid() && b.2.valid() && b.3.valid()
}

/// The values that the extension field unit leaves satisfy the constraints of its table, where a
/// divisor that is not zero has an inverse.
pub proof fn law_alu_satisfied<F: BinomiallyExtendable>(
    instr: ExtAluInstr<F>,
    a: Block<F>,
    b: Block<F>,
)
    requires
        canonical_block(a),
        canonical_block(b),
        instruction::block_ext::<F, BinomialExtension<F>>(b) == BinomialExtension::<F>::zero_elem()
            || field::is_unit(instruction::block_ext::<F, BinomialExtension<F>>(b)),
        semantics::ext_result::<F, BinomialExtension<F>>(instr, a, b) is Ok,
    ensures
        builder::satisfied(
            entry_model(
                (ExtAluIo {
                    out: semantics::ext_result::<F, BinomialExtension<F>>(instr, a, b)->Ok_0,
                    in1: a,
                    in2: b,
                }),
                access_of(instr),
                F::from_int(F::w_int()),
            ),
        ),
{
    broadcast use algebra::group_valid;

    let x = instruction::block_ext::<F, BinomialExtension<F>>(a);
    let y = instruction::block_ext::<F, BinomialExtension<F>>(b);
    let out = semantics::ext_result::<F, BinomialExtension<F>>(instr, a, b)->Ok_0;
    let v = ExtAluIo { out, in1: a, in2: b };
    let c = access_of(instr);
    let w = F::from_int(F::w_int());
    let z = F::zero_elem();
    let one = F::one_elem();
    let zero = BinomialExtension::<F>::zero_elem();
    F::law_constants();
    F::law_from_int(F::w_int(), 0);
    lemma_block_coeffs(x, a);
    lemma_block_coeffs(y, b);
    assert(x.valid() && y.valid());
    BinomialExtension::<F>::law_constants();
    BinomialExtension::<F>::law_closed(x, y);
    let e = match instr.opcode {
        ExtAluOpcode::AddE => x.plus(y),
        ExtAluOpcode::SubE => x.minus(y),
        ExtAluOpcode::MulE => x.times(y),
        ExtAluOpcode::DivE => semantics::checked_quotient(x, y)->0,
    };
    if instr.opcode == ExtAluOpcode::DivE {
        if y != zero {
            algebra::lemma_unit(y);
            BinomialExtension::<F>::law_closed(x, field::inverse(y));
        }
    }
    assert(e.valid());
    lemma_block_coeffs(e, a);
    assert(out == Block(e.c0, e.c1, e.c2, e.c3));
    law_block_arithmetic(x, y);
    law_block_arithmetic(y, e);
    match instr.opcode {
        ExtAluOpcode::AddE => {},
        ExtAluOpcode::SubE => {
            BinomialExtension::<F>::law_plus(y, e, zero);
            algebra::lemma_opposites(x, y);
            assert(y.plus(e) == x);
            lemma_block_coeffs(y.plus(e), a);
        },
        ExtAluOpcode::MulE => {},
        ExtAluOpcode::DivE => {
            if y != zero {
                let i = field::inverse(y);
                algebra::lemma_products(y, x, i);
                algebra::lemma_products(x, y, i);
            } else {
                algebra::lemma_products(y, y, y);
            }
            assert(y.times(e) == x);
            lemma_block_coeffs(y.times(e), a);
        },
    }
    F::law_plus(z, z, z);
    F::law_plus(one, z, z);
    F::law_plus(z, one, z);
    assert(is_real(c) == one);
    algebra::lemma_opposites(one, one);
    algebra::lemma_products(one, z, z);
    let sum = builder::block_sum(a, b);
    let rest = builder::block_sum(b, out);
    let product = builder::block_product(a, b, w);
    let back = builder::block_product(b, out, w);
    lemma_equal_when(c.is_add, sum, out);
    lemma_equal_when(c.is_sub, a, rest);
    lemma_equal_when(c.is_mul, product, out);
    lemma_equal_when(c.is_div, a, back);
    let s = entry_model(v, c, w).constraints;
    assert forall|i: int| 0 <= i < s.len() implies #[trigger] s[i] == z by {
        if i == 0 {
        } else if i < 5 {
            assert(s[i] == builder::blocks_equal_when(c.is_add, sum, out)[i - 1]);
        } else if i < 9 {
            assert(s[i] == builder::blocks_equal_when(c.is_sub, a, rest)[i - 5]);
        } else if i < 13 {
            assert(s[i] == builder::blocks_equal_when(c.is_mul, product, out)[i - 9]);
        } else {
            assert(s[i] == builder::blocks_equal_when(c.is_div, a, back)[i - 13]);
        }
    }
}

} // verus!
