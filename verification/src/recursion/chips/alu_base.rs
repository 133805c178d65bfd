//! The table of the base field unit.
use vstd::prelude::*;
use crate::bits;
use crate::field;
use crate::field::algebra;
use crate::field::{Field, PrimeField32};
use crate::recursion::block;
use crate::recursion::block::RawProgram;
use crate::recursion::builder;
use crate::recursion::builder::{RowBuilder, RowModel};
use crate::recursion::instruction::Instruction;
use crate::recursion::semantics;
use crate::recursion::types::{Address, BaseAluInstr, BaseAluIo, BaseAluOpcode};
use crate::recursion::utils;
use crate::stark::trace::{CompressedMatrix, PaddingRow};

verus! {

pub const NUM_BASE_ALU_ENTRIES_PER_ROW: usize = 4;

pub const NUM_BASE_ALU_SHRINK_ENTRIES_PER_ROW: usize = 2;

pub const NUM_BASE_ALU_VALUE_COLS: usize = 3;

pub const NUM_BASE_ALU_ACCESS_COLS: usize = 8;

pub const NUM_BASE_ALU_COLS: usize = 12;

pub const NUM_BASE_ALU_PREPROCESSED_COLS: usize = 32;

/// The table with `N` operations in a row.
#[derive(Clone, Copy, Debug)]
pub struct BaseAluChip<const N: usize>;

/// The values of one operation.
#[derive(Clone, Copy, Debug)]
pub struct BaseAluValueCols<F> {
    pub vals: BaseAluIo<F>,
}

/// The places of one operation, and which one it is.
#[derive(Clone, Copy, Debug)]
pub struct BaseAluAccessCols<F> {
    pub addrs: BaseAluIo<Address<F>>,
    pub is_add: F,
    pub is_sub: F,
    pub is_mul: F,
    pub is_div: F,
    pub mult: F,
}

/// The values of a row.
#[derive(Clone, Debug)]
pub struct BaseAluCols<F> {
    pub values: Vec<BaseAluValueCols<F>>,
}

/// The places of a row.
#[derive(Clone, Debug)]
pub struct BaseAluPreprocessedCols<F> {
    pub accesses: Vec<BaseAluAccessCols<F>>,
}

/// An element for a truth value.
pub open spec fn flag<F: Field>(b: bool) -> F {
    if b {
        F::one_elem()
    } else {
        F::zero_elem()
    }
}

pub fn from_bool<F: Field>(b: bool) -> (r: F)
    ensures
        r == flag::<F>(b),
{
    if b {
        F::one()
    } else {
        F::zero()
    }
}

/// The places of an instruction.
pub open spec fn access_of<F: Field>(instr: BaseAluInstr<F>) -> BaseAluAccessCols<F> {
    BaseAluAccessCols {
        addrs: instr.addrs,
        is_add: flag(instr.opcode == BaseAluOpcode::AddF),
        is_sub: flag(instr.opcode == BaseAluOpcode::SubF),
        is_mul: flag(instr.opcode == BaseAluOpcode::MulF),
        is_div: flag(instr.opcode == BaseAluOpcode::DivF),
        mult: instr.mult,
    }
}

/// The sum of the operation's flags.
pub open spec fn is_real<F: Field>(a: BaseAluAccessCols<F>) -> F {
    a.is_add.plus(a.is_sub).plus(a.is_mul).plus(a.is_div)
}

/// What one operation contributes to a row: one flag at most is set, the output is what the flag
/// says, and the inputs are received and the output sent.
pub open spec fn entry_model<F: Field>(v: BaseAluIo<F>, a: BaseAluAccessCols<F>) -> RowModel<F> {
    let active = is_real(a);
    RowModel {
        constraints: seq![
            active.times(active.minus(F::one_elem())),
            builder::equal_when(a.is_add, v.in1.plus(v.in2), v.out),
            builder::equal_when(a.is_sub, v.in1, v.in2.plus(v.out)),
            builder::equal_when(a.is_mul, v.out, v.in1.times(v.in2)),
            builder::equal_when(a.is_div, v.in2.times(v.out), v.in1),
        ],
        interactions: seq![
            builder::received(a.addrs.in1, builder::single(v.in1), active),
            builder::received(a.addrs.in2, builder::single(v.in2), active),
            builder::sent(a.addrs.out, builder::single(v.out), a.mult),
        ],
    }
}

/// What the first `n` operations contribute.
pub open spec fn row_model<F: Field>(
    values: Seq<BaseAluValueCols<F>>,
    accesses: Seq<BaseAluAccessCols<F>>,
    n: nat,
) -> RowModel<F>
    decreases n,
{
    if n == 0 {
        builder::nothing()
    } else {
        builder::joined(
            row_model(values, accesses, (n - 1) as nat),
            entry_model(values[n - 1].vals, accesses[n - 1]),
        )
    }
}

/// The entries of the values of operations, one after the other.
pub open spec fn value_entries<F>(events: Seq<BaseAluIo<F>>, n: nat) -> Seq<F>
    decreases n,
{
    if n == 0 {
        Seq::empty()
    } else {
        let e = events[n - 1];
        value_entries(events, (n - 1) as nat) + seq![e.out, e.in1, e.in2]
    }
}

/// The entries of the places of operations, one after the other.
pub open spec fn access_entries<F: Field>(instrs: Seq<BaseAluInstr<F>>, n: nat) -> Seq<F>
    decreases n,
{
    if n == 0 {
        Seq::empty()
    } else {
        let a = access_of(instrs[n - 1]);
        access_entries(instrs, (n - 1) as nat) + seq![
            a.addrs.out.0,
            a.addrs.in1.0,
            a.addrs.in2.0,
            a.is_add,
            a.is_sub,
            a.is_mul,
            a.is_div,
            a.mult,
        ]
    }
}

/// The entries with zeros up to a length.
pub open spec fn zero_padded<F: Field>(s: Seq<F>, len: int) -> Seq<F> {
    Seq::new(
        len as nat,
        |i: int|
            if i < s.len() {
                s[i]
            } else {
                F::zero_elem()
            },
    )
}

/// The number of rows of `per_row` entries that hold `n` entries.
pub open spec fn rows_for(n: nat, per_row: nat) -> nat {
    if n == 0 || per_row == 0 {
        0
    } else {
        ((n - 1) / per_row as int + 1) as nat
    }
}

/// The number of rows of `per_row` entries that hold `n` entries.
pub fn div_ceil(n: usize, per_row: usize) -> (r: usize)
    requires
        per_row > 0,
    ensures
        r as nat == rows_for(n as nat, per_row as nat),
        r * per_row >= n,
        r <= n,
        n > 0 ==> (r - 1) * per_row < n,
{
    if n == 0 {
        0
    } else {
        proof {
            let q = (n - 1) / per_row as int;
            vstd::arithmetic::div_mod::lemma_fundamental_div_mod(n - 1, per_row as int);
            assert((q + 1) * per_row == per_row * q + per_row) by (nonlinear_arith);
            assert(q <= n - 1) by (nonlinear_arith)
                requires
                    q == (n - 1) / per_row as int,
                    per_row >= 1,
                    n >= 1,
            ;
            assert(q * per_row == per_row * q) by (nonlinear_arith);
        }
        (n - 1) / per_row + 1
    }
}

/// Appends zeros up to a length.
pub fn pad_zeros<F: Field>(values: &mut Vec<F>, len: usize)
    requires
        old(values)@.len() <= len,
    ensures
        final(values)@ == zero_padded(old(values)@, len as int),
{
    let n: usize = values.len();
    let mut i: usize = n;
    while i < len
        invariant
            n <= i <= len,
            n == old(values)@.len(),
            values@.len() == i,
            forall|j: int| 0 <= j < n ==> #[trigger] values@[j] == old(values)@[j],
            forall|j: int| n <= j < i ==> #[trigger] values@[j] == F::zero_elem(),
        decreases len - i,
    {
        values.push(F::zero());
        i += 1;
    }
    assert(values@ =~= zero_padded(old(values)@, len as int));
}

/// The height that a table of `n` rows is padded to: that of the shape, else the least power of two
/// that holds the rows.
pub open spec fn table_height(n: nat, fixed_log2_rows: Option<usize>) -> nat {
    utils::threshold_height(
        match fixed_log2_rows {
            Some(log2_rows) => vstd::arithmetic::power2::pow2(log2_rows as nat),
            None => utils::padded_height(n, None),
        },
    )
}

/// The height that a table of `n` rows is padded to.
pub fn padded_table_height(n: usize, fixed_log2_rows: Option<usize>) -> (r: usize)
    requires
        bits::pow2_above(n as nat) <= usize::MAX,
        fixed_log2_rows matches Some(log2_rows) ==> log2_rows < usize::BITS,
    ensures
        r as nat == table_height(n as nat, fixed_log2_rows),
{
    let nb_rows: usize = match fixed_log2_rows {
        Some(log2_rows) => {
            proof {
                bits::lemma_log2_pow2(log2_rows as nat);
            }
            bits::two_to_the(log2_rows)
        },
        None => utils::next_power_of_two(n, None),
    };
    utils::padded_rows_threshold(nb_rows)
}

/// The instructions for the base field unit.
pub open spec fn alu_instrs<F>(instrs: Seq<Instruction<F>>) -> Seq<BaseAluInstr<F>>
    decreases instrs.len(),
{
    if instrs.len() == 0 {
        Seq::empty()
    } else {
        let before = alu_instrs(instrs.drop_last());
        match instrs.last() {
            Instruction::BaseAlu(alu) => before.push(alu),
            _ => before,
        }
    }
}

/// The instructions for the base field unit.
pub fn base_alu_instrs<F: Field>(program: &RawProgram<Instruction<F>>) -> (r: Vec<BaseAluInstr<F>>)
    ensures
        r@ == alu_instrs(program.items()),
{
    let items = program.list();
    let ghost all = program.items();
    let n: usize = items.len();
    let mut r: Vec<BaseAluInstr<F>> = Vec::new();
    let mut i: usize = 0;
    assert(all.take(0) =~= Seq::empty());
    while i < n
        invariant
            i <= n,
            n == items@.len(),
            block::refers(items@, all),
            r@ == alu_instrs(all.take(i as int)),
        decreases n - i,
    {
        proof {
            assert(all.take(i as int + 1).drop_last() =~= all.take(i as int));
            assert(*items@[i as int] == all[i as int]);
        }
        match items[i] {
            Instruction::BaseAlu(alu) => {
                r.push(*alu);
            },
            _ => {},
        }
        i += 1;
    }
    assert(all.take(n as int) =~= all);
    r
}

impl<const N: usize> BaseAluChip<N> {
    /// The number of entries of a row of values.
    pub fn num_cols() -> (r: usize)
        requires
            N * NUM_BASE_ALU_VALUE_COLS <= usize::MAX,
        ensures
            r == N * NUM_BASE_ALU_VALUE_COLS,
    {
        NUM_BASE_ALU_VALUE_COLS * N
    }

    /// The number of entries of a row of places.
    pub fn num_preprocessed_cols() -> (r: usize)
        requires
            N * NUM_BASE_ALU_ACCESS_COLS <= usize::MAX,
        ensures
            r == N * NUM_BASE_ALU_ACCESS_COLS,
    {
        NUM_BASE_ALU_ACCESS_COLS * N
    }

    /// The height of the table of values.
    pub fn num_rows(num_events: usize, fixed_log2_rows: Option<usize>) -> (r: usize)
        requires
            N > 0,
            bits::pow2_above(rows_for(num_events as nat, N as nat)) <= usize::MAX,
            fixed_log2_rows matches Some(log2_rows) ==> log2_rows < usize::BITS,
        ensures
            r as nat == table_height(rows_for(num_events as nat, N as nat), fixed_log2_rows),
    {
        padded_table_height(div_ceil(num_events, N), fixed_log2_rows)
    }

    /// The height of the table of places.
    pub fn preprocessed_num_rows(instrs_len: usize, fixed_log2_rows: Option<usize>) -> (r: usize)
        requires
            N > 0,
            bits::pow2_above(rows_for(instrs_len as nat, N as nat)) <= usize::MAX,
            fixed_log2_rows matches Some(log2_rows) ==> log2_rows < usize::BITS,
        ensures
            r as nat == table_height(rows_for(instrs_len as nat, N as nat), fixed_log2_rows),
    {
        padded_table_height(div_ceil(instrs_len, N), fixed_log2_rows)
    }

    /// The table of values: `N` operations in a row, zeros in what is left of the last row.
    pub fn generate_trace<F: Field>(
        events: &Vec<BaseAluIo<F>>,
        fixed_log2_rows: Option<usize>,
    ) -> (r: CompressedMatrix<F>)
        requires
            N > 0,
            (events@.len() + N) * NUM_BASE_ALU_VALUE_COLS <= usize::MAX,
            bits::pow2_above(rows_for(events@.len(), N as nat)) <= usize::MAX,
            fixed_log2_rows matches Some(log2_rows) ==> log2_rows < usize::BITS,
        ensures
            r.width == N * NUM_BASE_ALU_VALUE_COLS,
            r.padding_row == (PaddingRow::<F>::Zero { width: r.width }),
            r.main@ == zero_padded(
                value_entries(events@, events@.len()),
                rows_for(events@.len(), N as nat) * N * NUM_BASE_ALU_VALUE_COLS,
            ),
            r.total_height as nat == table_height(
                rows_for(events@.len(), N as nat),
                fixed_log2_rows,
            ),
    {
        let n: usize = events.len();
        let total_height: usize = Self::num_rows(n, fixed_log2_rows);
        let real_nb_rows: usize = div_ceil(n, N);
        let mut values: Vec<F> = Vec::new();
        let mut i: usize = 0;
        while i < n
            invariant
                i <= n,
                n == events@.len(),
                values@ == value_entries(events@, i as nat),
                values@.len() == 3 * i,
            decreases n - i,
        {
            values.push(events[i].out);
            values.push(events[i].in1);
            values.push(events[i].in2);
            i += 1;
            assert(values@ =~= value_entries(events@, i as nat));
        }
        proof {
            let k = real_nb_rows as int;
            assert(k * N < n + N) by (nonlinear_arith)
                requires
                    n > 0 ==> (k - 1) * N < n,
                    n == 0 ==> k == 0,
                    N > 0,
            ;
        }
        let cells: usize = real_nb_rows * N * NUM_BASE_ALU_VALUE_COLS;
        pad_zeros(&mut values, cells);
        CompressedMatrix::new(values, Self::num_cols(), total_height)
    }

    /// The table of places: `N` operations in a row, zeros in what is left of the last row.
    pub fn generate_preprocessed_trace<F: Field>(
        instrs: &Vec<BaseAluInstr<F>>,
        fixed_log2_rows: Option<usize>,
    ) -> (r: CompressedMatrix<F>)
        requires
            N > 0,
            (instrs@.len() + N) * NUM_BASE_ALU_ACCESS_COLS <= usize::MAX,
            bits::pow2_above(rows_for(instrs@.len(), N as nat)) <= usize::MAX,
            fixed_log2_rows matches Some(log2_rows) ==> log2_rows < usize::BITS,
        ensures
            r.width == N * NUM_BASE_ALU_ACCESS_COLS,
            r.padding_row == (PaddingRow::<F>::Zero { width: r.width }),
            r.main@ == zero_padded(
                access_entries(instrs@, instrs@.len()),
                rows_for(instrs@.len(), N as nat) * N * NUM_BASE_ALU_ACCESS_COLS,
            ),
            r.total_height as nat == table_height(
                rows_for(instrs@.len(), N as nat),
                fixed_log2_rows,
            ),
    {
        let n: usize = instrs.len();
        let total_height: usize = Self::num_rows(n, fixed_log2_rows);
        let real_nb_rows: usize = div_ceil(n, N);
        let mut values: Vec<F> = Vec::new();
        let mut i: usize = 0;
        while i < n
            invariant
                i <= n,
                n == instrs@.len(),
                values@ == access_entries(instrs@, i as nat),
                values@.len() == 8 * i,
            decreases n - i,
        {
            let opcode = instrs[i].opcode;
            values.push(instrs[i].addrs.out.0);
            values.push(instrs[i].addrs.in1.0);
            values.push(instrs[i].addrs.in2.0);
            values.push(from_bool(opcode == BaseAluOpcode::AddF));
            values.push(from_bool(opcode == BaseAluOpcode::SubF));
            values.push(from_bool(opcode == BaseAluOpcode::MulF));
            values.push(from_bool(opcode == BaseAluOpcode::DivF));
            values.push(instrs[i].mult);
            i += 1;
            assert(values@ =~= access_entries(instrs@, i as nat));
        }
        proof {
            let k = real_nb_rows as int;
            assert(k * N < n + N) by (nonlinear_arith)
                requires
                    n > 0 ==> (k - 1) * N < n,
                    n == 0 ==> k == 0,
                    N > 0,
            ;
        }
        let cells: usize = real_nb_rows * N * NUM_BASE_ALU_ACCESS_COLS;
        pad_zeros(&mut values, cells);
        CompressedMatrix::new(values, Self::num_preprocessed_cols(), total_height)
    }

    /// The constraints and the accesses to memory of a row.
    pub fn eval<F: Field>(
        builder: &mut RowBuilder<F>,
        local: &BaseAluCols<F>,
        prep_local: &BaseAluPreprocessedCols<F>,
    )
        requires
            local.values@.len() == N,
            prep_local.accesses@.len() == N,
        ensures
            final(builder)@ == builder::joined(
                old(builder)@,
                row_model(local.values@, prep_local.accesses@, N as nat),
            ),
            final(builder).w == old(builder).w,
    {
        let mut i: usize = 0;
        assert(builder@ =~= builder::joined(
            old(builder)@,
            row_model(local.values@, prep_local.accesses@, 0),
        ));
        while i < N
            invariant
                i <= N,
                local.values@.len() == N,
                prep_local.accesses@.len() == N,
                builder@ == builder::joined(
                    old(builder)@,
                    row_model(local.values@, prep_local.accesses@, i as nat),
                ),
                builder.w == old(builder).w,
            decreases N - i,
        {
            let v = local.values[i].vals;
            let a = prep_local.accesses[i];
            let ghost before = builder@;
            let active = a.is_add.add(a.is_sub).add(a.is_mul).add(a.is_div);
            builder.assert_bool(active);
            builder.assert_eq_when(a.is_add, v.in1.add(v.in2), v.out);
            builder.assert_eq_when(a.is_sub, v.in1, v.in2.add(v.out));
            builder.assert_eq_when(a.is_mul, v.out, v.in1.mul(v.in2));
            builder.assert_eq_when(a.is_div, v.in2.mul(v.out), v.in1);
            builder.receive_single(a.addrs.in1, v.in1, active);
            builder.receive_single(a.addrs.in2, v.in2, active);
            builder.send_single(a.addrs.out, v.out, a.mult);
            i += 1;
            assert(builder@ =~= builder::joined(before, entry_model(v, a)));
            assert(builder@ =~= builder::joined(
                old(builder)@,
                row_model(local.values@, prep_local.accesses@, i as nat),
            ));
        }
    }
}

/// The nonzero elements of a prime field are units.
pub proof fn lemma_nonzero_unit<F: PrimeField32>(y: F)
    requires
        y.valid(),
        y != F::zero_elem(),
    ensures
        field::is_unit(y),
{
    let n = y.to_int();
    F::law_residues(y, F::zero_elem());
    F::law_from_int_residue(n);
    vstd::arithmetic::div_mod::lemma_small_mod(n as nat, F::characteristic() as nat);
    F::law_residues(F::from_int(n), y);
    F::law_small_int_unit(n);
    let i = choose|i: F| #[trigger] i.valid() && F::from_int(n).times(i) == F::one_elem();
    assert(field::is_inverse(y, i));
}

/// The values that the base field unit leaves satisfy the constraints of its table.
pub proof fn law_alu_satisfied<F: PrimeField32, EF>(instr: BaseAluInstr<F>, x: F, y: F)
    requires
        x.valid(),
        y.valid(),
        semantics::base_result::<F, EF>(instr, x, y) is Ok,
    ensures
        builder::satisfied(
            entry_model(
                (BaseAluIo {
                    out: semantics::base_result::<F, EF>(instr, x, y)->Ok_0,
                    in1: x,
                    in2: y,
                }),
                access_of(instr),
            ),
        ),
{
    broadcast use algebra::group_valid;

    let out = semantics::base_result::<F, EF>(instr, x, y)->Ok_0;
    let a = access_of(instr);
    let z = F::zero_elem();
    let one = F::one_elem();
    F::law_constants();
    assert(out.valid());
    lemma_flags::<F>(instr);
    algebra::lemma_opposites(one, one);
    algebra::lemma_products(one, z, z);
    algebra::lemma_products(x.plus(y).minus(out), z, z);
    algebra::lemma_products(x.minus(y.plus(out)), z, z);
    algebra::lemma_products(out.minus(x.times(y)), z, z);
    algebra::lemma_products(y.times(out).minus(x), z, z);
    match instr.opcode {
        BaseAluOpcode::AddF => {
            algebra::lemma_opposites(x.plus(y), z);
        },
        BaseAluOpcode::SubF => {
            F::law_plus(y, x.minus(y), z);
            algebra::lemma_opposites(x, y);
            algebra::lemma_opposites(x, z);
        },
        BaseAluOpcode::MulF => {
            algebra::lemma_opposites(x.times(y), z);
        },
        BaseAluOpcode::DivF => {
            algebra::lemma_opposites(x, z);
            if y != z {
                lemma_nonzero_unit(y);
                algebra::lemma_unit(y);
                let i = field::inverse(y);
                algebra::lemma_products(y, x, i);
                algebra::lemma_products(x, y, i);
            } else {
                algebra::lemma_products(one, z, z);
            }
        },
    }
    assert(a.is_add.times(x.plus(y).minus(out)) == z);
    assert(a.is_sub.times(x.minus(y.plus(out))) == z);
    assert(a.is_mul.times(out.minus(x.times(y))) == z);
    assert(a.is_div.times(y.times(out).minus(x)) == z);
}

/// One flag is set.
proof fn lemma_flags<F: PrimeField32>(instr: BaseAluInstr<F>)
    ensures
        is_real(access_of(instr)) == F::one_elem(),
{
    let z = F::zero_elem();
    let one = F::one_elem();
    F::law_constants();
    F::law_plus(z, z, z);
    F::law_plus(one, z, z);
    F::law_plus(z, one, z);
}

} // verus!
