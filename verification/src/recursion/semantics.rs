//! What the instructions of a recursion program do.
use vstd::prelude::*;
use vstd::arithmetic::power2::*;
use crate::basefold::poseidon::{PermutationField, Rounds};
use crate::field;
use crate::field::{ExtensionField, Field, PrimeField32};
use crate::recursion::block::Placed;
use crate::recursion::event_count;
use crate::recursion::event_count::Counts;
use crate::recursion::instruction;
use crate::recursion::instruction::Instruction;
use crate::recursion::program;
use crate::recursion::types::{
    Address, BaseAluInstr, BaseAluIo, BaseAluOpcode, Block, ExpModel, ExtAluInstr, ExtAluIo,
    ExtAluOpcode, MemAccessKind, MemInstr, PermutationModel, PolyEvalModel, PrefixModel, SelectIo,
};
use crate::stark::septic_curve;
use crate::stark::septic_curve::Point;

verus! {

/// Why a program stops.
#[derive(Clone, Copy, Debug, PartialEq, Eq)]
pub enum RuntimeError<F, EF> {
    /// A nonzero element of the base field is divided by zero.
    DivFOutOfDomain { in1: F, in2: F, instr: BaseAluInstr<F> },
    /// A nonzero element of the extension is divided by zero.
    DivEOutOfDomain { in1: EF, in2: EF, instr: ExtAluInstr<F> },
    /// The witness has too few values left.
    EmptyWitnessStream,
    /// A cell is read before it is written.
    UnwrittenAddress { addr: u32 },
    /// A cell outside the memory is written.
    AddressOutOfRange { addr: u32 },
    /// A cell does not hold the value that the program says.
    MemoryMismatch { addr: u32 },
    /// Two curve points have no chord.
    NoCurveSum,
}

/// The cells of the memory, with those that have been written.
pub type Memory<F> = Seq<Option<Block<F>>>;

/// The machine between two instructions: its memory, what is left of the witness, and the events
/// so far.
#[verifier::ext_equal]
pub struct State<F> {
    pub memory: Seq<Option<Block<F>>>,
    pub witness: Seq<Block<F>>,
    pub base_alu: Seq<BaseAluIo<F>>,
    pub ext_alu: Seq<ExtAluIo<Block<F>>>,
    pub mem_var: Seq<Block<F>>,
    pub poseidon2: Seq<PermutationModel<F>>,
    pub poseidon2_skinny: Seq<PermutationModel<F>>,
    pub select: Seq<SelectIo<F>>,
    pub commits: Seq<Seq<F>>,
    pub poly_evals: Seq<PolyEvalModel<F>>,
    pub exps: Seq<ExpModel<F>>,
    pub prefixes: Seq<PrefixModel<Block<F>>>,
    pub public_values: Option<Seq<F>>,
}

/// What a cell holds.
pub open spec fn read<F: PrimeField32, EF>(m: Memory<F>, addr: u32) -> Result<
    Block<F>,
    RuntimeError<F, EF>,
> {
    if addr < m.len() && m[addr as int] is Some {
        Ok(m[addr as int]->0)
    } else {
        Err(RuntimeError::UnwrittenAddress { addr })
    }
}

/// The memory with one cell written.
pub open spec fn written<F: PrimeField32, EF>(m: Memory<F>, addr: u32, val: Block<F>) -> Result<
    Memory<F>,
    RuntimeError<F, EF>,
> {
    if addr < m.len() {
        Ok(m.update(addr as int, Some(val)))
    } else {
        Err(RuntimeError::AddressOutOfRange { addr })
    }
}

/// What the first `n` cells hold.
pub open spec fn read_blocks<F: PrimeField32, EF>(m: Memory<F>, addrs: Seq<u32>, n: nat) -> Result<
    Seq<Block<F>>,
    RuntimeError<F, EF>,
>
    decreases n,
{
    if n == 0 {
        Ok(Seq::empty())
    } else {
        match read_blocks::<F, EF>(m, addrs, (n - 1) as nat) {
            Ok(s) => match read::<F, EF>(m, addrs[n - 1]) {
                Ok(b) => Ok(s.push(b)),
                Err(e) => Err(e),
            },
            Err(e) => Err(e),
        }
    }
}

/// What all the cells hold.
pub open spec fn read_all<F: PrimeField32, EF>(m: Memory<F>, addrs: Seq<u32>) -> Result<
    Seq<Block<F>>,
    RuntimeError<F, EF>,
> {
    read_blocks::<F, EF>(m, addrs, addrs.len())
}

/// The memory with the first `n` cells written, one after the other.
pub open spec fn written_blocks<F: PrimeField32, EF>(
    m: Memory<F>,
    addrs: Seq<u32>,
    vals: Seq<Block<F>>,
    n: nat,
) -> Result<Memory<F>, RuntimeError<F, EF>>
    decreases n,
{
    if n == 0 {
        Ok(m)
    } else {
        match written_blocks::<F, EF>(m, addrs, vals, (n - 1) as nat) {
            Ok(m2) => written::<F, EF>(m2, addrs[n - 1], vals[n - 1]),
            Err(e) => Err(e),
        }
    }
}

/// The memory with all the cells written.
pub open spec fn written_all<F: PrimeField32, EF>(
    m: Memory<F>,
    addrs: Seq<u32>,
    vals: Seq<Block<F>>,
) -> Result<Memory<F>, RuntimeError<F, EF>> {
    written_blocks::<F, EF>(m, addrs, vals, addrs.len())
}

/// The first elements of blocks.
pub open spec fn bases<F>(s: Seq<Block<F>>) -> Seq<F> {
    Seq::new(s.len(), |i: int| s[i].0)
}

/// The blocks of base field elements.
pub open spec fn base_blocks<F: PrimeField32>(s: Seq<F>) -> Seq<Block<F>> {
    Seq::new(s.len(), |i: int| instruction::base_block(s[i]))
}

/// A quotient where zero by zero is one.
pub open spec fn checked_quotient<E: Field>(x: E, y: E) -> Option<E> {
    if y != E::zero_elem() {
        Some(field::quotient(x, y))
    } else if x == E::zero_elem() {
        Some(E::one_elem())
    } else {
        None
    }
}

/// The result of the base field unit.
pub open spec fn base_result<F: PrimeField32, EF>(instr: BaseAluInstr<F>, x: F, y: F) -> Result<
    F,
    RuntimeError<F, EF>,
> {
    match instr.opcode {
        BaseAluOpcode::AddF => Ok(x.plus(y)),
        BaseAluOpcode::SubF => Ok(x.minus(y)),
        BaseAluOpcode::MulF => Ok(x.times(y)),
        BaseAluOpcode::DivF => match checked_quotient(x, y) {
            Some(q) => Ok(q),
            None => Err(
                RuntimeError::DivFOutOfDomain {
                    in1: x,
                    in2: y,
                    instr: BaseAluInstr { mult: F::zero_elem(), ..instr },
                },
            ),
        },
    }
}

/// The result of the extension field unit.
pub open spec fn ext_result<F: PrimeField32, EF: ExtensionField<F>>(
    instr: ExtAluInstr<F>,
    a: Block<F>,
    b: Block<F>,
) -> Result<Block<F>, RuntimeError<F, EF>> {
    let x = instruction::block_ext::<F, EF>(a);
    let y = instruction::block_ext::<F, EF>(b);
    match instr.opcode {
        ExtAluOpcode::AddE => Ok(instruction::ext_block::<F, EF>(x.plus(y))),
        ExtAluOpcode::SubE => Ok(instruction::ext_block::<F, EF>(x.minus(y))),
        ExtAluOpcode::MulE => Ok(instruction::ext_block::<F, EF>(x.times(y))),
        ExtAluOpcode::DivE => match checked_quotient(x, y) {
            Some(q) => Ok(instruction::ext_block::<F, EF>(q)),
            None => Err(
                RuntimeError::DivEOutOfDomain {
                    in1: x,
                    in2: y,
                    instr: ExtAluInstr { mult: F::zero_elem(), ..instr },
                },
            ),
        },
    }
}

/// The bits of an integer, the lowest first.
pub open spec fn bit_blocks<F: PrimeField32>(n: int, len: nat) -> Seq<Block<F>> {
    Seq::new(
        len,
        |i: int| instruction::base_block(F::from_int(n / pow2(i as nat) as int % 2)),
    )
}

/// The value at `x` of the polynomial with the first `n` coefficients, from the highest degree.
pub open spec fn horner<F: PrimeField32>(coeffs: Seq<F>, x: F, n: nat) -> F
    decreases n,
{
    if n <= 1 {
        coeffs[0]
    } else {
        horner(coeffs, x, (n - 1) as nat).times(x).plus(coeffs[n - 1])
    }
}

/// The equality of two coordinates: `x y + (1 - x)(1 - y)`.
pub open spec fn equality<EF: Field>(x: EF, y: EF) -> EF {
    x.times(y).plus(EF::one_elem().minus(x).times(EF::one_elem().minus(y)))
}

/// The accumulators of a chain: what was read and what was written.
#[verifier::ext_equal]
pub struct Chain<F> {
    pub memory: Memory<F>,
    pub prev: Seq<Block<F>>,
    pub acc: Seq<Block<F>>,
}

/// The next accumulator.
pub open spec fn accumulated<F: PrimeField32, EF: ExtensionField<F>>(
    prev: Block<F>,
    factor: EF,
    square: bool,
) -> Block<F> {
    let p = instruction::block_ext::<F, EF>(prev);
    instruction::ext_block::<F, EF>(
        (if square {
            p.times(p)
        } else {
            p
        }).times(factor),
    )
}

/// The first `n` steps of a chain: each reads an accumulator, multiplies it, or its square, with a
/// factor and writes the result.
pub open spec fn chained<F: PrimeField32, EF: ExtensionField<F>>(
    m: Memory<F>,
    prevs: Seq<u32>,
    accs: Seq<u32>,
    factors: Seq<EF>,
    square: bool,
    n: nat,
) -> Result<Chain<F>, RuntimeError<F, EF>>
    decreases n,
{
    if n == 0 {
        Ok(Chain { memory: m, prev: Seq::empty(), acc: Seq::empty() })
    } else {
        match chained::<F, EF>(m, prevs, accs, factors, square, (n - 1) as nat) {
            Ok(c) => match read::<F, EF>(c.memory, prevs[n - 1]) {
                Ok(p) => {
                    let a = accumulated::<F, EF>(p, factors[n - 1], square);
                    match written::<F, EF>(c.memory, accs[n - 1], a) {
                        Ok(memory) => Ok(Chain { memory, prev: c.prev.push(p), acc: c.acc.push(a) }),
                        Err(e) => Err(e),
                    }
                },
                Err(e) => Err(e),
            },
            Err(e) => Err(e),
        }
    }
}

/// The factors of an exponentiation: the base where the bit is one, else one.
pub open spec fn exp_factors<F: PrimeField32, EF: ExtensionField<F>>(
    base: Block<F>,
    exp: Seq<F>,
) -> Seq<EF> {
    Seq::new(
        exp.len(),
        |i: int|
            if exp[i].to_int() == 1 {
                instruction::block_ext::<F, EF>(base)
            } else {
                EF::one_elem()
            },
    )
}

/// The factors of a product of equalities.
pub open spec fn equality_factors<F: PrimeField32, EF: ExtensionField<F>>(
    x1: Seq<Block<F>>,
    x2: Seq<Block<F>>,
) -> Seq<EF> {
    Seq::new(
        x1.len(),
        |i: int|
            equality(
                instruction::block_ext::<F, EF>(x1[i]),
                instruction::block_ext::<F, EF>(x2[i]),
            ),
    )
}

/// The state with its memory replaced.
pub open spec fn with_memory<F>(s: State<F>, memory: Memory<F>) -> State<F> {
    State { memory, ..s }
}

/// An operation of the base field unit.
pub open spec fn step_base_alu<F: PrimeField32, EF>(
    s: State<F>,
    instr: BaseAluInstr<F>,
) -> Result<State<F>, RuntimeError<F, EF>> {
    let a = instr.addrs;
    match read_all::<F, EF>(s.memory, seq![program::at(a.in1), program::at(a.in2)]) {
        Ok(v) => match base_result::<F, EF>(instr, v[0].0, v[1].0) {
            Ok(out) => match written::<F, EF>(
                s.memory,
                program::at(a.out),
                instruction::base_block(out),
            ) {
                Ok(m) => Ok(
                    State {
                        memory: m,
                        base_alu: s.base_alu.push(BaseAluIo { out, in1: v[0].0, in2: v[1].0 }),
                        ..s
                    },
                ),
                Err(e) => Err(e),
            },
            Err(e) => Err(e),
        },
        Err(e) => Err(e),
    }
}

/// An operation of the extension field unit.
pub open spec fn step_ext_alu<F: PrimeField32, EF: ExtensionField<F>>(
    s: State<F>,
    instr: ExtAluInstr<F>,
) -> Result<State<F>, RuntimeError<F, EF>> {
    let a = instr.addrs;
    match read_all::<F, EF>(s.memory, seq![program::at(a.in1), program::at(a.in2)]) {
        Ok(v) => match ext_result::<F, EF>(instr, v[0], v[1]) {
            Ok(out) => match written::<F, EF>(s.memory, program::at(a.out), out) {
                Ok(m) => Ok(
                    State {
                        memory: m,
                        ext_alu: s.ext_alu.push(ExtAluIo { out, in1: v[0], in2: v[1] }),
                        ..s
                    },
                ),
                Err(e) => Err(e),
            },
            Err(e) => Err(e),
        },
        Err(e) => Err(e),
    }
}

/// A constant is written, or must stand where it was written.
pub open spec fn step_mem<F: PrimeField32, EF>(s: State<F>, instr: MemInstr<F>) -> Result<
    State<F>,
    RuntimeError<F, EF>,
> {
    let addr = program::at(instr.addrs.inner);
    match instr.kind {
        MemAccessKind::Read => match read::<F, EF>(s.memory, addr) {
            Ok(b) => if b == instr.vals.inner {
                Ok(s)
            } else {
                Err(RuntimeError::MemoryMismatch { addr })
            },
            Err(e) => Err(e),
        },
        MemAccessKind::Write => match written::<F, EF>(s.memory, addr, instr.vals.inner) {
            Ok(m) => Ok(with_memory(s, m)),
            Err(e) => Err(e),
        },
    }
}

/// A permutation of sixteen cells into sixteen cells.
pub open spec fn permuted_cells<F: PermutationField, EF>(
    rounds: Rounds<F>,
    m: Memory<F>,
    input: Seq<Address<F>>,
    output: Seq<Address<F>>,
) -> Result<(Memory<F>, PermutationModel<F>), RuntimeError<F, EF>> {
    match read_all::<F, EF>(m, program::places(input)) {
        Ok(v) => {
            let out = F::permuted(rounds, bases(v));
            match written_all::<F, EF>(m, program::places(output), base_blocks(out)) {
                Ok(m2) => Ok((m2, PermutationModel { input: bases(v), output: out })),
                Err(e) => Err(e),
            }
        },
        Err(e) => Err(e),
    }
}

/// Two values are swapped where the bit is one: the outputs are `in1 + bit (in2 - in1)` and
/// `in2 - bit (in2 - in1)`.
pub open spec fn step_select<F: PrimeField32, EF>(s: State<F>, a: SelectIo<Address<F>>) -> Result<
    State<F>,
    RuntimeError<F, EF>,
> {
    match read_all::<F, EF>(
        s.memory,
        seq![program::at(a.bit), program::at(a.in1), program::at(a.in2)],
    ) {
        Ok(v) => {
            let (bit, in1, in2) = (v[0].0, v[1].0, v[2].0);
            let diff = bit.times(in2.minus(in1));
            let (out1, out2) = (in1.plus(diff), in2.minus(diff));
            match written_all::<F, EF>(
                s.memory,
                seq![program::at(a.out1), program::at(a.out2)],
                base_blocks(seq![out1, out2]),
            ) {
                Ok(m) => Ok(
                    State {
                        memory: m,
                        select: s.select.push(SelectIo { bit, out1, out2, in1, in2 }),
                        ..s
                    },
                ),
                Err(e) => Err(e),
            }
        },
        Err(e) => Err(e),
    }
}

/// Values are written to cells of the variable memory.
pub open spec fn step_vars<F: PrimeField32, EF>(
    s: State<F>,
    outs: Seq<(Address<F>, F)>,
    vals: Seq<Block<F>>,
) -> Result<State<F>, RuntimeError<F, EF>> {
    match written_all::<F, EF>(s.memory, program::out_places(outs), vals) {
        Ok(m) => Ok(State { memory: m, mem_var: s.mem_var + vals, ..s }),
        Err(e) => Err(e),
    }
}

/// The sum of the two points in twenty-eight values.
pub open spec fn points_sum<F: PrimeField32>(v: Seq<F>) -> Option<Point<F>> {
    septic_curve::chord_sum(
        Point { x: v.subrange(0, 7), y: v.subrange(7, 14) },
        Point { x: v.subrange(14, 21), y: v.subrange(21, 28) },
    )
}

/// What an instruction does.
pub open spec fn step<F: PermutationField, EF: ExtensionField<F>>(
    rounds: Rounds<F>,
    s: State<F>,
    instr: Instruction<F>,
    isolated: bool,
) -> Result<State<F>, RuntimeError<F, EF>> {
    match instr {
        Instruction::BaseAlu(alu) => step_base_alu::<F, EF>(s, alu),
        Instruction::ExtAlu(alu) => step_ext_alu::<F, EF>(s, alu),
        Instruction::Mem(mem) => step_mem::<F, EF>(s, mem),
        Instruction::Poseidon2(p) => match permuted_cells::<F, EF>(
            rounds,
            s.memory,
            p.addrs.input@,
            p.addrs.output@,
        ) {
            Ok((m, event)) => Ok(State { memory: m, poseidon2: s.poseidon2.push(event), ..s }),
            Err(e) => Err(e),
        },
        Instruction::Poseidon2Skinny(p) => match permuted_cells::<F, EF>(
            rounds,
            s.memory,
            p.addrs.input@,
            p.addrs.output@,
        ) {
            Ok((m, event)) => Ok(
                State { memory: m, poseidon2_skinny: s.poseidon2_skinny.push(event), ..s },
            ),
            Err(e) => Err(e),
        },
        Instruction::Select(select) => step_select::<F, EF>(s, select.addrs),
        Instruction::HintBits(h) => match read::<F, EF>(s.memory, program::at(h.input_addr)) {
            Ok(b) => step_vars::<F, EF>(
                s,
                h.output_addrs_mults@,
                bit_blocks(b.0.to_int(), h.output_addrs_mults@.len()),
            ),
            Err(e) => Err(e),
        },
        Instruction::HintAddCurve(h) => {
            let inputs = program::places(h.input1_x_addrs@) + program::places(h.input1_y_addrs@)
                + program::places(h.input2_x_addrs@) + program::places(h.input2_y_addrs@);
            let outs = h.output_x_addrs_mults@ + h.output_y_addrs_mults@;
            match read_all::<F, EF>(s.memory, inputs) {
                Ok(v) => match points_sum(bases(v)) {
                    Some(sum) => step_vars::<F, EF>(
                        s,
                        outs,
                        base_blocks(
                            sum.x.subrange(0, h.output_x_addrs_mults@.len() as int)
                                + sum.y.subrange(0, h.output_y_addrs_mults@.len() as int),
                        ),
                    ),
                    None => Err(RuntimeError::NoCurveSum),
                },
                Err(e) => Err(e),
            }
        },
        Instruction::CommitPublicValues(c) => match read_all::<F, EF>(
            s.memory,
            program::places(c.pv_addrs.elements@),
        ) {
            Ok(v) => Ok(
                State {
                    commits: s.commits.push(bases(v)),
                    public_values: if isolated {
                        s.public_values
                    } else {
                        Some(bases(v))
                    },
                    ..s
                },
            ),
            Err(e) => Err(e),
        },
        Instruction::Print(p) => match read::<F, EF>(s.memory, program::at(p.addr)) {
            Ok(_) => Ok(s),
            Err(e) => Err(e),
        },
        Instruction::HintExt2Felts(h) => match read::<F, EF>(s.memory, program::at(h.input_addr)) {
            Ok(b) => step_vars::<F, EF>(
                s,
                h.output_addrs_mults@,
                base_blocks(
                    seq![b.0, b.1, b.2, b.3].subrange(0, h.output_addrs_mults@.len() as int),
                ),
            ),
            Err(e) => Err(e),
        },
        Instruction::Hint(h) => {
            let n = h.output_addrs_mults@.len() as int;
            if s.witness.len() < n {
                Err(RuntimeError::EmptyWitnessStream)
            } else {
                step_vars::<F, EF>(
                    State { witness: s.witness.subrange(n, s.witness.len() as int), ..s },
                    h.output_addrs_mults@,
                    s.witness.subrange(0, n),
                )
            }
        },
        Instruction::PolyEval(p) => match read_all::<F, EF>(
            s.memory,
            seq![program::at(p.addrs.point)] + program::places(p.addrs.coeff@),
        ) {
            Ok(v) => {
                let point = v[0].0;
                let coeff = bases(v.subrange(1, v.len() as int));
                let out = horner(coeff, point, coeff.len());
                match written::<F, EF>(
                    s.memory,
                    program::at(p.addrs.out),
                    instruction::base_block(out),
                ) {
                    Ok(m) => Ok(
                        State {
                            memory: m,
                            poly_evals: s.poly_evals.push(PolyEvalModel { point, coeff, out }),
                            ..s
                        },
                    ),
                    Err(e) => Err(e),
                }
            },
            Err(e) => Err(e),
        },
        Instruction::ExtExpReverseBits(x) => match read_all::<F, EF>(
            s.memory,
            seq![program::at(x.addrs.base)] + program::places(x.addrs.exp@),
        ) {
            Ok(v) => {
                let exp = bases(v.subrange(1, v.len() as int));
                match chained::<F, EF>(
                    s.memory,
                    program::places(x.addrs.prev_acc_vec@),
                    program::places(x.addrs.acc_vec@),
                    exp_factors::<F, EF>(v[0], exp),
                    true,
                    exp.len(),
                ) {
                    Ok(c) => Ok(
                        State {
                            memory: c.memory,
                            exps: s.exps.push(
                                ExpModel { base: v[0], exp, prev_acc: c.prev, acc: c.acc },
                            ),
                            ..s
                        },
                    ),
                    Err(e) => Err(e),
                }
            },
            Err(e) => Err(e),
        },
        Instruction::PrefixSumChecks(p) => {
            let n = p.addrs.x1_vec@.len();
            match read_all::<F, EF>(
                s.memory,
                program::places(p.addrs.x1_vec@) + program::places(p.addrs.x2_vec@),
            ) {
                Ok(v) => {
                    let x1 = v.subrange(0, n as int);
                    let x2 = v.subrange(n as int, v.len() as int);
                    match chained::<F, EF>(
                        s.memory,
                        program::places(p.addrs.prev_acc_vec@),
                        program::places(p.addrs.acc_vec@),
                        equality_factors::<F, EF>(x1, x2),
                        false,
                        n,
                    ) {
                        Ok(c) => Ok(
                            State {
                                memory: c.memory,
                                prefixes: s.prefixes.push(
                                    PrefixModel { x1, x2, prev_acc: c.prev, acc: c.acc },
                                ),
                                ..s
                            },
                        ),
                        Err(e) => Err(e),
                    }
                },
                Err(e) => Err(e),
            }
        },
    }
}

/// What the first `n` instructions do, one after the other.
pub open spec fn executed<F: PermutationField, EF: ExtensionField<F>>(
    rounds: Rounds<F>,
    s: State<F>,
    placed: Seq<Placed<Instruction<F>>>,
    n: nat,
) -> Result<State<F>, RuntimeError<F, EF>>
    decreases n,
{
    if n == 0 || n > placed.len() {
        Ok(s)
    } else {
        match executed::<F, EF>(rounds, s, placed, (n - 1) as nat) {
            Ok(t) => step::<F, EF>(rounds, t, placed[n - 1].item, placed[n - 1].isolated),
            Err(e) => Err(e),
        }
    }
}

/// The operands of an instruction have the sizes that it works on, and its constants are
/// canonical.
pub open spec fn instr_wf<F: PrimeField32>(instr: Instruction<F>) -> bool {
    match instr {
        Instruction::Mem(mem) => block_valid(mem.vals.inner),
        Instruction::HintBits(h) => h.output_addrs_mults@.len() <= 32,
        Instruction::HintAddCurve(h) => h.output_x_addrs_mults@.len() <= 7
            && h.output_y_addrs_mults@.len() <= 7,
        Instruction::HintExt2Felts(h) => h.output_addrs_mults@.len() <= 4,
        Instruction::PolyEval(p) => p.addrs.coeff@.len() > 0,
        Instruction::ExtExpReverseBits(e) => e.addrs.prev_acc_vec@.len() == e.addrs.exp@.len()
            && e.addrs.acc_vec@.len() == e.addrs.exp@.len(),
        Instruction::PrefixSumChecks(p) => p.addrs.x2_vec@.len() == p.addrs.x1_vec@.len()
            && p.addrs.prev_acc_vec@.len() == p.addrs.x1_vec@.len() && p.addrs.acc_vec@.len()
            == p.addrs.x1_vec@.len(),
        _ => true,
    }
}

pub open spec fn block_valid<F: PrimeField32>(b: Block<F>) -> bool {
    b.0.valid() && b.1.valid() && b.2.valid() && b.3.valid()
}

pub open spec fn blocks_valid<F: PrimeField32>(s: Seq<Block<F>>) -> bool {
    forall|i: int| 0 <= i < s.len() ==> block_valid(#[trigger] s[i])
}

/// The cells that have been written hold canonical elements.
pub open spec fn memory_valid<F: PrimeField32>(m: Memory<F>) -> bool {
    forall|i: int| 0 <= i < m.len() ==> ((#[trigger] m[i]) matches Some(b) ==> block_valid(b))
}

/// The events of the kinds with slots are as many as the counts say.
pub open spec fn tallied<F>(s: State<F>, c: Counts) -> bool {
    &&& s.base_alu.len() == c.base_alu_events
    &&& s.ext_alu.len() == c.ext_alu_events
    &&& s.mem_var.len() == c.mem_var_events
    &&& s.poseidon2.len() == c.poseidon2_wide_events
    &&& s.poseidon2_skinny.len() == c.poseidon2_skinny_events
    &&& s.select.len() == c.select_events
    &&& s.commits.len() == c.commit_pv_hash_events
}

/// An instruction that succeeds leaves as many events as it is counted for.
pub proof fn law_step_tallied<F: PermutationField, EF: ExtensionField<F>>(
    rounds: Rounds<F>,
    s: State<F>,
    instr: Instruction<F>,
    isolated: bool,
    c: Counts,
)
    requires
        tallied(s, c),
        instr_wf(instr),
        step::<F, EF>(rounds, s, instr, isolated) is Ok,
    ensures
        tallied(
            step::<F, EF>(rounds, s, instr, isolated)->Ok_0,
            event_count::counted(c, instr),
        ),
{
    match instr {
        Instruction::HintAddCurve(h) => {
            let inputs = program::places(h.input1_x_addrs@) + program::places(h.input1_y_addrs@)
                + program::places(h.input2_x_addrs@) + program::places(h.input2_y_addrs@);
            lemma_read_len::<F, EF>(s.memory, inputs, inputs.len());
        },
        _ => {},
    }
}

/// As many values as cells are read.
pub proof fn lemma_read_len<F: PrimeField32, EF>(m: Memory<F>, addrs: Seq<u32>, n: nat)
    requires
        read_blocks::<F, EF>(m, addrs, n) is Ok,
    ensures
        read_blocks::<F, EF>(m, addrs, n)->Ok_0.len() == n,
        memory_valid(m) ==> blocks_valid(read_blocks::<F, EF>(m, addrs, n)->Ok_0),
    decreases n,
{
    if n > 0 {
        lemma_read_len::<F, EF>(m, addrs, (n - 1) as nat);
    }
}

/// A program that stops stays stopped.
pub proof fn lemma_executed_err<F: PermutationField, EF: ExtensionField<F>>(
    rounds: Rounds<F>,
    s: State<F>,
    placed: Seq<Placed<Instruction<F>>>,
    m: nat,
    n: nat,
)
    requires
        m <= n <= placed.len(),
        executed::<F, EF>(rounds, s, placed, m) is Err,
    ensures
        executed::<F, EF>(rounds, s, placed, n) == executed::<F, EF>(rounds, s, placed, m),
    decreases n,
{
    if m < n {
        lemma_executed_err::<F, EF>(rounds, s, placed, m, (n - 1) as nat);
    }
}

} // verus!
