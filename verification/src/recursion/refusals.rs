//! Why an instruction of a recursion program fails.
use vstd::prelude::*;
use crate::basefold::poseidon::{PermutationField, Rounds};
use crate::field::{ExtensionField, PrimeField32};
use crate::recursion::effects;
use crate::recursion::instruction::Instruction;
use crate::recursion::program;
use crate::recursion::semantics;
use crate::recursion::semantics::{Memory, RuntimeError, State};
use crate::recursion::types::{Address, BaseAluOpcode, Block, ExtAluOpcode, MemAccessKind};

verus! {

/// The addresses that an instruction reads before it does anything else, in order.
pub open spec fn inputs<F: PrimeField32>(instr: Instruction<F>) -> Seq<Address<F>> {
    match instr {
        Instruction::BaseAlu(x) => seq![x.addrs.in1, x.addrs.in2],
        Instruction::ExtAlu(x) => seq![x.addrs.in1, x.addrs.in2],
        Instruction::Mem(x) => if x.kind == MemAccessKind::Read {
            seq![x.addrs.inner]
        } else {
            seq![]
        },
        Instruction::Poseidon2(x) => x.addrs.input@,
        Instruction::Poseidon2Skinny(x) => x.addrs.input@,
        Instruction::Select(x) => seq![x.addrs.bit, x.addrs.in1, x.addrs.in2],
        Instruction::HintBits(x) => seq![x.input_addr],
        Instruction::HintAddCurve(x) => x.input1_x_addrs@ + x.input1_y_addrs@ + x.input2_x_addrs@
            + x.input2_y_addrs@,
        Instruction::CommitPublicValues(x) => x.pv_addrs.elements@,
        Instruction::Print(x) => seq![x.addr],
        Instruction::HintExt2Felts(x) => seq![x.input_addr],
        Instruction::Hint(_) => seq![],
        Instruction::PolyEval(x) => seq![x.addrs.point] + x.addrs.coeff@,
        Instruction::ExtExpReverseBits(x) => seq![x.addrs.base] + x.addrs.exp@,
        Instruction::PrefixSumChecks(x) => x.addrs.x1_vec@ + x.addrs.x2_vec@,
    }
}

/// The addresses of a list with multiplicities.
pub open spec fn listed<F>(s: Seq<(Address<F>, F)>) -> Seq<Address<F>> {
    s.map_values(|x: (Address<F>, F)| x.0)
}

/// The addresses that an instruction writes after it has read all that it reads, in order; those that
/// read what they have written before are not among them.
pub open spec fn outputs<F: PrimeField32>(instr: Instruction<F>) -> Seq<Address<F>> {
    match instr {
        Instruction::BaseAlu(x) => seq![x.addrs.out],
        Instruction::ExtAlu(x) => seq![x.addrs.out],
        Instruction::Mem(x) => if x.kind == MemAccessKind::Write {
            seq![x.addrs.inner]
        } else {
            seq![]
        },
        Instruction::Poseidon2(x) => x.addrs.output@,
        Instruction::Poseidon2Skinny(x) => x.addrs.output@,
        Instruction::Select(x) => seq![x.addrs.out1, x.addrs.out2],
        Instruction::HintBits(x) => listed(x.output_addrs_mults@),
        Instruction::HintAddCurve(x) => listed(x.output_x_addrs_mults@ + x.output_y_addrs_mults@),
        Instruction::HintExt2Felts(x) => listed(x.output_addrs_mults@),
        Instruction::Hint(x) => listed(x.output_addrs_mults@),
        Instruction::PolyEval(x) => seq![x.addrs.out],
        _ => seq![],
    }
}

/// The instruction writes as it goes along.
pub open spec fn chains<F>(instr: Instruction<F>) -> bool {
    instr is ExtExpReverseBits || instr is PrefixSumChecks
}

/// The first address of a list whose cell has not been written is the place.
pub open spec fn first_unwritten<F: PrimeField32>(
    m: Memory<F>,
    addrs: Seq<Address<F>>,
    place: int,
) -> bool {
    exists|i: int|
        0 <= i < addrs.len() && (#[trigger] addrs[i]).0.to_int() == place && effects::cell(
            m,
            addrs[i],
        ) is None && effects::all_held(m, addrs.take(i))
}

/// The first address of a list that lies outside of the memory is the place.
pub open spec fn first_outside<F: PrimeField32>(
    m: Memory<F>,
    addrs: Seq<Address<F>>,
    place: int,
) -> bool {
    exists|i: int|
        0 <= i < addrs.len() && (#[trigger] addrs[i]).0.to_int() == place && place >= m.len()
            && effects::all_inside(m, addrs.take(i))
}

proof fn lemma_read_refused<F: PrimeField32, EF>(m: Memory<F>, addrs: Seq<Address<F>>, n: nat)
    requires
        n <= addrs.len(),
    ensures
        ({
            let r = semantics::read_blocks::<F, EF>(m, program::places(addrs), n);
            &&& r is Ok ==> effects::all_held(m, addrs.take(n as int))
            &&& r is Ok ==> r->Ok_0.len() == n
            &&& r is Ok ==> forall|i: int|
                0 <= i < n ==> effects::cell(m, #[trigger] addrs[i]) == Some(r->Ok_0[i])
            &&& r is Err ==> r->Err_0 is UnwrittenAddress && first_unwritten(
                m,
                addrs,
                r->Err_0->UnwrittenAddress_addr as int,
            )
        }),
    decreases n,
{
    if n > 0 {
        let k = (n - 1) as nat;
        lemma_read_refused::<F, EF>(m, addrs, k);
        let a = addrs[n - 1];
        effects::lemma_place(a);
        let before = semantics::read_blocks::<F, EF>(m, program::places(addrs), k);
        let less = addrs.take(n - 1);
        let more = addrs.take(n as int);
        if before is Ok {
            if effects::cell(m, a) is Some {
                assert forall|i: int| 0 <= i < more.len() implies effects::cell(
                    m,
                    #[trigger] more[i],
                ) is Some by {
                    if i < n - 1 {
                        assert(less[i] == more[i]);
                    }
                }
            }
        }
    }
}

proof fn lemma_write_refused<F: PrimeField32, EF>(
    m: Memory<F>,
    addrs: Seq<Address<F>>,
    vals: Seq<Block<F>>,
    n: nat,
)
    requires
        n <= addrs.len(),
        n <= vals.len(),
    ensures
        ({
            let r = semantics::written_blocks::<F, EF>(m, program::places(addrs), vals, n);
            &&& r is Ok ==> effects::all_inside(m, addrs.take(n as int)) && r->Ok_0.len() == m.len()
            &&& r is Err ==> r->Err_0 is AddressOutOfRange && first_outside(
                m,
                addrs,
                r->Err_0->AddressOutOfRange_addr as int,
            )
        }),
    decreases n,
{
    if n > 0 {
        let k = (n - 1) as nat;
        lemma_write_refused::<F, EF>(m, addrs, vals, k);
        let a = addrs[n - 1];
        effects::lemma_place(a);
        let less = addrs.take(n - 1);
        let more = addrs.take(n as int);
        let before = semantics::written_blocks::<F, EF>(m, program::places(addrs), vals, k);
        if before is Ok && a.0.to_int() < m.len() {
            assert forall|i: int| 0 <= i < more.len() implies (#[trigger] more[i]).0.to_int()
                < m.len() by {
                if i < n - 1 {
                    assert(less[i] == more[i]);
                }
            }
        }
    }
}

/// What all the inputs of an instruction hold, or why they cannot be read.
pub open spec fn read_inputs<F: PrimeField32, EF>(s: State<F>, instr: Instruction<F>) -> Result<
    Seq<Block<F>>,
    RuntimeError<F, EF>,
> {
    semantics::read_all::<F, EF>(s.memory, program::places(inputs(instr)))
}

/// The reading of a list of places is that of the inputs.
proof fn lemma_same_places<F: PrimeField32, EF>(s: State<F>, instr: Instruction<F>)
    ensures
        match instr {
            Instruction::BaseAlu(x) => program::places(inputs(instr)) == seq![
                program::at(x.addrs.in1),
                program::at(x.addrs.in2),
            ],
            Instruction::ExtAlu(x) => program::places(inputs(instr)) == seq![
                program::at(x.addrs.in1),
                program::at(x.addrs.in2),
            ],
            Instruction::Select(x) => program::places(inputs(instr)) == seq![
                program::at(x.addrs.bit),
                program::at(x.addrs.in1),
                program::at(x.addrs.in2),
            ] && program::places(outputs(instr)) == seq![
                program::at(x.addrs.out1),
                program::at(x.addrs.out2),
            ],
            Instruction::HintAddCurve(x) => program::places(inputs(instr)) == program::places(
                x.input1_x_addrs@,
            ) + program::places(x.input1_y_addrs@) + program::places(x.input2_x_addrs@)
                + program::places(x.input2_y_addrs@),
            Instruction::PolyEval(x) => program::places(inputs(instr)) == seq![
                program::at(x.addrs.point),
            ] + program::places(x.addrs.coeff@),
            Instruction::ExtExpReverseBits(x) => program::places(inputs(instr)) == seq![
                program::at(x.addrs.base),
            ] + program::places(x.addrs.exp@),
            Instruction::PrefixSumChecks(x) => program::places(inputs(instr)) == program::places(
                x.addrs.x1_vec@,
            ) + program::places(x.addrs.x2_vec@),
            _ => true,
        },
{
    let p = program::places(inputs(instr));
    match instr {
        Instruction::BaseAlu(x) => {
            assert(p =~= seq![program::at(x.addrs.in1), program::at(x.addrs.in2)]);
        },
        Instruction::ExtAlu(x) => {
            assert(p =~= seq![program::at(x.addrs.in1), program::at(x.addrs.in2)]);
        },
        Instruction::Select(x) => {
            assert(p =~= seq![
                program::at(x.addrs.bit),
                program::at(x.addrs.in1),
                program::at(x.addrs.in2),
            ]);
            assert(program::places(outputs(instr)) =~= seq![
                program::at(x.addrs.out1),
                program::at(x.addrs.out2),
            ]);
        },
        Instruction::HintAddCurve(x) => {
            assert(p =~= program::places(x.input1_x_addrs@) + program::places(x.input1_y_addrs@)
                + program::places(x.input2_x_addrs@) + program::places(x.input2_y_addrs@));
        },
        Instruction::PolyEval(x) => {
            assert(p =~= seq![program::at(x.addrs.point)] + program::places(x.addrs.coeff@));
        },
        Instruction::ExtExpReverseBits(x) => {
            assert(p =~= seq![program::at(x.addrs.base)] + program::places(x.addrs.exp@));
        },
        Instruction::PrefixSumChecks(x) => {
            assert(p =~= program::places(x.addrs.x1_vec@) + program::places(x.addrs.x2_vec@));
        },
        _ => {},
    }
}

/// Law: an instruction one of whose inputs has not been written fails, and names the first such input.
pub proof fn law_unwritten_input<F: PermutationField, EF: ExtensionField<F>>(
    rounds: Rounds<F>,
    s: State<F>,
    instr: Instruction<F>,
    isolated: bool,
)
    requires
        !effects::all_held(s.memory, inputs(instr)),
    ensures
        ({
            let r = semantics::step::<F, EF>(rounds, s, instr, isolated);
            &&& r is Err
            &&& r->Err_0 is UnwrittenAddress
            &&& first_unwritten(
                s.memory,
                inputs(instr),
                r->Err_0->UnwrittenAddress_addr as int,
            )
        }),
{
    let a = inputs(instr);
    lemma_same_places::<F, EF>(s, instr);
    lemma_read_refused::<F, EF>(s.memory, a, a.len());
    assert(a.take(a.len() as int) =~= a);
    assert(read_inputs::<F, EF>(s, instr) is Err);
    match instr {
        Instruction::Mem(x) => {
            lemma_single::<F, EF>(s.memory, x.addrs.inner);
        },
        Instruction::HintBits(x) => {
            lemma_single::<F, EF>(s.memory, x.input_addr);
        },
        Instruction::HintExt2Felts(x) => {
            lemma_single::<F, EF>(s.memory, x.input_addr);
        },
        Instruction::Print(x) => {
            lemma_single::<F, EF>(s.memory, x.addr);
        },
        _ => {},
    }
}

proof fn lemma_single<F: PrimeField32, EF>(m: Memory<F>, a: Address<F>)
    ensures
        ({
            let all = semantics::read_all::<F, EF>(m, program::places(seq![a]));
            let one = semantics::read::<F, EF>(m, program::at(a));
            &&& all is Ok <==> one is Ok
            &&& all is Err ==> one is Err && all->Err_0 == one->Err_0
        }),
{
    reveal_with_fuel(semantics::read_blocks, 2);
    assert(program::places(seq![a]) =~= seq![program::at(a)]);
}

/// Law: where all inputs have been written, an instruction fails only for its own reason: an output
/// outside of the memory, the first of which it names; a constant that is not what the cell holds; a
/// division of something else than zero by zero; a witness that is too short; or two points without a
/// chord.
pub proof fn law_failures<F: PermutationField, EF: ExtensionField<F>>(
    rounds: Rounds<F>,
    s: State<F>,
    instr: Instruction<F>,
    isolated: bool,
)
    requires
        effects::all_held(s.memory, inputs(instr)),
        semantics::instr_wf(instr),
        !chains(instr),
        semantics::step::<F, EF>(rounds, s, instr, isolated) is Err,
    ensures
        ({
            let e = semantics::step::<F, EF>(rounds, s, instr, isolated)->Err_0;
            match e {
                RuntimeError::AddressOutOfRange { addr } => first_outside(
                    s.memory,
                    outputs(instr),
                    addr as int,
                ),
                RuntimeError::MemoryMismatch { addr } => {
                    &&& instr is Mem
                    &&& instr->Mem_0.kind == MemAccessKind::Read
                    &&& instr->Mem_0.addrs.inner.0.to_int() == addr
                    &&& effects::cell(s.memory, instr->Mem_0.addrs.inner) != Some(
                        instr->Mem_0.vals.inner,
                    )
                },
                RuntimeError::DivFOutOfDomain { in1, in2, instr: division } => {
                    &&& instr is BaseAlu
                    &&& instr->BaseAlu_0.opcode == BaseAluOpcode::DivF
                    &&& in1 == effects::first_in(s.memory, instr->BaseAlu_0.addrs.in1)
                    &&& in2 == effects::first_in(s.memory, instr->BaseAlu_0.addrs.in2)
                    &&& in1 != F::zero_elem()
                    &&& in2 == F::zero_elem()
                    &&& division.addrs == instr->BaseAlu_0.addrs
                    &&& division.opcode == BaseAluOpcode::DivF
                },
                RuntimeError::DivEOutOfDomain { in1, in2, instr: division } => {
                    &&& instr is ExtAlu
                    &&& instr->ExtAlu_0.opcode == ExtAluOpcode::DivE
                    &&& in1 == effects::ext_of::<F, EF>(
                        effects::cell(s.memory, instr->ExtAlu_0.addrs.in1)->0,
                    )
                    &&& in2 == effects::ext_of::<F, EF>(
                        effects::cell(s.memory, instr->ExtAlu_0.addrs.in2)->0,
                    )
                    &&& in1 != EF::zero_elem()
                    &&& in2 == EF::zero_elem()
                    &&& division.addrs == instr->ExtAlu_0.addrs
                    &&& division.opcode == ExtAluOpcode::DivE
                },
                RuntimeError::EmptyWitnessStream => instr is Hint && s.witness.len() < outputs(
                    instr,
                ).len(),
                RuntimeError::NoCurveSum => instr is HintAddCurve,
                RuntimeError::UnwrittenAddress { .. } => false,
            }
        }),
{
    let a = inputs(instr);
    let out = outputs(instr);
    lemma_same_places::<F, EF>(s, instr);
    lemma_read_refused::<F, EF>(s.memory, a, a.len());
    lemma_held(s.memory, a);
    let read = read_inputs::<F, EF>(s, instr);
    assert(read is Ok);
    let v = read->Ok_0;
    match instr {
        Instruction::BaseAlu(x) => {
            assert(effects::cell(s.memory, a[0]) == Some(v[0]));
            assert(effects::cell(s.memory, a[1]) == Some(v[1]));
            effects::lemma_place(x.addrs.out);
            assert(out[0] == x.addrs.out && out.take(0).len() == 0);
        },
        Instruction::ExtAlu(x) => {
            assert(effects::cell(s.memory, a[0]) == Some(v[0]));
            assert(effects::cell(s.memory, a[1]) == Some(v[1]));
            effects::lemma_place(x.addrs.out);
            assert(out[0] == x.addrs.out && out.take(0).len() == 0);
        },
        Instruction::Mem(x) => {
            lemma_single::<F, EF>(s.memory, x.addrs.inner);
            effects::lemma_place(x.addrs.inner);
            if x.kind == MemAccessKind::Write {
                assert(out[0] == x.addrs.inner && out.take(0).len() == 0);
            }
        },
        Instruction::Poseidon2(x) => {
            F::law_permuted(rounds, semantics::bases(v));
            lemma_write_refused::<F, EF>(
                s.memory,
                out,
                semantics::base_blocks(F::permuted(rounds, semantics::bases(v))),
                out.len(),
            );
        },
        Instruction::Poseidon2Skinny(x) => {
            F::law_permuted(rounds, semantics::bases(v));
            lemma_write_refused::<F, EF>(
                s.memory,
                out,
                semantics::base_blocks(F::permuted(rounds, semantics::bases(v))),
                out.len(),
            );
        },
        Instruction::Select(x) => {
            let (bit, in1, in2) = (v[0].0, v[1].0, v[2].0);
            let diff = bit.times(in2.minus(in1));
            lemma_write_refused::<F, EF>(
                s.memory,
                out,
                semantics::base_blocks(seq![in1.plus(diff), in2.minus(diff)]),
                2,
            );
        },
        Instruction::HintBits(x) => {
            lemma_single::<F, EF>(s.memory, x.input_addr);
            lemma_listed(x.output_addrs_mults@);
            let b = semantics::read::<F, EF>(s.memory, program::at(x.input_addr))->Ok_0;
            lemma_write_refused::<F, EF>(
                s.memory,
                out,
                semantics::bit_blocks(b.0.to_int(), x.output_addrs_mults@.len()),
                out.len(),
            );
        },
        Instruction::HintAddCurve(x) => {
            let outs = x.output_x_addrs_mults@ + x.output_y_addrs_mults@;
            lemma_listed(outs);
            if semantics::points_sum(semantics::bases(v)) is Some {
                let sum = semantics::points_sum(semantics::bases(v))->0;
                let vals = semantics::base_blocks(
                    sum.x.subrange(0, x.output_x_addrs_mults@.len() as int) + sum.y.subrange(
                        0,
                        x.output_y_addrs_mults@.len() as int,
                    ),
                );
                lemma_write_refused::<F, EF>(s.memory, out, vals, out.len());
            }
        },
        Instruction::HintExt2Felts(x) => {
            lemma_single::<F, EF>(s.memory, x.input_addr);
            lemma_listed(x.output_addrs_mults@);
            let b = semantics::read::<F, EF>(s.memory, program::at(x.input_addr))->Ok_0;
            lemma_write_refused::<F, EF>(
                s.memory,
                out,
                semantics::base_blocks(
                    seq![b.0, b.1, b.2, b.3].subrange(0, x.output_addrs_mults@.len() as int),
                ),
                out.len(),
            );
        },
        Instruction::Hint(x) => {
            lemma_listed(x.output_addrs_mults@);
            let n = x.output_addrs_mults@.len() as int;
            if s.witness.len() >= n {
                lemma_write_refused::<F, EF>(
                    s.memory,
                    out,
                    s.witness.subrange(0, n),
                    out.len(),
                );
            }
        },
        Instruction::PolyEval(x) => {
            effects::lemma_place(x.addrs.out);
            assert(out[0] == x.addrs.out && out.take(0).len() == 0);
        },
        Instruction::Print(x) => {
            lemma_single::<F, EF>(s.memory, x.addr);
        },
        _ => {},
    }
}

proof fn lemma_listed<F: PrimeField32>(s: Seq<(Address<F>, F)>)
    ensures
        program::places(listed(s)) == program::out_places(s),
{
    assert(program::places(listed(s)) =~= program::out_places(s));
}

proof fn lemma_held<F: PrimeField32>(m: Memory<F>, addrs: Seq<Address<F>>)
    requires
        effects::all_held(m, addrs),
    ensures
        forall|place: int| !#[trigger] first_unwritten(m, addrs, place),
{
}

/// Law: the addresses that are resolved ahead for an instruction are those that it reads, and behind
/// them those that it writes, each in the order of their use.
pub proof fn law_resolved<F: PrimeField32>(instr: Instruction<F>)
    requires
        !chains(instr),
    ensures
        program::addresses(instr) == program::places(inputs(instr) + outputs(instr)),
{
    let all = program::places(inputs(instr) + outputs(instr));
    match instr {
        Instruction::HintBits(x) => {
            lemma_listed(x.output_addrs_mults@);
        },
        Instruction::HintAddCurve(x) => {
            lemma_listed(x.output_x_addrs_mults@ + x.output_y_addrs_mults@);
        },
        Instruction::HintExt2Felts(x) => {
            lemma_listed(x.output_addrs_mults@);
        },
        Instruction::Hint(x) => {
            lemma_listed(x.output_addrs_mults@);
        },
        _ => {},
    }
    assert(program::addresses(instr) =~= all);
}

/// Law: for those that write as they go along, they are the operands, then the cells of the accumulator
/// before each step, then those after each step.
pub proof fn law_resolved_chains<F: PrimeField32>(instr: Instruction<F>)
    requires
        chains(instr),
    ensures
        ({
            let (before, after) = match instr {
                Instruction::ExtExpReverseBits(x) => (x.addrs.prev_acc_vec@, x.addrs.acc_vec@),
                Instruction::PrefixSumChecks(x) => (x.addrs.prev_acc_vec@, x.addrs.acc_vec@),
                _ => (seq![], seq![]),
            };
            program::addresses(instr) == program::places(inputs(instr) + before + after)
        }),
{
    let (before, after) = match instr {
        Instruction::ExtExpReverseBits(x) => (x.addrs.prev_acc_vec@, x.addrs.acc_vec@),
        Instruction::PrefixSumChecks(x) => (x.addrs.prev_acc_vec@, x.addrs.acc_vec@),
        _ => (seq![], seq![]),
    };
    assert(program::addresses(instr) =~= program::places(inputs(instr) + before + after));
}

} // verus!
