//! The instructions of a recursion program.
use vstd::prelude::*;
use crate::field::{ExtensionField, PrimeField32};
use crate::recursion::types::{
    Address, BaseAluInstr, BaseAluIo, BaseAluOpcode, Block, CommitPublicValuesInstr, ExtAluInstr,
    ExtAluIo, ExtAluOpcode, ExtExpReverseBitsInstr, MemAccessKind, MemInstr, MemIo, PolyEvalInstr,
    Poseidon2SkinnyInstr, Poseidon2WideInstr, PrefixSumChecksInstr, SelectInstr,
};

verus! {

/// The number of coordinates of a curve point's coordinate.
pub const SEPTIC_DEGREE: usize = 7;

/// An instruction of a recursion program.
#[derive(Clone, Debug)]
pub enum Instruction<F> {
    BaseAlu(BaseAluInstr<F>),
    ExtAlu(ExtAluInstr<F>),
    Mem(MemInstr<F>),
    Poseidon2(Box<Poseidon2WideInstr<F>>),
    Poseidon2Skinny(Box<Poseidon2SkinnyInstr<F>>),
    Select(SelectInstr<F>),
    HintBits(HintBitsInstr<F>),
    HintAddCurve(Box<HintAddCurveInstr<F>>),
    Print(PrintInstr<F>),
    HintExt2Felts(HintExt2FeltsInstr<F>),
    CommitPublicValues(Box<CommitPublicValuesInstr<F>>),
    Hint(HintInstr<F>),
    PolyEval(PolyEvalInstr<F>),
    ExtExpReverseBits(ExtExpReverseBitsInstr<F>),
    PrefixSumChecks(Box<PrefixSumChecksInstr<F>>),
}

/// An instruction that writes the bits of an element, the lowest first.
#[derive(Clone, Debug)]
pub struct HintBitsInstr<F> {
    pub output_addrs_mults: Vec<(Address<F>, F)>,
    pub input_addr: Address<F>,
}

/// An instruction that writes the sum of two curve points.
#[derive(Clone, Debug)]
pub struct HintAddCurveInstr<F> {
    pub output_x_addrs_mults: Vec<(Address<F>, F)>,
    pub output_y_addrs_mults: Vec<(Address<F>, F)>,
    pub input1_x_addrs: [Address<F>; SEPTIC_DEGREE],
    pub input1_y_addrs: [Address<F>; SEPTIC_DEGREE],
    pub input2_x_addrs: [Address<F>; SEPTIC_DEGREE],
    pub input2_y_addrs: [Address<F>; SEPTIC_DEGREE],
}

#[derive(Clone, Copy, Debug, PartialEq, Eq, Structural)]
pub enum FieldEltType {
    Base,
    Extension,
}

/// An instruction that shows a value.
#[derive(Clone, Debug)]
pub struct PrintInstr<F> {
    pub field_elt_type: FieldEltType,
    pub addr: Address<F>,
}

/// An instruction that writes the coordinates of an extension element.
#[derive(Clone, Debug)]
pub struct HintExt2FeltsInstr<F> {
    pub output_addrs_mults: Vec<(Address<F>, F)>,
    pub input_addr: Address<F>,
}

/// An instruction that writes the next values of the witness.
#[derive(Clone, Debug)]
pub struct HintInstr<F> {
    pub output_addrs_mults: Vec<(Address<F>, F)>,
}

/// The block of a base field element.
pub open spec fn base_block<F: PrimeField32>(x: F) -> Block<F> {
    Block(x, F::zero_elem(), F::zero_elem(), F::zero_elem())
}

/// The block of a base field element.
pub fn block_of_base<F: PrimeField32>(x: F) -> (r: Block<F>)
    ensures
        r == base_block(x),
{
    Block(x, F::zero(), F::zero(), F::zero())
}

/// The block of an extension element.
pub open spec fn ext_block<F: PrimeField32, EF: ExtensionField<F>>(x: EF) -> Block<F> {
    let s = x.base_coeffs();
    Block(s[0], s[1], s[2], s[3])
}

/// The block of an extension element.
pub fn block_of_ext<F: PrimeField32, EF: ExtensionField<F>>(x: &EF) -> (r: Block<F>)
    requires
        EF::degree() == 4,
    ensures
        r == ext_block::<F, EF>(*x),
{
    proof {
        EF::law_coeffs(*x, Seq::empty());
    }
    let s = x.as_base_slice();
    Block(s[0], s[1], s[2], s[3])
}

/// The extension element that a block holds.
pub open spec fn block_ext<F: PrimeField32, EF: ExtensionField<F>>(b: Block<F>) -> EF {
    EF::from_coeffs(seq![b.0, b.1, b.2, b.3])
}

/// The extension element that a block holds.
pub fn ext_of_block<F: PrimeField32, EF: ExtensionField<F>>(b: &Block<F>) -> (r: EF)
    requires
        EF::degree() == 4,
    ensures
        r == block_ext::<F, EF>(*b),
{
    let s: Vec<F> = vec![b.0, b.1, b.2, b.3];
    assert(s@ =~= seq![b.0, b.1, b.2, b.3]);
    EF::from_base_slice(s.as_slice())
}

/// A block keeps an extension element, and an extension element keeps a block.
pub proof fn law_block_round_trip<F: PrimeField32, EF: ExtensionField<F>>(b: Block<F>, x: EF)
    requires
        EF::degree() == 4,
    ensures
        ext_block::<F, EF>(block_ext::<F, EF>(b)) == b,
        block_ext::<F, EF>(ext_block::<F, EF>(x)) == x,
{
    EF::law_coeffs(x, seq![b.0, b.1, b.2, b.3]);
    let s = x.base_coeffs();
    assert(seq![s[0], s[1], s[2], s[3]] =~= s);
}

/// An instruction for the base field unit.
pub fn base_alu<F: PrimeField32>(
    opcode: BaseAluOpcode,
    mult: u32,
    out: u32,
    in1: u32,
    in2: u32,
) -> (r: Instruction<F>)
    requires
        mult < F::characteristic(),
        out < F::characteristic(),
        in1 < F::characteristic(),
        in2 < F::characteristic(),
    ensures
        r == Instruction::BaseAlu(
            (BaseAluInstr {
                opcode,
                mult: F::from_int(mult as int),
                addrs: (BaseAluIo {
                    out: Address(F::from_int(out as int)),
                    in1: Address(F::from_int(in1 as int)),
                    in2: Address(F::from_int(in2 as int)),
                }),
            }),
        ),
{
    Instruction::BaseAlu(
        BaseAluInstr {
            opcode,
            mult: F::from_canonical_u32(mult),
            addrs: BaseAluIo {
                out: Address(F::from_canonical_u32(out)),
                in1: Address(F::from_canonical_u32(in1)),
                in2: Address(F::from_canonical_u32(in2)),
            },
        },
    )
}

/// An instruction for the extension field unit.
pub fn ext_alu<F: PrimeField32>(
    opcode: ExtAluOpcode,
    mult: u32,
    out: u32,
    in1: u32,
    in2: u32,
) -> (r: Instruction<F>)
    requires
        mult < F::characteristic(),
        out < F::characteristic(),
        in1 < F::characteristic(),
        in2 < F::characteristic(),
    ensures
        r == Instruction::ExtAlu(
            (ExtAluInstr {
                opcode,
                mult: F::from_int(mult as int),
                addrs: (ExtAluIo {
                    out: Address(F::from_int(out as int)),
                    in1: Address(F::from_int(in1 as int)),
                    in2: Address(F::from_int(in2 as int)),
                }),
            }),
        ),
{
    Instruction::ExtAlu(
        ExtAluInstr {
            opcode,
            mult: F::from_canonical_u32(mult),
            addrs: ExtAluIo {
                out: Address(F::from_canonical_u32(out)),
                in1: Address(F::from_canonical_u32(in1)),
                in2: Address(F::from_canonical_u32(in2)),
            },
        },
    )
}

/// The memory instruction for a block.
pub open spec fn mem_instr<F: PrimeField32>(
    kind: MemAccessKind,
    mult: int,
    addr: int,
    val: Block<F>,
) -> Instruction<F> {
    Instruction::Mem(
        MemInstr {
            addrs: MemIo { inner: Address(F::from_int(addr)) },
            vals: MemIo { inner: val },
            mult: F::from_int(mult),
            kind,
        },
    )
}

/// A memory instruction for a block.
pub fn mem_block<F: PrimeField32>(
    kind: MemAccessKind,
    mult: u32,
    addr: u32,
    val: Block<F>,
) -> (r: Instruction<F>)
    requires
        mult < F::characteristic(),
        addr < F::characteristic(),
    ensures
        r == mem_instr::<F>(kind, mult as int, addr as int, val),
{
    Instruction::Mem(
        MemInstr {
            addrs: MemIo { inner: Address(F::from_canonical_u32(addr)) },
            vals: MemIo { inner: val },
            mult: F::from_canonical_u32(mult),
            kind,
        },
    )
}

/// A memory instruction for a base field element.
pub fn mem_single<F: PrimeField32>(kind: MemAccessKind, mult: u32, addr: u32, val: F) -> (r:
    Instruction<F>)
    requires
        mult < F::characteristic(),
        addr < F::characteristic(),
    ensures
        r == mem_instr::<F>(kind, mult as int, addr as int, base_block(val)),
{
    mem_block(kind, mult, addr, block_of_base(val))
}

/// A memory instruction for an integer.
pub fn mem<F: PrimeField32>(kind: MemAccessKind, mult: u32, addr: u32, val: u32) -> (r: Instruction<
    F,
>)
    requires
        mult < F::characteristic(),
        addr < F::characteristic(),
        val < F::characteristic(),
    ensures
        r == mem_instr::<F>(kind, mult as int, addr as int, base_block(F::from_int(val as int))),
{
    mem_single(kind, mult, addr, F::from_canonical_u32(val))
}

/// A memory instruction for an extension element.
pub fn mem_ext<F: PrimeField32, EF: ExtensionField<F>>(
    kind: MemAccessKind,
    mult: u32,
    addr: u32,
    val: EF,
) -> (r: Instruction<F>)
    requires
        EF::degree() == 4,
        mult < F::characteristic(),
        addr < F::characteristic(),
    ensures
        r == mem_instr::<F>(kind, mult as int, addr as int, ext_block::<F, EF>(val)),
{
    mem_block(kind, mult, addr, block_of_ext::<F, EF>(&val))
}

} // verus!
