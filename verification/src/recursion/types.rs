//! The instructions' operands and the events that instructions leave behind.
use vstd::prelude::*;
use crate::basefold::poseidon::WIDTH;
use crate::field::PrimeField32;

verus! {

/// The heap pointer address.
pub const HEAP_PTR: i32 = -4;

pub const STACK_SIZE: usize = 0x100_0000;

pub const HEAP_START_ADDRESS: usize = 0x100_0004;

pub const MEMORY_SIZE: usize = 0x1000_0000;

/// The width of the Poseidon2 permutation.
pub const PERMUTATION_WIDTH: usize = 16;

pub const POSEIDON2_SBOX_DEGREE: u64 = 3;

pub const HASH_RATE: usize = 8;

/// The number of elements of a digest.
pub const DIGEST_SIZE: usize = 8;

/// The number of bits of a field element.
pub const NUM_BITS: usize = 31;

/// The place of a memory cell, as a field element.
#[derive(Clone, Copy, Debug, PartialEq, Eq, Hash)]
pub struct Address<F>(pub F);

impl<F: PrimeField32> Address<F> {
    /// The place as an integer.
    pub open spec fn place(self) -> int {
        self.0.to_int()
    }

    pub fn as_usize(&self) -> (r: usize)
        ensures
            r as int == self.place(),
    {
        self.0.as_canonical_u32() as usize
    }
}

/// The contents of a memory cell: four field elements.
#[derive(Clone, Copy, Debug, PartialEq, Eq, Hash)]
pub struct Block<F>(pub F, pub F, pub F, pub F);

/// What an operation of the base field unit reads and writes.
#[derive(Clone, Copy, Debug, PartialEq, Eq)]
pub struct BaseAluIo<V> {
    pub out: V,
    pub in1: V,
    pub in2: V,
}

pub type BaseAluEvent<F> = BaseAluIo<F>;

/// An operation of the base field unit.
#[derive(Clone, Copy, Debug, PartialEq, Eq, Structural)]
pub enum BaseAluOpcode {
    AddF,
    SubF,
    MulF,
    DivF,
}

/// An instruction for the base field unit.
#[derive(Clone, Copy, Debug, PartialEq, Eq)]
pub struct BaseAluInstr<F> {
    pub opcode: BaseAluOpcode,
    pub mult: F,
    pub addrs: BaseAluIo<Address<F>>,
}

/// What an operation of the extension field unit reads and writes.
#[derive(Clone, Copy, Debug, PartialEq, Eq)]
pub struct ExtAluIo<V> {
    pub out: V,
    pub in1: V,
    pub in2: V,
}

pub type ExtAluEvent<F> = ExtAluIo<Block<F>>;

/// An operation of the extension field unit.
#[derive(Clone, Copy, Debug, PartialEq, Eq, Structural)]
pub enum ExtAluOpcode {
    AddE,
    SubE,
    MulE,
    DivE,
}

/// An instruction for the extension field unit.
#[derive(Clone, Copy, Debug, PartialEq, Eq)]
pub struct ExtAluInstr<F> {
    pub opcode: ExtAluOpcode,
    pub mult: F,
    pub addrs: ExtAluIo<Address<F>>,
}

/// What the memory table reads or writes.
#[derive(Clone, Copy, Debug, PartialEq, Eq)]
pub struct MemIo<V> {
    pub inner: V,
}

/// An instruction that writes a constant, or that reads one back.
#[derive(Clone, Copy, Debug, PartialEq, Eq)]
pub struct MemInstr<F> {
    pub addrs: MemIo<Address<F>>,
    pub vals: MemIo<Block<F>>,
    pub mult: F,
    pub kind: MemAccessKind,
}

pub type MemEvent<F> = MemIo<Block<F>>;

#[derive(Clone, Copy, Debug, PartialEq, Eq, Structural)]
pub enum MemAccessKind {
    Read,
    Write,
}

/// What a permutation reads and writes.
#[derive(Clone, Copy, Debug, PartialEq, Eq)]
pub struct Poseidon2Io<V> {
    pub input: [V; WIDTH],
    pub output: [V; WIDTH],
}

/// What a permutation reads and writes, mathematically.
#[verifier::ext_equal]
pub struct PermutationModel<V> {
    pub input: Seq<V>,
    pub output: Seq<V>,
}

impl<V> View for Poseidon2Io<V> {
    type V = PermutationModel<V>;

    open spec fn view(&self) -> PermutationModel<V> {
        PermutationModel { input: self.input@, output: self.output@ }
    }
}

/// A permutation for the table with one permutation in a row.
#[derive(Clone, Copy, Debug)]
pub struct Poseidon2WideInstr<F> {
    pub addrs: Poseidon2Io<Address<F>>,
    pub mults: [F; WIDTH],
}

/// The number of states that link the rows of a permutation in the skinny table.
pub const SKINNY_NUM_SCRATCH: usize = 4;

/// A permutation for the table with a few rounds in a row. `scratch_addrs[r]` holds the state that
/// row `r` leaves and row `r + 1` takes up.
#[derive(Clone, Debug)]
pub struct Poseidon2SkinnyInstr<F> {
    pub addrs: Poseidon2Io<Address<F>>,
    pub mults: [F; WIDTH],
    pub scratch_addrs: [[Address<F>; WIDTH]; SKINNY_NUM_SCRATCH],
}

pub type Poseidon2Event<F> = Poseidon2Io<F>;

/// What a select operation reads and writes.
#[derive(Clone, Copy, Debug, PartialEq, Eq)]
pub struct SelectIo<V> {
    pub bit: V,
    pub out1: V,
    pub out2: V,
    pub in1: V,
    pub in2: V,
}

/// An instruction that swaps two values where a bit is set.
#[derive(Clone, Copy, Debug, PartialEq, Eq)]
pub struct SelectInstr<F> {
    pub addrs: SelectIo<Address<F>>,
    pub mult1: F,
    pub mult2: F,
}

pub type SelectEvent<F> = SelectIo<F>;

pub type Poseidon2WideEvent<F> = Poseidon2Io<F>;

pub type Poseidon2Instr<F> = Poseidon2WideInstr<F>;

/// The public values of a program, in the order in which they are committed.
#[derive(Clone, Debug, PartialEq, Eq)]
pub struct RecursionPublicValues<T> {
    pub elements: Vec<T>,
}

/// An instruction that commits to the public values.
#[derive(Clone, Debug)]
pub struct CommitPublicValuesInstr<F> {
    pub pv_addrs: RecursionPublicValues<Address<F>>,
}

/// The commitment to the public values.
#[derive(Clone, Debug)]
pub struct CommitPublicValuesEvent<F> {
    pub public_values: RecursionPublicValues<F>,
}

/// What the evaluation of a polynomial reads and writes. The coefficients stand from the highest
/// degree down.
#[derive(Clone, Debug, PartialEq, Eq)]
pub struct PolyEvalIo<V> {
    pub point: V,
    pub coeff: Vec<V>,
    pub out: V,
}

/// What the evaluation of a polynomial reads and writes, mathematically.
#[verifier::ext_equal]
pub struct PolyEvalModel<V> {
    pub point: V,
    pub coeff: Seq<V>,
    pub out: V,
}

impl<V> View for PolyEvalIo<V> {
    type V = PolyEvalModel<V>;

    open spec fn view(&self) -> PolyEvalModel<V> {
        PolyEvalModel { point: self.point, coeff: self.coeff@, out: self.out }
    }
}

/// An instruction that evaluates a polynomial at a point.
#[derive(Clone, Debug)]
pub struct PolyEvalInstr<F> {
    pub addrs: PolyEvalIo<Address<F>>,
    pub mult: F,
    /// The places that link the partial sums of the rows.
    pub chain_accum_addrs: Vec<Address<F>>,
}

/// A [`PolyEvalInstr`] by its parts.
#[derive(Clone, Debug, PartialEq, Eq)]
pub struct PolyEvalInstrFFI<'a, F> {
    pub point: &'a Address<F>,
    pub coeff: &'a Vec<Address<F>>,
    pub out: &'a Address<F>,
    pub mult: &'a F,
    pub chain_accum: &'a Vec<Address<F>>,
}

impl<'a, F> From<&'a PolyEvalInstr<F>> for PolyEvalInstrFFI<'a, F> {
    fn from(instr: &'a PolyEvalInstr<F>) -> (r: Self) {
        PolyEvalInstrFFI {
            point: &instr.addrs.point,
            coeff: &instr.addrs.coeff,
            out: &instr.addrs.out,
            mult: &instr.mult,
            chain_accum: &instr.chain_accum_addrs,
        }
    }
}

impl<'a, F> vstd::std_specs::convert::FromSpecImpl<&'a PolyEvalInstr<F>> for PolyEvalInstrFFI<'a, F> {
    open spec fn obeys_from_spec() -> bool {
        true
    }

    open spec fn from_spec(instr: &'a PolyEvalInstr<F>) -> Self {
        PolyEvalInstrFFI {
            point: &instr.addrs.point,
            coeff: &instr.addrs.coeff,
            out: &instr.addrs.out,
            mult: &instr.mult,
            chain_accum: &instr.chain_accum_addrs,
        }
    }
}

pub type PolyEvalEvent<F> = PolyEvalIo<F>;

/// A [`PolyEvalEvent`] by its parts.
#[derive(Clone, Debug, PartialEq, Eq)]
pub struct PolyEvalEventFFI<'a, F> {
    pub point: &'a F,
    pub coeff: &'a Vec<F>,
    pub out: &'a F,
}

impl<'a, F> From<&'a PolyEvalIo<F>> for PolyEvalEventFFI<'a, F> {
    fn from(event: &'a PolyEvalIo<F>) -> (r: Self) {
        PolyEvalEventFFI { point: &event.point, coeff: &event.coeff, out: &event.out }
    }
}

impl<'a, F> vstd::std_specs::convert::FromSpecImpl<&'a PolyEvalIo<F>> for PolyEvalEventFFI<'a, F> {
    open spec fn obeys_from_spec() -> bool {
        true
    }

    open spec fn from_spec(event: &'a PolyEvalIo<F>) -> Self {
        PolyEvalEventFFI { point: &event.point, coeff: &event.coeff, out: &event.out }
    }
}

/// What the evaluation of a polynomial over the extension reads and writes. The coefficients stand
/// from the highest degree down.
#[derive(Clone, Debug, PartialEq, Eq)]
pub struct ExtPolyEvalIo<V> {
    pub point: V,
    pub coeff: Vec<V>,
    pub out: V,
}

/// An instruction that evaluates a polynomial over the extension at a point.
#[derive(Clone, Debug)]
pub struct ExtPolyEvalInstr<F> {
    pub addrs: ExtPolyEvalIo<Address<F>>,
    pub mult: F,
}

/// An [`ExtPolyEvalInstr`] by its parts.
#[derive(Clone, Debug, PartialEq, Eq)]
pub struct ExtPolyEvalInstrFFI<'a, F> {
    pub point: &'a Address<F>,
    pub coeff: &'a Vec<Address<F>>,
    pub out: &'a Address<F>,
    pub mult: &'a F,
}

impl<'a, F> From<&'a ExtPolyEvalInstr<F>> for ExtPolyEvalInstrFFI<'a, F> {
    fn from(instr: &'a ExtPolyEvalInstr<F>) -> (r: Self) {
        ExtPolyEvalInstrFFI {
            point: &instr.addrs.point,
            coeff: &instr.addrs.coeff,
            out: &instr.addrs.out,
            mult: &instr.mult,
        }
    }
}

impl<'a, F> vstd::std_specs::convert::FromSpecImpl<&'a ExtPolyEvalInstr<F>> for ExtPolyEvalInstrFFI<'a, F> {
    open spec fn obeys_from_spec() -> bool {
        true
    }

    open spec fn from_spec(instr: &'a ExtPolyEvalInstr<F>) -> Self {
        ExtPolyEvalInstrFFI {
            point: &instr.addrs.point,
            coeff: &instr.addrs.coeff,
            out: &instr.addrs.out,
            mult: &instr.mult,
        }
    }
}

pub type ExtPolyEvalEvent<F> = ExtPolyEvalIo<Block<F>>;

/// An [`ExtPolyEvalEvent`] by its parts.
#[derive(Clone, Debug, PartialEq, Eq)]
pub struct ExtPolyEvalEventFFI<'a, F> {
    pub point: &'a Block<F>,
    pub coeff: &'a Vec<Block<F>>,
    pub out: &'a Block<F>,
}

impl<'a, F> From<&'a ExtPolyEvalIo<Block<F>>> for ExtPolyEvalEventFFI<'a, F> {
    fn from(event: &'a ExtPolyEvalIo<Block<F>>) -> (r: Self) {
        ExtPolyEvalEventFFI { point: &event.point, coeff: &event.coeff, out: &event.out }
    }
}

impl<'a, F> vstd::std_specs::convert::FromSpecImpl<&'a ExtPolyEvalIo<Block<F>>> for ExtPolyEvalEventFFI<'a, F> {
    open spec fn obeys_from_spec() -> bool {
        true
    }

    open spec fn from_spec(event: &'a ExtPolyEvalIo<Block<F>>) -> Self {
        ExtPolyEvalEventFFI { point: &event.point, coeff: &event.coeff, out: &event.out }
    }
}

/// What an exponentiation by bits reads and writes: one accumulator for each bit, from the one
/// before it.
#[derive(Clone, Debug, PartialEq, Eq)]
pub struct ExtExpReverseBitsIo<V> {
    pub base: V,
    /// The bits of the exponent from the highest down.
    pub exp: Vec<V>,
    pub prev_acc_vec: Vec<V>,
    pub acc_vec: Vec<V>,
}

/// An instruction that raises a base to the power with the given bits.
#[derive(Clone, Debug)]
pub struct ExtExpReverseBitsInstr<F> {
    pub addrs: ExtExpReverseBitsIo<Address<F>>,
    pub mult: F,
}

/// An [`ExtExpReverseBitsInstr`] by its parts.
#[derive(Clone, Debug, PartialEq, Eq)]
pub struct ExtExpReverseBitsInstrFFI<'a, F> {
    pub base: &'a Address<F>,
    pub exp: &'a Vec<Address<F>>,
    pub prev_acc: &'a Vec<Address<F>>,
    pub acc: &'a Vec<Address<F>>,
    pub mult: &'a F,
}

impl<'a, F> From<&'a ExtExpReverseBitsInstr<F>> for ExtExpReverseBitsInstrFFI<'a, F> {
    fn from(instr: &'a ExtExpReverseBitsInstr<F>) -> (r: Self) {
        ExtExpReverseBitsInstrFFI {
            base: &instr.addrs.base,
            exp: &instr.addrs.exp,
            prev_acc: &instr.addrs.prev_acc_vec,
            acc: &instr.addrs.acc_vec,
            mult: &instr.mult,
        }
    }
}

impl<'a, F> vstd::std_specs::convert::FromSpecImpl<&'a ExtExpReverseBitsInstr<F>> for ExtExpReverseBitsInstrFFI<'a, F> {
    open spec fn obeys_from_spec() -> bool {
        true
    }

    open spec fn from_spec(instr: &'a ExtExpReverseBitsInstr<F>) -> Self {
        ExtExpReverseBitsInstrFFI {
            base: &instr.addrs.base,
            exp: &instr.addrs.exp,
            prev_acc: &instr.addrs.prev_acc_vec,
            acc: &instr.addrs.acc_vec,
            mult: &instr.mult,
        }
    }
}

/// The values of an exponentiation by bits.
#[derive(Clone, Debug, PartialEq, Eq)]
pub struct ExtExpReverseBitsEvent<F> {
    pub base: Block<F>,
    pub exp: Vec<F>,
    pub prev_acc_vec: Vec<Block<F>>,
    pub acc_vec: Vec<Block<F>>,
}

/// The values of an exponentiation by bits, mathematically.
#[verifier::ext_equal]
pub struct ExpModel<F> {
    pub base: Block<F>,
    pub exp: Seq<F>,
    pub prev_acc: Seq<Block<F>>,
    pub acc: Seq<Block<F>>,
}

impl<F> View for ExtExpReverseBitsEvent<F> {
    type V = ExpModel<F>;

    open spec fn view(&self) -> ExpModel<F> {
        ExpModel {
            base: self.base,
            exp: self.exp@,
            prev_acc: self.prev_acc_vec@,
            acc: self.acc_vec@,
        }
    }
}

/// An [`ExtExpReverseBitsEvent`] by its parts.
#[derive(Clone, Debug, PartialEq, Eq)]
pub struct ExtExpReverseBitsEventFFI<'a, F> {
    pub base: &'a Block<F>,
    pub exp: &'a Vec<F>,
    pub prev_acc: &'a Vec<Block<F>>,
    pub acc: &'a Vec<Block<F>>,
}

impl<'a, F> From<&'a ExtExpReverseBitsEvent<F>> for ExtExpReverseBitsEventFFI<'a, F> {
    fn from(event: &'a ExtExpReverseBitsEvent<F>) -> (r: Self) {
        ExtExpReverseBitsEventFFI {
            base: &event.base,
            exp: &event.exp,
            prev_acc: &event.prev_acc_vec,
            acc: &event.acc_vec,
        }
    }
}

impl<'a, F> vstd::std_specs::convert::FromSpecImpl<&'a ExtExpReverseBitsEvent<F>> for ExtExpReverseBitsEventFFI<'a, F> {
    open spec fn obeys_from_spec() -> bool {
        true
    }

    open spec fn from_spec(event: &'a ExtExpReverseBitsEvent<F>) -> Self {
        ExtExpReverseBitsEventFFI {
            base: &event.base,
            exp: &event.exp,
            prev_acc: &event.prev_acc_vec,
            acc: &event.acc_vec,
        }
    }
}

/// What the check of a product of equalities reads and writes: one accumulator for each pair of
/// coordinates, from the one before it.
#[derive(Clone, Debug, PartialEq, Eq)]
pub struct PrefixSumChecksIo<V> {
    pub x1_vec: Vec<V>,
    pub x2_vec: Vec<V>,
    pub prev_acc_vec: Vec<V>,
    pub acc_vec: Vec<V>,
}

/// What the check of a product of equalities reads and writes, mathematically.
#[verifier::ext_equal]
pub struct PrefixModel<V> {
    pub x1: Seq<V>,
    pub x2: Seq<V>,
    pub prev_acc: Seq<V>,
    pub acc: Seq<V>,
}

impl<V> View for PrefixSumChecksIo<V> {
    type V = PrefixModel<V>;

    open spec fn view(&self) -> PrefixModel<V> {
        PrefixModel {
            x1: self.x1_vec@,
            x2: self.x2_vec@,
            prev_acc: self.prev_acc_vec@,
            acc: self.acc_vec@,
        }
    }
}

/// An instruction that multiplies an accumulator with the equalities of pairs of coordinates.
#[derive(Clone, Debug)]
pub struct PrefixSumChecksInstr<F> {
    pub addrs: PrefixSumChecksIo<Address<F>>,
    pub mult: F,
}

pub type PrefixSumChecksEvent<F> = PrefixSumChecksIo<Block<F>>;

} // verus!
