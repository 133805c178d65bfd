//! What the instructions of a recursion program come to: which cells they read, what they leave in
//! the cells that they write, and that they leave everything else alone.
use vstd::prelude::*;
use vstd::arithmetic::power2::*;
use crate::basefold::poseidon::{PermutationField, Rounds};
use crate::field;
use crate::field::algebra;
use crate::field::{ExtensionField, Field, PrimeField32};
use crate::recursion::block::Placed;
use crate::recursion::chips::alu_base;
use crate::recursion::instruction;
use crate::recursion::instruction::{
    HintAddCurveInstr, HintBitsInstr, HintExt2FeltsInstr, HintInstr, Instruction, PrintInstr,
};
use crate::recursion::program;
use crate::recursion::semantics;
use crate::recursion::semantics::{Memory, RuntimeError, State};
use crate::recursion::types::{
    Address, BaseAluInstr, BaseAluIo, BaseAluOpcode, Block, CommitPublicValuesInstr, ExpModel,
    ExtAluInstr, ExtAluIo, ExtAluOpcode, ExtExpReverseBitsInstr, MemAccessKind, MemInstr,
    PermutationModel, PolyEvalInstr, PolyEvalModel, Poseidon2SkinnyInstr, Poseidon2WideInstr,
    PrefixModel, PrefixSumChecksInstr, SelectInstr, SelectIo,
};
use crate::stark::messages;
use crate::stark::septic_curve;
use crate::stark::septic_curve::Point;

verus! {

/// What the cell at an address holds.
pub open spec fn cell<F: PrimeField32>(m: Memory<F>, a: Address<F>) -> Option<Block<F>> {
    if a.0.to_int() < m.len() {
        m[a.0.to_int()]
    } else {
        None
    }
}

/// The first element in the cell at an address.
pub open spec fn first_in<F: PrimeField32>(m: Memory<F>, a: Address<F>) -> F {
    let b = cell(m, a)->0;
    b.0
}

/// The cells hold the blocks.
pub open spec fn cells_hold<F: PrimeField32>(
    m: Memory<F>,
    addrs: Seq<Address<F>>,
    vals: Seq<Block<F>>,
) -> bool {
    &&& addrs.len() == vals.len()
    &&& forall|i: int| 0 <= i < addrs.len() ==> cell(m, #[trigger] addrs[i]) == Some(vals[i])
}

/// All the cells have been written.
pub open spec fn all_held<F: PrimeField32>(m: Memory<F>, addrs: Seq<Address<F>>) -> bool {
    forall|i: int| 0 <= i < addrs.len() ==> cell(m, #[trigger] addrs[i]) is Some
}

/// All the addresses lie in the memory.
pub open spec fn all_inside<F: PrimeField32>(m: Memory<F>, addrs: Seq<Address<F>>) -> bool {
    forall|i: int| 0 <= i < addrs.len() ==> (#[trigger] addrs[i]).0.to_int() < m.len()
}

/// The second memory is the first with the blocks written: each written cell holds the last block
/// that was written to it, and every other cell is as it was.
pub open spec fn stores<F: PrimeField32>(
    before: Memory<F>,
    after: Memory<F>,
    addrs: Seq<Address<F>>,
    vals: Seq<Block<F>>,
) -> bool {
    &&& after.len() == before.len()
    &&& all_inside(before, addrs)
    &&& forall|i: int|
        0 <= i < addrs.len() && last_at(addrs, i) ==> cell(after, #[trigger] addrs[i]) == Some(
            vals[i],
        )
    &&& forall|j: int|
        0 <= j < before.len() && !addressed(addrs, j) ==> #[trigger] after[j] == before[j]
}

/// The second memory is the first with one block written.
pub open spec fn stores_one<F: PrimeField32>(
    before: Memory<F>,
    after: Memory<F>,
    a: Address<F>,
    b: Block<F>,
) -> bool {
    stores(before, after, seq![a], seq![b])
}

/// The second memory is the first with the two results of a selection written.
pub open spec fn stores_two<F: PrimeField32>(
    before: Memory<F>,
    after: Memory<F>,
    a: SelectIo<Address<F>>,
    b: Block<F>,
    c: Block<F>,
) -> bool {
    stores(before, after, seq![a.out1, a.out2], seq![b, c])
}

/// No later address is the same.
pub open spec fn last_at<F: PrimeField32>(addrs: Seq<Address<F>>, i: int) -> bool {
    forall|j: int| i < j < addrs.len() ==> (#[trigger] addrs[j]).0.to_int() != addrs[i].0.to_int()
}

/// One of the addresses is the place.
pub open spec fn addressed<F: PrimeField32>(addrs: Seq<Address<F>>, place: int) -> bool {
    exists|i: int| 0 <= i < addrs.len() && (#[trigger] addrs[i]).0.to_int() == place
}

/// A base field element, and zeros behind it.
pub open spec fn felt<F: PrimeField32>(x: F) -> Block<F> {
    Block(x, F::zero_elem(), F::zero_elem(), F::zero_elem())
}

/// The blocks of base field elements.
pub open spec fn felts<F: PrimeField32>(s: Seq<F>) -> Seq<Block<F>> {
    s.map_values(|x: F| felt(x))
}

/// The first elements of blocks.
pub open spec fn firsts<F>(s: Seq<Block<F>>) -> Seq<F> {
    s.map_values(|b: Block<F>| b.0)
}

/// The extension element whose coordinates a block holds.
pub open spec fn ext_of<F: PrimeField32, EF: ExtensionField<F>>(b: Block<F>) -> EF {
    EF::from_coeffs(seq![b.0, b.1, b.2, b.3])
}

/// The place of an address is the number that it stands for.
pub proof fn lemma_place<F: PrimeField32>(a: Address<F>)
    ensures
        program::at(a) as int == a.0.to_int(),
        0 <= a.0.to_int(),
{
    F::law_residues(a.0, a.0);
}

proof fn lemma_read<F: PrimeField32, EF>(m: Memory<F>, addrs: Seq<Address<F>>, n: nat)
    requires
        n <= addrs.len(),
    ensures
        ({
            let r = semantics::read_blocks::<F, EF>(m, program::places(addrs), n);
            &&& r is Ok <==> all_held(m, addrs.take(n as int))
            &&& r matches Ok(v) ==> cells_hold(m, addrs.take(n as int), v)
        }),
    decreases n,
{
    if n > 0 {
        lemma_read::<F, EF>(m, addrs, (n - 1) as nat);
        lemma_place(addrs[n - 1]);
        let less = addrs.take(n - 1);
        let more = addrs.take(n as int);
        assert(program::places(addrs)[n - 1] == program::at(addrs[n - 1]));
        let before = semantics::read_blocks::<F, EF>(m, program::places(addrs), (n - 1) as nat);
        if all_held(m, more) {
            assert forall|i: int| 0 <= i < less.len() implies cell(m, #[trigger] less[i]) is Some by {
                assert(more[i] == less[i]);
            }
            assert(cell(m, more[n - 1]) is Some);
        }
        if before is Ok && cell(m, addrs[n - 1]) is Some {
            assert forall|i: int| 0 <= i < more.len() implies cell(m, #[trigger] more[i]) is Some
                by {
                if i < n - 1 {
                    assert(less[i] == more[i]);
                }
            }
            let v = before->Ok_0.push(cell(m, addrs[n - 1])->0);
            assert forall|i: int| 0 <= i < more.len() implies cell(m, #[trigger] more[i]) == Some(
                v[i],
            ) by {
                if i < n - 1 {
                    assert(less[i] == more[i]);
                }
            }
        }
    }
}

/// Reading cells gives what they hold, where all of them have been written.
proof fn lemma_reads<F: PrimeField32, EF>(m: Memory<F>, addrs: Seq<Address<F>>, s: Seq<u32>)
    requires
        s == program::places(addrs),
    ensures
        ({
            let r = semantics::read_all::<F, EF>(m, s);
            &&& r is Ok <==> all_held(m, addrs)
            &&& r matches Ok(v) ==> cells_hold(m, addrs, v)
        }),
{
    lemma_read::<F, EF>(m, addrs, addrs.len());
    assert(addrs.take(addrs.len() as int) =~= addrs);
}

proof fn lemma_write<F: PrimeField32, EF>(
    m: Memory<F>,
    addrs: Seq<Address<F>>,
    vals: Seq<Block<F>>,
    n: nat,
)
    requires
        n <= addrs.len(),
        n <= vals.len(),
    ensures
        ({
            let r = semantics::written_blocks::<F, EF>(m, program::places(addrs), vals, n);
            &&& r is Ok <==> all_inside(m, addrs.take(n as int))
            &&& r matches Ok(t) ==> stores(m, t, addrs.take(n as int), vals)
        }),
    decreases n,
{
    let more = addrs.take(n as int);
    if n > 0 {
        lemma_write::<F, EF>(m, addrs, vals, (n - 1) as nat);
        lemma_place(addrs[n - 1]);
        let less = addrs.take(n - 1);
        assert(program::places(addrs)[n - 1] == program::at(addrs[n - 1]));
        let before = semantics::written_blocks::<F, EF>(
            m,
            program::places(addrs),
            vals,
            (n - 1) as nat,
        );
        if all_inside(m, more) {
            assert forall|i: int| 0 <= i < less.len() implies (#[trigger] less[i]).0.to_int()
                < m.len() by {
                assert(more[i] == less[i]);
            }
            assert(more[n - 1].0.to_int() < m.len());
        }
        if before is Ok && addrs[n - 1].0.to_int() < m.len() {
            let t0 = before->Ok_0;
            let p = addrs[n - 1].0.to_int();
            let t = t0.update(p, Some(vals[n - 1]));
            assert forall|i: int| 0 <= i < more.len() implies (#[trigger] more[i]).0.to_int()
                < m.len() by {
                if i < n - 1 {
                    assert(less[i] == more[i]);
                }
            }
            assert forall|i: int| 0 <= i < more.len() && last_at(more, i) implies cell(
                t,
                #[trigger] more[i],
            ) == Some(vals[i]) by {
                F::law_residues(more[i].0, more[i].0);
                if i < n - 1 {
                    assert(less[i] == more[i]);
                    assert(more[n - 1].0.to_int() != more[i].0.to_int());
                    assert(last_at(less, i)) by {
                        assert forall|j: int| i < j < less.len() implies (
                        #[trigger] less[j]).0.to_int() != less[i].0.to_int() by {
                            assert(more[j] == less[j]);
                        }
                    }
                }
            }
            assert forall|j: int| 0 <= j < m.len() && !addressed(more, j) implies #[trigger] t[j]
                == m[j] by {
                if j == p {
                    assert(more[n - 1].0.to_int() == j);
                }
                assert(!addressed(less, j)) by {
                    if addressed(less, j) {
                        let i = choose|i: int|
                            0 <= i < less.len() && (#[trigger] less[i]).0.to_int() == j;
                        assert(more[i].0.to_int() == j);
                    }
                }
            }
        }
    }
}

/// Writing cells stores the blocks, where all of the cells lie in the memory.
proof fn lemma_writes<F: PrimeField32, EF>(
    m: Memory<F>,
    addrs: Seq<Address<F>>,
    s: Seq<u32>,
    vals: Seq<Block<F>>,
)
    requires
        s == program::places(addrs),
        addrs.len() == vals.len(),
    ensures
        ({
            let r = semantics::written_all::<F, EF>(m, s, vals);
            &&& r is Ok <==> all_inside(m, addrs)
            &&& r matches Ok(t) ==> stores(m, t, addrs, vals)
        }),
{
    lemma_write::<F, EF>(m, addrs, vals, addrs.len());
    assert(addrs.take(addrs.len() as int) =~= addrs);
}

/// Writing one cell.
proof fn lemma_write_one<F: PrimeField32, EF>(m: Memory<F>, a: Address<F>, b: Block<F>)
    ensures
        ({
            let r = semantics::written::<F, EF>(m, program::at(a), b);
            &&& r is Ok <==> all_inside(m, seq![a])
            &&& r matches Ok(t) ==> stores(m, t, seq![a], seq![b])
            &&& r is Err ==> r == Err::<Memory<F>, RuntimeError<F, EF>>(
                RuntimeError::AddressOutOfRange { addr: program::at(a) },
            )
        }),
{
    lemma_place(a);
    let s = seq![a];
    assert(s[0] == a);
    if a.0.to_int() < m.len() {
        let t = m.update(a.0.to_int(), Some(b));
        assert forall|j: int| 0 <= j < m.len() && !addressed(s, j) implies #[trigger] t[j] == m[j]
            by {
            if j == a.0.to_int() {
                assert(s[0].0.to_int() == j);
            }
        }
    } else {
        assert(!all_inside(m, s));
    }
}

proof fn lemma_inside_one<F: PrimeField32>(m: Memory<F>, a: Address<F>)
    ensures
        all_inside(m, seq![a]) <==> a.0.to_int() < m.len(),
{
    assert(seq![a][0] == a);
}

proof fn lemma_quotient_times<E: Field>(x: E, y: E)
    requires
        x.valid(),
        y.valid(),
        field::is_unit(y),
    ensures
        field::quotient(x, y).times(y) == x,
{
    broadcast use algebra::group_valid;

    algebra::lemma_unit(y);
    algebra::lemma_products(x, field::inverse(y), y);
    algebra::lemma_products(x, x, x);
}

/// Law: an operation of the base field unit reads the first elements of two cells and writes their
/// sum, their difference, their product, or the element that multiplies with the second to the first;
/// zero by zero is one. It succeeds where both cells have been written, the result's cell lies in the
/// memory, and no nonzero element is divided by zero.
pub proof fn law_base_alu<F: PermutationField, EF: ExtensionField<F>>(
    rounds: Rounds<F>,
    s: State<F>,
    alu: BaseAluInstr<F>,
    isolated: bool,
)
    requires
        semantics::memory_valid(s.memory),
    ensures
        ({
            let r = semantics::step::<F, EF>(rounds, s, Instruction::BaseAlu(alu), isolated);
            let a = cell(s.memory, alu.addrs.in1);
            let b = cell(s.memory, alu.addrs.in2);
            &&& r is Ok <==> {
                &&& a is Some
                &&& b is Some
                &&& alu.addrs.out.0.to_int() < s.memory.len()
                &&& !(alu.opcode == BaseAluOpcode::DivF && first_in(
                    s.memory,
                    alu.addrs.in2,
                ) == F::zero_elem() && first_in(s.memory, alu.addrs.in1) != F::zero_elem())
            }
            &&& r matches Ok(t) ==> {
                let (x, y) = (first_in(s.memory, alu.addrs.in1), first_in(s.memory, alu.addrs.in2));
                exists|out: F|
                    {
                        &&& #[trigger] stores_one(s.memory, t.memory, alu.addrs.out, felt(out))
                        &&& t == (State {
                            memory: t.memory,
                            base_alu: s.base_alu.push(BaseAluIo { out, in1: x, in2: y }),
                            ..s
                        })
                        &&& match alu.opcode {
                            BaseAluOpcode::AddF => out == x.plus(y),
                            BaseAluOpcode::SubF => out.plus(y) == x && out.valid(),
                            BaseAluOpcode::MulF => out == x.times(y),
                            BaseAluOpcode::DivF => if y == F::zero_elem() {
                                out == F::one_elem()
                            } else {
                                out.times(y) == x && out.valid()
                            },
                        }
                    }
            }
        }),
{
    broadcast use algebra::group_valid;

    let addrs = seq![alu.addrs.in1, alu.addrs.in2];
    let places = seq![program::at(alu.addrs.in1), program::at(alu.addrs.in2)];
    assert(places =~= program::places(addrs));
    lemma_reads::<F, EF>(s.memory, addrs, places);
    let a = cell(s.memory, alu.addrs.in1);
    let b = cell(s.memory, alu.addrs.in2);
    assert(addrs[0] == alu.addrs.in1 && addrs[1] == alu.addrs.in2);
    assert(all_held(s.memory, addrs) <==> a is Some && b is Some);
    lemma_place(alu.addrs.in1);
    lemma_place(alu.addrs.in2);
    lemma_place(alu.addrs.out);
    if a is Some && b is Some {
        let (x, y) = (first_in(s.memory, alu.addrs.in1), first_in(s.memory, alu.addrs.in2));
        assert(s.memory[alu.addrs.in1.0.to_int()] is Some);
        assert(s.memory[alu.addrs.in2.0.to_int()] is Some);
        assert(x.valid() && y.valid());
        let r = semantics::base_result::<F, EF>(alu, x, y);
        algebra::lemma_opposites(x, y);
        if alu.opcode == BaseAluOpcode::DivF && y != F::zero_elem() {
            alu_base::lemma_nonzero_unit(y);
            lemma_quotient_times(x, y);
        }
        let v = semantics::read_all::<F, EF>(s.memory, places)->Ok_0;
        assert(cell(s.memory, addrs[0]) == Some(v[0]));
        assert(cell(s.memory, addrs[1]) == Some(v[1]));
        if r is Ok {
            let out = r->Ok_0;
            lemma_write_one::<F, EF>(s.memory, alu.addrs.out, felt(out));
            assert(instruction::base_block(out) == felt(out));
            lemma_inside_one(s.memory, alu.addrs.out);
            if alu.addrs.out.0.to_int() < s.memory.len() {
                let t = semantics::step::<F, EF>(
                    rounds,
                    s,
                    Instruction::BaseAlu(alu),
                    isolated,
                )->Ok_0;
                assert(stores_one(s.memory, t.memory, alu.addrs.out, felt(out)));
            }
        }
    }
}

/// Law: an operation of the extension field unit reads the extension elements in two cells and writes
/// their sum, their difference, their product, or the element that multiplies with the second to the
/// first; zero by zero is one.
pub proof fn law_ext_alu<F: PermutationField, EF: ExtensionField<F>>(
    rounds: Rounds<F>,
    s: State<F>,
    alu: ExtAluInstr<F>,
    isolated: bool,
)
    requires
        semantics::memory_valid(s.memory),
        EF::degree() == 4,
    ensures
        ({
            let r = semantics::step::<F, EF>(rounds, s, Instruction::ExtAlu(alu), isolated);
            let a = cell(s.memory, alu.addrs.in1);
            let b = cell(s.memory, alu.addrs.in2);
            let (x, y) = (ext_of::<F, EF>(a->0), ext_of::<F, EF>(b->0));
            &&& r is Ok <==> {
                &&& a is Some
                &&& b is Some
                &&& alu.addrs.out.0.to_int() < s.memory.len()
                &&& !(alu.opcode == ExtAluOpcode::DivE && y == EF::zero_elem() && x
                    != EF::zero_elem())
            }
            &&& r matches Ok(t) ==> {
                exists|out: Block<F>|
                    {
                        let z = ext_of::<F, EF>(out);
                        &&& #[trigger] stores_one(s.memory, t.memory, alu.addrs.out, out)
                        &&& t == (State {
                            memory: t.memory,
                            ext_alu: s.ext_alu.push(ExtAluIo { out, in1: a->0, in2: b->0 }),
                            ..s
                        })
                        &&& match alu.opcode {
                            ExtAluOpcode::AddE => z == x.plus(y),
                            ExtAluOpcode::SubE => z.plus(y) == x && z.valid(),
                            ExtAluOpcode::MulE => z == x.times(y),
                            ExtAluOpcode::DivE => if y == EF::zero_elem() {
                                z == EF::one_elem()
                            } else {
                                z.valid() && (field::is_unit(y) ==> z.times(y) == x)
                            },
                        }
                    }
            }
        }),
{
    broadcast use algebra::group_valid;

    let addrs = seq![alu.addrs.in1, alu.addrs.in2];
    let places = seq![program::at(alu.addrs.in1), program::at(alu.addrs.in2)];
    assert(places =~= program::places(addrs));
    lemma_reads::<F, EF>(s.memory, addrs, places);
    let a = cell(s.memory, alu.addrs.in1);
    let b = cell(s.memory, alu.addrs.in2);
    assert(addrs[0] == alu.addrs.in1 && addrs[1] == alu.addrs.in2);
    assert(all_held(s.memory, addrs) <==> a is Some && b is Some);
    lemma_place(alu.addrs.in1);
    lemma_place(alu.addrs.in2);
    lemma_place(alu.addrs.out);
    if a is Some && b is Some {
        let x = ext_of::<F, EF>(a->0);
        let y = ext_of::<F, EF>(b->0);
        assert(s.memory[alu.addrs.in1.0.to_int()] is Some);
        assert(s.memory[alu.addrs.in2.0.to_int()] is Some);
        lemma_ext_valid::<F, EF>(a->0);
        lemma_ext_valid::<F, EF>(b->0);
        let r = semantics::ext_result::<F, EF>(alu, a->0, b->0);
        EF::law_constants();
        algebra::lemma_opposites(x, y);
        if field::is_unit(y) {
            lemma_quotient_times(x, y);
        }
        instruction::law_block_round_trip::<F, EF>(a->0, x.plus(y));
        instruction::law_block_round_trip::<F, EF>(a->0, x.minus(y));
        instruction::law_block_round_trip::<F, EF>(a->0, x.times(y));
        instruction::law_block_round_trip::<F, EF>(a->0, field::quotient(x, y));
        instruction::law_block_round_trip::<F, EF>(a->0, EF::one_elem());
        let v = semantics::read_all::<F, EF>(s.memory, places)->Ok_0;
        assert(cell(s.memory, addrs[0]) == Some(v[0]));
        assert(cell(s.memory, addrs[1]) == Some(v[1]));
        if r is Ok {
            let out = r->Ok_0;
            lemma_write_one::<F, EF>(s.memory, alu.addrs.out, out);
            lemma_inside_one(s.memory, alu.addrs.out);
            if alu.addrs.out.0.to_int() < s.memory.len() {
                let t = semantics::step::<F, EF>(
                    rounds,
                    s,
                    Instruction::ExtAlu(alu),
                    isolated,
                )->Ok_0;
                assert(stores_one(s.memory, t.memory, alu.addrs.out, out));
            }
        }
    }
}

proof fn lemma_ext_valid<F: PrimeField32, EF: ExtensionField<F>>(b: Block<F>)
    requires
        semantics::block_valid(b),
        EF::degree() == 4,
    ensures
        ext_of::<F, EF>(b).valid(),
        ext_of::<F, EF>(b) == instruction::block_ext::<F, EF>(b),
{
    EF::law_from_coeffs_valid(seq![b.0, b.1, b.2, b.3]);
}

/// Law: a constant is written to its cell, or must stand there; nothing else changes.
pub proof fn law_mem<F: PermutationField, EF: ExtensionField<F>>(
    rounds: Rounds<F>,
    s: State<F>,
    mem: MemInstr<F>,
    isolated: bool,
)
    ensures
        ({
            let r = semantics::step::<F, EF>(rounds, s, Instruction::Mem(mem), isolated);
            let a = mem.addrs.inner;
            let b = mem.vals.inner;
            match mem.kind {
                MemAccessKind::Write => {
                    &&& r is Ok <==> a.0.to_int() < s.memory.len()
                    &&& r matches Ok(t) ==> stores(s.memory, t.memory, seq![a], seq![b]) && t == (
                    State { memory: t.memory, ..s })
                },
                MemAccessKind::Read => {
                    &&& r is Ok <==> cell(s.memory, a) == Some(b)
                    &&& r is Ok ==> r->Ok_0 == s
                },
            }
        }),
{
    let a = mem.addrs.inner;
    lemma_place(a);
    lemma_write_one::<F, EF>(s.memory, a, mem.vals.inner);
    assert(seq![a][0] == a);
}

/// Law: a permutation reads the first elements of sixteen cells and writes the permuted elements to
/// sixteen cells, for either of the two tables.
pub proof fn law_permutation<F: PermutationField, EF: ExtensionField<F>>(
    rounds: Rounds<F>,
    s: State<F>,
    wide: Box<Poseidon2WideInstr<F>>,
    skinny: Box<Poseidon2SkinnyInstr<F>>,
    isolated: bool,
)
    ensures
        ({
            let r = semantics::step::<F, EF>(rounds, s, Instruction::Poseidon2(wide), isolated);
            let (ins, outs) = (wide.addrs.input@, wide.addrs.output@);
            &&& r is Ok <==> all_held(s.memory, ins) && all_inside(s.memory, outs)
            &&& r matches Ok(t) ==> exists|v: Seq<Block<F>>|
                {
                    let out = F::permuted(rounds, firsts(v));
                    &&& #[trigger] cells_hold(s.memory, ins, v)
                    &&& stores(s.memory, t.memory, outs, felts(out))
                    &&& t == (State {
                        memory: t.memory,
                        poseidon2: s.poseidon2.push(
                            PermutationModel { input: firsts(v), output: out },
                        ),
                        ..s
                    })
                }
        }),
        ({
            let r = semantics::step::<F, EF>(
                rounds,
                s,
                Instruction::Poseidon2Skinny(skinny),
                isolated,
            );
            let (ins, outs) = (skinny.addrs.input@, skinny.addrs.output@);
            &&& r is Ok <==> all_held(s.memory, ins) && all_inside(s.memory, outs)
            &&& r matches Ok(t) ==> exists|v: Seq<Block<F>>|
                {
                    let out = F::permuted(rounds, firsts(v));
                    &&& #[trigger] cells_hold(s.memory, ins, v)
                    &&& stores(s.memory, t.memory, outs, felts(out))
                    &&& t == (State {
                        memory: t.memory,
                        poseidon2_skinny: s.poseidon2_skinny.push(
                            PermutationModel { input: firsts(v), output: out },
                        ),
                        ..s
                    })
                }
        }),
{
    let (ins, outs) = (wide.addrs.input@, wide.addrs.output@);
    lemma_permuted::<F, EF>(rounds, s.memory, ins, outs);
    let r = semantics::step::<F, EF>(rounds, s, Instruction::Poseidon2(wide), isolated);
    if r is Ok {
        let t = r->Ok_0;
        let v = semantics::read_all::<F, EF>(s.memory, program::places(ins))->Ok_0;
        let out = F::permuted(rounds, firsts(v));
        assert(cells_hold(s.memory, ins, v));
        assert(t == (State {
            memory: t.memory,
            poseidon2: s.poseidon2.push(PermutationModel { input: firsts(v), output: out }),
            ..s
        }));
    }
    let (ins, outs) = (skinny.addrs.input@, skinny.addrs.output@);
    lemma_permuted::<F, EF>(rounds, s.memory, ins, outs);
    let r = semantics::step::<F, EF>(rounds, s, Instruction::Poseidon2Skinny(skinny), isolated);
    if r is Ok {
        let t = r->Ok_0;
        let v = semantics::read_all::<F, EF>(s.memory, program::places(ins))->Ok_0;
        let out = F::permuted(rounds, firsts(v));
        assert(cells_hold(s.memory, ins, v));
        assert(t == (State {
            memory: t.memory,
            poseidon2_skinny: s.poseidon2_skinny.push(
                PermutationModel { input: firsts(v), output: out },
            ),
            ..s
        }));
    }
}

proof fn lemma_permuted<F: PermutationField, EF: ExtensionField<F>>(
    rounds: Rounds<F>,
    m: Memory<F>,
    ins: Seq<Address<F>>,
    outs: Seq<Address<F>>,
)
    requires
        outs.len() == 16,
    ensures
        ({
            let r = semantics::permuted_cells::<F, EF>(rounds, m, ins, outs);
            &&& r is Ok <==> all_held(m, ins) && all_inside(m, outs)
            &&& r matches Ok((t, event)) ==> {
                let v = semantics::read_all::<F, EF>(m, program::places(ins))->Ok_0;
                let out = F::permuted(rounds, firsts(v));
                &&& cells_hold(m, ins, v)
                &&& stores(m, t, outs, felts(out))
                &&& event == (PermutationModel { input: firsts(v), output: out })
            }
        }),
{
    lemma_reads::<F, EF>(m, ins, program::places(ins));
    if all_held(m, ins) {
        let v = semantics::read_all::<F, EF>(m, program::places(ins))->Ok_0;
        assert(semantics::bases(v) =~= firsts(v));
        let out = F::permuted(rounds, firsts(v));
        F::law_permuted(rounds, firsts(v));
        assert(semantics::base_blocks(out) =~= felts(out));
        lemma_writes::<F, EF>(m, outs, program::places(outs), felts(out));
    }
}

/// Law: where the bit is zero the two values are written as they are, where it is one they are
/// swapped, and always they keep their sum and move by the bit times their difference.
pub proof fn law_select<F: PermutationField, EF: ExtensionField<F>>(
    rounds: Rounds<F>,
    s: State<F>,
    select: SelectInstr<F>,
    isolated: bool,
)
    requires
        semantics::memory_valid(s.memory),
    ensures
        ({
            let a = select.addrs;
            let r = semantics::step::<F, EF>(rounds, s, Instruction::Select(select), isolated);
            let ins = seq![a.bit, a.in1, a.in2];
            let outs = seq![a.out1, a.out2];
            &&& r is Ok <==> all_held(s.memory, ins) && all_inside(s.memory, outs)
            &&& r matches Ok(t) ==> exists|out1: F, out2: F|
                {
                    let bit = first_in(s.memory, a.bit);
                    let in1 = first_in(s.memory, a.in1);
                    let in2 = first_in(s.memory, a.in2);
                    &&& #[trigger] stores_two(s.memory, t.memory, a, felt(out1), felt(out2))
                    &&& t == (State {
                        memory: t.memory,
                        select: s.select.push(SelectIo { bit, out1, out2, in1, in2 }),
                        ..s
                    })
                    &&& out1.plus(out2) == in1.plus(in2)
                    &&& out1.minus(in1) == bit.times(in2.minus(in1))
                    &&& bit == F::zero_elem() ==> out1 == in1 && out2 == in2
                    &&& bit == F::one_elem() ==> out1 == in2 && out2 == in1
                }
        }),
{
    broadcast use algebra::group_valid;

    let a = select.addrs;
    let ins = seq![a.bit, a.in1, a.in2];
    let outs = seq![a.out1, a.out2];
    let places = seq![program::at(a.bit), program::at(a.in1), program::at(a.in2)];
    assert(places =~= program::places(ins));
    lemma_reads::<F, EF>(s.memory, ins, places);
    if all_held(s.memory, ins) {
        let v = semantics::read_all::<F, EF>(s.memory, places)->Ok_0;
        assert(ins[0] == a.bit && ins[1] == a.in1 && ins[2] == a.in2);
        assert(v[0] == cell(s.memory, a.bit)->0);
        assert(v[1] == cell(s.memory, a.in1)->0);
        assert(v[2] == cell(s.memory, a.in2)->0);
        lemma_place(a.bit);
        lemma_place(a.in1);
        lemma_place(a.in2);
        assert(s.memory[a.bit.0.to_int()] is Some);
        assert(s.memory[a.in1.0.to_int()] is Some);
        assert(s.memory[a.in2.0.to_int()] is Some);
        let (bit, in1, in2) = (v[0].0, v[1].0, v[2].0);
        assert(bit.valid() && in1.valid() && in2.valid());
        let diff = bit.times(in2.minus(in1));
        let (out1, out2) = (in1.plus(diff), in2.minus(diff));
        let out_places = seq![program::at(a.out1), program::at(a.out2)];
        assert(out_places =~= program::places(outs));
        let vals = seq![felt(out1), felt(out2)];
        assert(semantics::base_blocks(seq![out1, out2]) =~= vals);
        lemma_writes::<F, EF>(s.memory, outs, out_places, vals);
        // (in1 + d) + (in2 - d) = in1 + in2.
        algebra::lemma_opposites(in2, diff);
        F::law_plus(in1, diff, in2.minus(diff));
        F::law_plus(diff, in2.minus(diff), diff);
        // (in1 + d) - in1 = d.
        F::law_plus(in1, diff, diff);
        algebra::lemma_opposites(diff, in1);
        let gap = in2.minus(in1);
        algebra::lemma_products(gap, gap, gap);
        F::law_plus(in1, in1, in1);
        algebra::lemma_opposites(in2, gap);
        // in1 + (in2 - in1) = in2 and in2 - (in2 - in1) = in1.
        algebra::lemma_opposites(in2, in1);
        F::law_plus(in1, gap, gap);
        algebra::lemma_regroup(in2, in2, in1);
        algebra::lemma_opposites(in1, in1);
        algebra::lemma_opposites(in2, in2);
        assert(out1.plus(out2) == in1.plus(in2));
        assert(out1.minus(in1) == diff);
        assert(bit == F::zero_elem() ==> out1 == in1 && out2 == in2);
        assert(bit == F::one_elem() ==> out1 == in2);
        assert(bit == F::one_elem() ==> out2 == in1);
        if all_inside(s.memory, outs) {
            let t = semantics::step::<F, EF>(
                rounds,
                s,
                Instruction::Select(select),
                isolated,
            )->Ok_0;
            assert(stores_two(s.memory, t.memory, a, felt(out1), felt(out2)));
        }
    }
}

/// Values written to the variable memory.
proof fn lemma_vars<F: PrimeField32, EF>(
    s: State<F>,
    outs: Seq<(Address<F>, F)>,
    vals: Seq<Block<F>>,
)
    requires
        outs.len() == vals.len(),
    ensures
        ({
            let r = semantics::step_vars::<F, EF>(s, outs, vals);
            &&& r is Ok <==> all_inside(s.memory, targets(outs))
            &&& r matches Ok(t) ==> {
                &&& stores(s.memory, t.memory, targets(outs), vals)
                &&& t == (State { memory: t.memory, mem_var: s.mem_var + vals, ..s })
            }
        }),
{
    assert(program::out_places(outs) =~= program::places(targets(outs)));
    lemma_writes::<F, EF>(s.memory, targets(outs), program::out_places(outs), vals);
}

/// The addresses of a list of addresses with multiplicities.
pub open spec fn targets<F>(outs: Seq<(Address<F>, F)>) -> Seq<Address<F>> {
    outs.map_values(|o: (Address<F>, F)| o.0)
}

/// The integer with the given bits, the lowest first.
pub open spec fn number_of(bits: Seq<int>) -> int
    decreases bits.len(),
{
    if bits.len() == 0 {
        0
    } else {
        bits[0] + 2 * number_of(bits.drop_first())
    }
}

proof fn lemma_bits(n: int, len: nat)
    requires
        n >= 0,
    ensures
        number_of(Seq::new(len, |i: int| n / pow2(i as nat) as int % 2)) == n % pow2(len) as int,
    decreases len,
{
    let bits = Seq::new(len, |i: int| n / pow2(i as nat) as int % 2);
    lemma2_to64();
    if len > 0 {
        let k = (len - 1) as nat;
        lemma_bits(n / 2, k);
        lemma_pow2_pos(k);
        lemma_pow2_unfold(len);
        let rest = Seq::new(k, |i: int| (n / 2) / pow2(i as nat) as int % 2);
        assert forall|i: int| 0 <= i < k implies bits.drop_first()[i] == rest[i] by {
            lemma_pow2_pos(i as nat);
            lemma_pow2_unfold((i + 1) as nat);
            vstd::arithmetic::div_mod::lemma_div_denominator(n, 2, pow2(i as nat) as int);
        }
        assert(bits.drop_first() =~= rest);
        assert(n / 1 == n);
        assert(bits[0] == n % 2);
        vstd::arithmetic::div_mod::lemma_mod_breakdown(n, 2, pow2(k) as int);
    } else {
        assert(n % 1 == 0);
    }
}

/// Law: the cells that the bits of an element are written to hold zeros and ones which make up its
/// residue, the lowest bit first, as far as there are cells.
pub proof fn law_hint_bits<F: PermutationField, EF: ExtensionField<F>>(
    rounds: Rounds<F>,
    s: State<F>,
    h: HintBitsInstr<F>,
    isolated: bool,
)
    ensures
        ({
            let r = semantics::step::<F, EF>(rounds, s, Instruction::HintBits(h), isolated);
            let outs = targets(h.output_addrs_mults@);
            &&& r is Ok <==> cell(s.memory, h.input_addr) is Some && all_inside(s.memory, outs)
            &&& r matches Ok(t) ==> exists|bits: Seq<int>|
                {
                    &&& bits.len() == outs.len()
                    &&& forall|i: int| 0 <= i < bits.len() ==> 0 <= #[trigger] bits[i] <= 1
                    &&& #[trigger] number_of(bits) == first_in(s.memory, h.input_addr).to_int()
                        % pow2(outs.len()) as int
                    &&& stores(
                        s.memory,
                        t.memory,
                        outs,
                        felts(bits.map_values(|b: int| F::from_int(b))),
                    )
                    &&& t == (State {
                        memory: t.memory,
                        mem_var: s.mem_var + felts(bits.map_values(|b: int| F::from_int(b))),
                        ..s
                    })
                }
        }),
{
    lemma_place(h.input_addr);
    let outs = h.output_addrs_mults@;
    let c = cell(s.memory, h.input_addr);
    if c is Some {
        let x = first_in(s.memory, h.input_addr);
        let n = x.to_int();
        F::law_residues(x, x);
        let bits = Seq::new(outs.len(), |i: int| n / pow2(i as nat) as int % 2);
        lemma_bits(n, outs.len());
        let vals = semantics::bit_blocks::<F>(n, outs.len());
        assert(vals =~= felts(bits.map_values(|b: int| F::from_int(b))));
        lemma_vars::<F, EF>(s, outs, vals);
    }
}

/// Law: the cells that a sum of curve points is written to hold the coordinates of the chord sum of
/// the two points that are read.
pub proof fn law_hint_add_curve<F: PermutationField, EF: ExtensionField<F>>(
    rounds: Rounds<F>,
    s: State<F>,
    h: Box<HintAddCurveInstr<F>>,
    isolated: bool,
)
    requires
        h.output_x_addrs_mults@.len() == 7,
        h.output_y_addrs_mults@.len() == 7,
    ensures
        ({
            let r = semantics::step::<F, EF>(rounds, s, Instruction::HintAddCurve(h), isolated);
            let ins = h.input1_x_addrs@ + h.input1_y_addrs@ + h.input2_x_addrs@
                + h.input2_y_addrs@;
            let outs = targets(h.output_x_addrs_mults@) + targets(h.output_y_addrs_mults@);
            r matches Ok(t) ==> exists|p: Point<F>, q: Point<F>, sum: Point<F>|
                {
                    &&& cells_hold(
                        s.memory,
                        ins,
                        semantics::read_all::<F, EF>(s.memory, program::places(ins))->Ok_0,
                    )
                    &&& p.x.len() == 7 && p.y.len() == 7 && q.x.len() == 7 && q.y.len() == 7
                    &&& firsts(
                        semantics::read_all::<F, EF>(s.memory, program::places(ins))->Ok_0,
                    ) == p.x + p.y + q.x + q.y
                    &&& #[trigger] is_chord_sum(p, q, sum)
                    &&& stores(s.memory, t.memory, outs, felts(sum.x + sum.y))
                    &&& t == (State {
                        memory: t.memory,
                        mem_var: s.mem_var + felts(sum.x + sum.y),
                        ..s
                    })
                }
        }),
{
    let ins = h.input1_x_addrs@ + h.input1_y_addrs@ + h.input2_x_addrs@ + h.input2_y_addrs@;
    let places = program::places(h.input1_x_addrs@) + program::places(h.input1_y_addrs@)
        + program::places(h.input2_x_addrs@) + program::places(h.input2_y_addrs@);
    assert(places =~= program::places(ins));
    lemma_reads::<F, EF>(s.memory, ins, places);
    if all_held(s.memory, ins) {
        let v = semantics::read_all::<F, EF>(s.memory, places)->Ok_0;
        let e = semantics::bases(v);
        assert(e =~= firsts(v));
        let p = Point { x: e.subrange(0, 7), y: e.subrange(7, 14) };
        let q = Point { x: e.subrange(14, 21), y: e.subrange(21, 28) };
        assert(e =~= p.x + p.y + q.x + q.y);
        if semantics::points_sum(e) is Some {
            let sum = semantics::points_sum(e)->0;
            assert(is_chord_sum(p, q, sum));
            assert(sum.x.subrange(0, 7) =~= sum.x);
            assert(sum.y.subrange(0, 7) =~= sum.y);
            let outs = h.output_x_addrs_mults@ + h.output_y_addrs_mults@;
            assert(targets(outs) =~= targets(h.output_x_addrs_mults@) + targets(
                h.output_y_addrs_mults@,
            ));
            let vals = semantics::base_blocks(sum.x + sum.y);
            assert(vals =~= felts(sum.x + sum.y));
            lemma_vars::<F, EF>(s, outs, vals);
        }
    }
}

/// The third point of the chord through two points, mirrored.
pub open spec fn is_chord_sum<F: PrimeField32>(p: Point<F>, q: Point<F>, sum: Point<F>) -> bool {
    septic_curve::chord_sum(p, q) == Some(sum)
}

/// Law: the first elements of the cells are committed to as they stand; outside parallel programs
/// they become the public values. The memory stays as it is.
pub proof fn law_commit<F: PermutationField, EF: ExtensionField<F>>(
    rounds: Rounds<F>,
    s: State<F>,
    c: Box<CommitPublicValuesInstr<F>>,
    isolated: bool,
)
    ensures
        ({
            let r = semantics::step::<F, EF>(
                rounds,
                s,
                Instruction::CommitPublicValues(c),
                isolated,
            );
            let ins = c.pv_addrs.elements@;
            &&& r is Ok <==> all_held(s.memory, ins)
            &&& r matches Ok(t) ==> exists|v: Seq<Block<F>>|
                {
                    &&& #[trigger] cells_hold(s.memory, ins, v)
                    &&& t == (State {
                        commits: s.commits.push(firsts(v)),
                        public_values: if isolated {
                            s.public_values
                        } else {
                            Some(firsts(v))
                        },
                        ..s
                    })
                }
        }),
{
    let ins = c.pv_addrs.elements@;
    lemma_reads::<F, EF>(s.memory, ins, program::places(ins));
    if all_held(s.memory, ins) {
        let v = semantics::read_all::<F, EF>(s.memory, program::places(ins))->Ok_0;
        assert(semantics::bases(v) =~= firsts(v));
    }
}

/// Law: to show a value changes nothing; the cell must have been written.
pub proof fn law_print<F: PermutationField, EF: ExtensionField<F>>(
    rounds: Rounds<F>,
    s: State<F>,
    p: PrintInstr<F>,
    isolated: bool,
)
    ensures
        ({
            let r = semantics::step::<F, EF>(rounds, s, Instruction::Print(p), isolated);
            &&& r is Ok <==> cell(s.memory, p.addr) is Some
            &&& r is Ok ==> r->Ok_0 == s
        }),
{
    lemma_place(p.addr);
}

/// Law: the coordinates of a cell are written one to a cell, in order.
pub proof fn law_hint_ext2felts<F: PermutationField, EF: ExtensionField<F>>(
    rounds: Rounds<F>,
    s: State<F>,
    h: HintExt2FeltsInstr<F>,
    isolated: bool,
)
    requires
        h.output_addrs_mults@.len() <= 4,
    ensures
        ({
            let r = semantics::step::<F, EF>(rounds, s, Instruction::HintExt2Felts(h), isolated);
            let outs = targets(h.output_addrs_mults@);
            &&& r is Ok <==> cell(s.memory, h.input_addr) is Some && all_inside(s.memory, outs)
            &&& r matches Ok(t) ==> {
                let b = cell(s.memory, h.input_addr)->0;
                let vals = felts(seq![b.0, b.1, b.2, b.3].take(outs.len() as int));
                &&& stores(s.memory, t.memory, outs, vals)
                &&& t == (State { memory: t.memory, mem_var: s.mem_var + vals, ..s })
            }
        }),
{
    lemma_place(h.input_addr);
    let outs = h.output_addrs_mults@;
    let c = cell(s.memory, h.input_addr);
    if c is Some {
        let b = c->0;
        let all = seq![b.0, b.1, b.2, b.3];
        let vals = semantics::base_blocks(all.subrange(0, outs.len() as int));
        assert(vals =~= felts(all.take(targets(outs).len() as int)));
        lemma_vars::<F, EF>(s, outs, vals);
    }
}

/// Law: a hint takes as many values off the front of the witness as it has cells, and writes them in
/// order; where the witness has too few, it fails.
pub proof fn law_hint<F: PermutationField, EF: ExtensionField<F>>(
    rounds: Rounds<F>,
    s: State<F>,
    h: HintInstr<F>,
    isolated: bool,
)
    ensures
        ({
            let r = semantics::step::<F, EF>(rounds, s, Instruction::Hint(h), isolated);
            let outs = targets(h.output_addrs_mults@);
            let n = outs.len();
            &&& s.witness.len() < n <==> r == Err::<State<F>, RuntimeError<F, EF>>(
                RuntimeError::EmptyWitnessStream,
            )
            &&& r is Ok <==> s.witness.len() >= n && all_inside(s.memory, outs)
            &&& r matches Ok(t) ==> exists|vals: Seq<Block<F>>|
                {
                    &&& #[trigger] stores(s.memory, t.memory, outs, vals)
                    &&& vals.len() == n
                    &&& s.witness == vals + t.witness
                    &&& t == (State {
                        memory: t.memory,
                        witness: t.witness,
                        mem_var: s.mem_var + vals,
                        ..s
                    })
                }
        }),
{
    let outs = h.output_addrs_mults@;
    let n = outs.len() as int;
    if s.witness.len() >= n {
        let vals = s.witness.subrange(0, n);
        let rest = s.witness.subrange(n, s.witness.len() as int);
        let s2 = State { witness: rest, ..s };
        lemma_vars::<F, EF>(s2, outs, vals);
        assert(s.witness =~= vals + rest);
        lemma_write_err::<F, EF>(s.memory, program::out_places(outs), vals, outs.len());
    }
}

proof fn lemma_write_err<F: PrimeField32, EF>(
    m: Memory<F>,
    addrs: Seq<u32>,
    vals: Seq<Block<F>>,
    n: nat,
)
    ensures
        semantics::written_blocks::<F, EF>(m, addrs, vals, n) != Err::<
            Memory<F>,
            RuntimeError<F, EF>,
        >(RuntimeError::EmptyWitnessStream),
    decreases n,
{
    if n > 0 {
        lemma_write_err::<F, EF>(m, addrs, vals, (n - 1) as nat);
    }
}

/// The sum of the coefficients times the powers of `x`, from the highest power down.
pub open spec fn value_at<F: PrimeField32>(coeffs: Seq<F>, x: F) -> F {
    messages::sum_of(
        Seq::new(
            coeffs.len(),
            |i: int| coeffs[i].times(field::power(x, (coeffs.len() - 1 - i) as nat)),
        ),
    )
}

proof fn lemma_sum_scaled<F: Field>(s: Seq<F>, x: F)
    requires
        field::all_valid(s),
        x.valid(),
    ensures
        messages::sum_of(s.map_values(|y: F| y.times(x))) == messages::sum_of(s).times(x),
    decreases s.len(),
{
    broadcast use algebra::group_valid;

    let t = s.map_values(|y: F| y.times(x));
    if s.len() == 0 {
        algebra::lemma_products(x, x, x);
    } else {
        lemma_sum_scaled(s.drop_last(), x);
        assert(t.drop_last() =~= s.drop_last().map_values(|y: F| y.times(x)));
        messages::lemma_sum_valid(s.drop_last());
        assert(s[s.len() - 1].valid());
        algebra::lemma_products(x, messages::sum_of(s.drop_last()), s.last());
    }
}

proof fn lemma_horner<F: PrimeField32>(coeffs: Seq<F>, x: F, n: nat)
    requires
        1 <= n <= coeffs.len(),
        field::all_valid(coeffs),
        x.valid(),
    ensures
        semantics::horner(coeffs, x, n) == value_at(coeffs.take(n as int), x),
    decreases n,
{
    broadcast use algebra::group_valid;

    let c = coeffs.take(n as int);
    let all = Seq::new(
        c.len(),
        |i: int| c[i].times(field::power(x, (c.len() - 1 - i) as nat)),
    );
    let last = coeffs[n - 1];
    assert(last.valid());
    algebra::lemma_products(last, last, last);
    assert(all.last() == last);
    if n == 1 {
        messages::lemma_sum_push(Seq::<F>::empty(), last);
        assert(all =~= Seq::<F>::empty().push(last));
        algebra::lemma_opposites(last, last);
    } else {
        let k = (n - 1) as nat;
        lemma_horner(coeffs, x, k);
        let d = coeffs.take(k as int);
        let before = Seq::new(
            d.len(),
            |i: int| d[i].times(field::power(x, (d.len() - 1 - i) as nat)),
        );
        lemma_sum_scaled(before, x);
        assert forall|i: int| 0 <= i < k implies all.drop_last()[i] == before.map_values(
            |y: F| y.times(x),
        )[i] by {
            let p = field::power(x, (k - 1 - i) as nat);
            algebra::lemma_power_valid(x, (k - 1 - i) as nat);
            assert(coeffs[i].valid());
            assert(field::power(x, (n - 1 - i) as nat) == p.times(x));
            algebra::lemma_products(coeffs[i], p, x);
        }
        assert(all.drop_last() =~= before.map_values(|y: F| y.times(x)));
    }
}

/// Law: the evaluation of a polynomial writes the sum of its coefficients times the powers of the
/// point, the first coefficient with the highest power.
pub proof fn law_poly_eval<F: PermutationField, EF: ExtensionField<F>>(
    rounds: Rounds<F>,
    s: State<F>,
    p: PolyEvalInstr<F>,
    isolated: bool,
)
    requires
        semantics::memory_valid(s.memory),
        p.addrs.coeff@.len() > 0,
    ensures
        ({
            let r = semantics::step::<F, EF>(rounds, s, Instruction::PolyEval(p), isolated);
            &&& r is Ok <==> {
                &&& cell(s.memory, p.addrs.point) is Some
                &&& all_held(s.memory, p.addrs.coeff@)
                &&& p.addrs.out.0.to_int() < s.memory.len()
            }
            &&& r matches Ok(t) ==> exists|v: Seq<Block<F>>|
                {
                    let point = first_in(s.memory, p.addrs.point);
                    let out = value_at(firsts(v), point);
                    &&& #[trigger] cells_hold(s.memory, p.addrs.coeff@, v)
                    &&& stores_one(s.memory, t.memory, p.addrs.out, felt(out))
                    &&& t == (State {
                        memory: t.memory,
                        poly_evals: s.poly_evals.push(
                            PolyEvalModel { point, coeff: firsts(v), out },
                        ),
                        ..s
                    })
                }
        }),
{
    let addrs = seq![p.addrs.point] + p.addrs.coeff@;
    let places = seq![program::at(p.addrs.point)] + program::places(p.addrs.coeff@);
    assert(places =~= program::places(addrs));
    lemma_reads::<F, EF>(s.memory, addrs, places);
    assert(addrs[0] == p.addrs.point);
    assert forall|i: int| 0 <= i < p.addrs.coeff@.len() implies p.addrs.coeff@[i] == addrs[i + 1] by {}
    if all_held(s.memory, addrs) {
        assert forall|i: int| 0 <= i < p.addrs.coeff@.len() implies cell(
            s.memory,
            #[trigger] p.addrs.coeff@[i],
        ) is Some by {
            assert(cell(s.memory, addrs[i + 1]) is Some);
        }
        assert(cell(s.memory, addrs[0]) is Some);
        let v = semantics::read_all::<F, EF>(s.memory, places)->Ok_0;
        let rest = v.subrange(1, v.len() as int);
        assert(cell(s.memory, addrs[0]) == Some(v[0]));
        assert forall|i: int| 0 <= i < p.addrs.coeff@.len() implies cell(
            s.memory,
            #[trigger] p.addrs.coeff@[i],
        ) == Some(rest[i]) by {
            assert(cell(s.memory, addrs[i + 1]) == Some(v[i + 1]));
        }
        assert(cells_hold(s.memory, p.addrs.coeff@, rest));
        let coeff = semantics::bases(rest);
        assert(coeff =~= firsts(rest));
        assert forall|i: int| 0 <= i < coeff.len() implies (#[trigger] coeff[i]).valid() by {
            let a = p.addrs.coeff@[i];
            lemma_place(a);
            assert(cell(s.memory, a) == Some(rest[i]));
            assert(s.memory[a.0.to_int()] is Some);
        }
        lemma_place(p.addrs.point);
        assert(s.memory[p.addrs.point.0.to_int()] is Some);
        lemma_horner(coeff, v[0].0, coeff.len());
        assert(coeff.take(coeff.len() as int) =~= coeff);
        let out = semantics::horner(coeff, v[0].0, coeff.len());
        lemma_write_one::<F, EF>(s.memory, p.addrs.out, felt(out));
        assert(instruction::base_block(out) == felt(out));
        assert(seq![p.addrs.out][0] == p.addrs.out);
    } else {
        if cell(s.memory, p.addrs.point) is Some && all_held(s.memory, p.addrs.coeff@) {
            assert forall|i: int| 0 <= i < addrs.len() implies cell(
                s.memory,
                #[trigger] addrs[i],
            ) is Some by {
                if i > 0 {
                    assert(addrs[i] == p.addrs.coeff@[i - 1]);
                }
            }
        }
    }
}

/// What a chain of accumulators does: each link reads an accumulator, and writes it, or its square,
/// times a factor.
pub open spec fn chain_links<F: PrimeField32, EF: ExtensionField<F>>(
    prev: Seq<Block<F>>,
    acc: Seq<Block<F>>,
    factors: Seq<EF>,
    square: bool,
) -> bool {
    &&& prev.len() == factors.len()
    &&& acc.len() == factors.len()
    &&& forall|i: int|
        #![trigger acc[i]]
        0 <= i < acc.len() ==> {
            let p = ext_of::<F, EF>(prev[i]);
            ext_of::<F, EF>(acc[i]) == (if square {
                p.times(p).times(factors[i])
            } else {
                p.times(factors[i])
            })
        }
}

/// The first accumulator is what its cell held; each next one that is read where the one before was
/// written is that one; the cells that are not written stay; the last written cell holds the last
/// accumulator.
pub open spec fn chain_runs<F: PrimeField32>(
    before: Memory<F>,
    after: Memory<F>,
    prevs: Seq<Address<F>>,
    accs: Seq<Address<F>>,
    prev: Seq<Block<F>>,
    acc: Seq<Block<F>>,
) -> bool {
    &&& after.len() == before.len()
    &&& all_inside(before, accs)
    &&& prev.len() > 0 ==> cell(before, prevs[0]) == Some(prev[0])
    &&& forall|i: int|
        #![trigger prevs[i]]
        0 < i < prevs.len() && prevs[i].0.to_int() == accs[i - 1].0.to_int() ==> prev[i] == acc[i
            - 1]
    &&& accs.len() > 0 ==> cell(after, accs.last()) == Some(acc.last())
    &&& forall|j: int|
        0 <= j < before.len() && !addressed(accs, j) ==> #[trigger] after[j] == before[j]
}

proof fn lemma_chained<F: PrimeField32, EF: ExtensionField<F>>(
    m: Memory<F>,
    prevs: Seq<Address<F>>,
    accs: Seq<Address<F>>,
    factors: Seq<EF>,
    square: bool,
    n: nat,
)
    requires
        EF::degree() == 4,
        n <= prevs.len(),
        n <= accs.len(),
        n <= factors.len(),
    ensures
        semantics::chained::<F, EF>(
            m,
            program::places(prevs),
            program::places(accs),
            factors,
            square,
            n,
        ) matches Ok(c) ==> {
            &&& chain_links::<F, EF>(c.prev, c.acc, factors.take(n as int), square)
            &&& chain_runs(m, c.memory, prevs.take(n as int), accs.take(n as int), c.prev, c.acc)
        },
    decreases n,
{
    if n > 0 {
        lemma_chained::<F, EF>(m, prevs, accs, factors, square, (n - 1) as nat);
        let r0 = semantics::chained::<F, EF>(
            m,
            program::places(prevs),
            program::places(accs),
            factors,
            square,
            (n - 1) as nat,
        );
        let r = semantics::chained::<F, EF>(
            m,
            program::places(prevs),
            program::places(accs),
            factors,
            square,
            n,
        );
        if r is Ok {
            let c0 = r0->Ok_0;
            let c = r->Ok_0;
            lemma_place(prevs[n - 1]);
            lemma_place(accs[n - 1]);
            assert(program::places(prevs)[n - 1] == program::at(prevs[n - 1]));
            assert(program::places(accs)[n - 1] == program::at(accs[n - 1]));
            let p = c.prev.last();
            let a = c.acc.last();
            assert(c.prev == c0.prev.push(p));
            assert(c.acc == c0.acc.push(a));
            let x = ext_of::<F, EF>(p);
            let y = (if square {
                x.times(x)
            } else {
                x
            }).times(factors[n - 1]);
            instruction::law_block_round_trip::<F, EF>(p, y);
            let f0 = factors.take(n - 1);
            let f = factors.take(n as int);
            assert forall|i: int| #![trigger c.acc[i]] 0 <= i < c.acc.len() implies {
                let p = ext_of::<F, EF>(c.prev[i]);
                ext_of::<F, EF>(c.acc[i]) == (if square {
                    p.times(p).times(f[i])
                } else {
                    p.times(f[i])
                })
            } by {
                if i < n - 1 {
                    assert(c.acc[i] == c0.acc[i]);
                    assert(c.prev[i] == c0.prev[i]);
                    assert(f[i] == f0[i]);
                }
            }
            let p0 = prevs.take(n - 1);
            let p1 = prevs.take(n as int);
            let a0 = accs.take(n - 1);
            let a1 = accs.take(n as int);
            assert forall|i: int| 0 <= i < a1.len() implies (#[trigger] a1[i]).0.to_int()
                < m.len() by {
                if i < n - 1 {
                    assert(a0[i] == a1[i]);
                }
            }
            assert forall|i: int|
                #![trigger p1[i]]
                0 < i < p1.len() && p1[i].0.to_int() == a1[i - 1].0.to_int() implies c.prev[i]
                == c.acc[i - 1] by {
                if i < n - 1 {
                    assert(p0[i] == p1[i]);
                    assert(a0[i - 1] == a1[i - 1]);
                    assert(c0.prev[i] == c.prev[i]);
                    assert(c0.acc[i - 1] == c.acc[i - 1]);
                } else {
                    assert(a0.last() == a1[i - 1]);
                    assert(cell(c0.memory, a0.last()) == Some(c0.acc.last()));
                }
            }
            assert forall|j: int| 0 <= j < m.len() && !addressed(a1, j) implies #[trigger] c.memory[j]
                == m[j] by {
                if j == accs[n - 1].0.to_int() {
                    assert(a1[n - 1].0.to_int() == j);
                }
                if addressed(a0, j) {
                    let i = choose|i: int|
                        0 <= i < a0.len() && (#[trigger] a0[i]).0.to_int() == j;
                    assert(a1[i].0.to_int() == j);
                }
                assert(c0.memory[j] == m[j]);
            }
            if n > 1 {
                assert(p0[0] == p1[0]);
                assert(c0.prev[0] == c.prev[0]);
            }
        }
    }
}

/// The base where the bit is one, else one.
pub open spec fn power_factors<F: PrimeField32, EF: ExtensionField<F>>(
    base: EF,
    bits: Seq<F>,
) -> Seq<EF> {
    bits.map_values(
        |b: F|
            if b.to_int() == 1 {
                base
            } else {
                EF::one_elem()
            },
    )
}

/// Law: each link of an exponentiation writes the square of the accumulator that it reads, times the
/// base where its bit is one.
pub proof fn law_ext_exp<F: PermutationField, EF: ExtensionField<F>>(
    rounds: Rounds<F>,
    s: State<F>,
    x: ExtExpReverseBitsInstr<F>,
    isolated: bool,
)
    requires
        EF::degree() == 4,
        x.addrs.prev_acc_vec@.len() == x.addrs.exp@.len(),
        x.addrs.acc_vec@.len() == x.addrs.exp@.len(),
    ensures
        semantics::step::<F, EF>(rounds, s, Instruction::ExtExpReverseBits(x), isolated) matches Ok(
            t,
        ) ==> exists|bits: Seq<Block<F>>, prev: Seq<Block<F>>, acc: Seq<Block<F>>|
            {
                let base = cell(s.memory, x.addrs.base);
                &&& base is Some
                &&& #[trigger] cells_hold(s.memory, x.addrs.exp@, bits)
                &&& chain_links::<F, EF>(
                    prev,
                    acc,
                    power_factors(ext_of::<F, EF>(base->0), firsts(bits)),
                    true,
                )
                &&& #[trigger] chain_runs(
                    s.memory,
                    t.memory,
                    x.addrs.prev_acc_vec@,
                    x.addrs.acc_vec@,
                    prev,
                    acc,
                )
                &&& t == (State {
                    memory: t.memory,
                    exps: s.exps.push(
                        ExpModel { base: base->0, exp: firsts(bits), prev_acc: prev, acc },
                    ),
                    ..s
                })
            },
{
    let addrs = seq![x.addrs.base] + x.addrs.exp@;
    let places = seq![program::at(x.addrs.base)] + program::places(x.addrs.exp@);
    assert(places =~= program::places(addrs));
    lemma_reads::<F, EF>(s.memory, addrs, places);
    let r = semantics::step::<F, EF>(rounds, s, Instruction::ExtExpReverseBits(x), isolated);
    if r is Ok {
        let t = r->Ok_0;
        let v = semantics::read_all::<F, EF>(s.memory, places)->Ok_0;
        let bits = v.subrange(1, v.len() as int);
        assert(addrs[0] == x.addrs.base);
        assert(cell(s.memory, addrs[0]) == Some(v[0]));
        assert forall|i: int| 0 <= i < x.addrs.exp@.len() implies cell(
            s.memory,
            #[trigger] x.addrs.exp@[i],
        ) == Some(bits[i]) by {
            assert(addrs[i + 1] == x.addrs.exp@[i]);
            assert(cell(s.memory, addrs[i + 1]) == Some(v[i + 1]));
        }
        assert(cells_hold(s.memory, x.addrs.exp@, bits));
        let exp = semantics::bases(bits);
        assert(exp =~= firsts(bits));
        let factors = semantics::exp_factors::<F, EF>(v[0], exp);
        assert(factors =~= power_factors(ext_of::<F, EF>(v[0]), firsts(bits)));
        let n = exp.len();
        lemma_chained::<F, EF>(
            s.memory,
            x.addrs.prev_acc_vec@,
            x.addrs.acc_vec@,
            factors,
            true,
            n,
        );
        assert(factors.take(n as int) =~= factors);
        assert(x.addrs.prev_acc_vec@.take(n as int) =~= x.addrs.prev_acc_vec@);
        assert(x.addrs.acc_vec@.take(n as int) =~= x.addrs.acc_vec@);
        let c = semantics::chained::<F, EF>(
            s.memory,
            program::places(x.addrs.prev_acc_vec@),
            program::places(x.addrs.acc_vec@),
            factors,
            true,
            n,
        )->Ok_0;
        assert(chain_runs(
            s.memory,
            t.memory,
            x.addrs.prev_acc_vec@,
            x.addrs.acc_vec@,
            c.prev,
            c.acc,
        ));
    }
}

/// `x y + (1 - x)(1 - y)` for each pair.
pub open spec fn equality_products<F: PrimeField32, EF: ExtensionField<F>>(
    x: Seq<Block<F>>,
    y: Seq<Block<F>>,
) -> Seq<EF> {
    Seq::new(
        x.len(),
        |i: int|
            {
                let (a, b) = (ext_of::<F, EF>(x[i]), ext_of::<F, EF>(y[i]));
                let one = EF::one_elem();
                a.times(b).plus(one.minus(a).times(one.minus(b)))
            },
    )
}

/// Law: each link of a product of equalities writes the accumulator that it reads times the equality
/// of the two values of its place.
pub proof fn law_prefix_sum_checks<F: PermutationField, EF: ExtensionField<F>>(
    rounds: Rounds<F>,
    s: State<F>,
    p: Box<PrefixSumChecksInstr<F>>,
    isolated: bool,
)
    requires
        EF::degree() == 4,
        p.addrs.x2_vec@.len() == p.addrs.x1_vec@.len(),
        p.addrs.prev_acc_vec@.len() == p.addrs.x1_vec@.len(),
        p.addrs.acc_vec@.len() == p.addrs.x1_vec@.len(),
    ensures
        semantics::step::<F, EF>(rounds, s, Instruction::PrefixSumChecks(p), isolated) matches Ok(
            t,
        ) ==> exists|
            x1: Seq<Block<F>>,
            x2: Seq<Block<F>>,
            prev: Seq<Block<F>>,
            acc: Seq<Block<F>>,
        |
            {
                &&& #[trigger] cells_hold(s.memory, p.addrs.x1_vec@, x1)
                &&& #[trigger] cells_hold(s.memory, p.addrs.x2_vec@, x2)
                &&& chain_links::<F, EF>(prev, acc, equality_products(x1, x2), false)
                &&& #[trigger] chain_runs(
                    s.memory,
                    t.memory,
                    p.addrs.prev_acc_vec@,
                    p.addrs.acc_vec@,
                    prev,
                    acc,
                )
                &&& t == (State {
                    memory: t.memory,
                    prefixes: s.prefixes.push(PrefixModel { x1, x2, prev_acc: prev, acc }),
                    ..s
                })
            },
{
    let n = p.addrs.x1_vec@.len();
    let addrs = p.addrs.x1_vec@ + p.addrs.x2_vec@;
    let places = program::places(p.addrs.x1_vec@) + program::places(p.addrs.x2_vec@);
    assert(places =~= program::places(addrs));
    lemma_reads::<F, EF>(s.memory, addrs, places);
    let r = semantics::step::<F, EF>(rounds, s, Instruction::PrefixSumChecks(p), isolated);
    if r is Ok {
        let t = r->Ok_0;
        let v = semantics::read_all::<F, EF>(s.memory, places)->Ok_0;
        let x1 = v.subrange(0, n as int);
        let x2 = v.subrange(n as int, v.len() as int);
        assert forall|i: int| 0 <= i < n implies cell(s.memory, #[trigger] p.addrs.x1_vec@[i])
            == Some(x1[i]) by {
            assert(addrs[i] == p.addrs.x1_vec@[i]);
            assert(cell(s.memory, addrs[i]) == Some(v[i]));
        }
        assert forall|i: int| 0 <= i < n implies cell(s.memory, #[trigger] p.addrs.x2_vec@[i])
            == Some(x2[i]) by {
            assert(addrs[n + i] == p.addrs.x2_vec@[i]);
            assert(cell(s.memory, addrs[n + i]) == Some(v[n + i]));
        }
        assert(cells_hold(s.memory, p.addrs.x1_vec@, x1));
        assert(cells_hold(s.memory, p.addrs.x2_vec@, x2));
        let factors = semantics::equality_factors::<F, EF>(x1, x2);
        assert(factors =~= equality_products::<F, EF>(x1, x2));
        lemma_chained::<F, EF>(
            s.memory,
            p.addrs.prev_acc_vec@,
            p.addrs.acc_vec@,
            factors,
            false,
            n,
        );
        assert(factors.take(n as int) =~= factors);
        assert(p.addrs.prev_acc_vec@.take(n as int) =~= p.addrs.prev_acc_vec@);
        assert(p.addrs.acc_vec@.take(n as int) =~= p.addrs.acc_vec@);
        let c = semantics::chained::<F, EF>(
            s.memory,
            program::places(p.addrs.prev_acc_vec@),
            program::places(p.addrs.acc_vec@),
            factors,
            false,
            n,
        )->Ok_0;
        assert(chain_runs(
            s.memory,
            t.memory,
            p.addrs.prev_acc_vec@,
            p.addrs.acc_vec@,
            c.prev,
            c.acc,
        ));
    }
}

/// The states between the instructions of a run: every instruction takes one state to the next.
pub open spec fn runs_through<F: PermutationField, EF: ExtensionField<F>>(
    rounds: Rounds<F>,
    states: Seq<State<F>>,
    placed: Seq<Placed<Instruction<F>>>,
) -> bool {
    &&& states.len() == placed.len() + 1
    &&& forall|i: int|
        0 <= i < placed.len() ==> semantics::step::<F, EF>(
            rounds,
            states[i],
            (#[trigger] placed[i]).item,
            placed[i].isolated,
        ) == Ok::<State<F>, RuntimeError<F, EF>>(states[i + 1])
}

/// Law: a run succeeds exactly where every one of its instructions, in order, takes the state that the
/// one before left to a next one; and the last state is what the run leaves.
pub proof fn law_run_in_order<F: PermutationField, EF: ExtensionField<F>>(
    rounds: Rounds<F>,
    s: State<F>,
    placed: Seq<Placed<Instruction<F>>>,
    end: State<F>,
)
    ensures
        semantics::executed::<F, EF>(rounds, s, placed, placed.len()) == Ok::<
            State<F>,
            RuntimeError<F, EF>,
        >(end) <==> exists|states: Seq<State<F>>|
            #[trigger] runs_through::<F, EF>(rounds, states, placed) && states[0] == s
                && states.last() == end,
{
    let n = placed.len();
    if semantics::executed::<F, EF>(rounds, s, placed, n) is Ok {
        let states = Seq::new(
            n + 1,
            |i: int| semantics::executed::<F, EF>(rounds, s, placed, i as nat)->Ok_0,
        );
        assert forall|i: int| 0 <= i < n implies semantics::step::<F, EF>(
            rounds,
            states[i],
            (#[trigger] placed[i]).item,
            placed[i].isolated,
        ) == Ok::<State<F>, RuntimeError<F, EF>>(states[i + 1]) by {
            if semantics::executed::<F, EF>(rounds, s, placed, i as nat) is Err {
                semantics::lemma_executed_err::<F, EF>(rounds, s, placed, i as nat, n);
            }
            if semantics::executed::<F, EF>(rounds, s, placed, (i + 1) as nat) is Err {
                semantics::lemma_executed_err::<F, EF>(rounds, s, placed, (i + 1) as nat, n);
            }
        }
        assert(runs_through::<F, EF>(rounds, states, placed));
        assert(states.last() == semantics::executed::<F, EF>(rounds, s, placed, n)->Ok_0);
        assert(states[0] == s);
    }
    assert forall|states: Seq<State<F>>|
        #[trigger] runs_through::<F, EF>(rounds, states, placed) && states[0]
            == s implies semantics::executed::<F, EF>(rounds, s, placed, n) == Ok::<
        State<F>,
        RuntimeError<F, EF>,
    >(states.last()) by {
        lemma_runs::<F, EF>(rounds, s, placed, states, n);
    }
}

proof fn lemma_runs<F: PermutationField, EF: ExtensionField<F>>(
    rounds: Rounds<F>,
    s: State<F>,
    placed: Seq<Placed<Instruction<F>>>,
    states: Seq<State<F>>,
    n: nat,
)
    requires
        runs_through::<F, EF>(rounds, states, placed),
        states[0] == s,
        n <= placed.len(),
    ensures
        semantics::executed::<F, EF>(rounds, s, placed, n) == Ok::<State<F>, RuntimeError<F, EF>>(
            states[n as int],
        ),
    decreases n,
{
    if n > 0 {
        lemma_runs::<F, EF>(rounds, s, placed, states, (n - 1) as nat);
        let i = n - 1;
        assert(semantics::step::<F, EF>(
            rounds,
            states[i],
            placed[i].item,
            placed[i].isolated,
        ) == Ok::<State<F>, RuntimeError<F, EF>>(states[i + 1]));
    }
}

} // verus!
