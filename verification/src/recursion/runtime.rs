//! The memory and the units of the machine that runs recursion programs.
use std::collections::VecDeque;
use vstd::prelude::*;
use vstd::arithmetic::power2::*;
use crate::basefold::poseidon::{PermutationField, WIDTH};
use crate::field;
use crate::field::algebra;
use crate::field::{ExtensionField, Field, PrimeField32};
use crate::recursion::event_count;
use crate::recursion::event_count::Counts;
use crate::recursion::instruction;
use crate::recursion::instruction::Instruction;
use crate::recursion::program;
use crate::recursion::record;
use crate::recursion::record::{UnsafeRecord, VecEventCollector};
use crate::recursion::semantics;
use crate::recursion::semantics::{RuntimeError, State};
use crate::recursion::types::{
    Address, BaseAluInstr, BaseAluIo, BaseAluOpcode, Block, ExtAluInstr, ExtAluIo, ExtAluOpcode,
    MemAccessKind, MemInstr, MemIo, Poseidon2Io, SelectInstr, SelectIo,
};

verus! {

/// The memory: the cells that have been written, by place.
#[derive(Clone, Debug)]
pub struct MemVec<F> {
    pub cells: Vec<Option<Block<F>>>,
}

impl<F: PrimeField32> MemVec<F> {
    /// Cells that have been written hold canonical elements.
    pub open spec fn wf(self) -> bool {
        semantics::memory_valid(self.cells@)
    }

    /// A memory of `n` cells, none of them written.
    pub fn with_capacity(n: usize) -> (r: Self)
        ensures
            r.wf(),
            r.cells@.len() == n,
            forall|i: int| 0 <= i < n ==> (#[trigger] r.cells@[i]) is None,
    {
        let mut cells: Vec<Option<Block<F>>> = Vec::new();
        let mut i: usize = 0;
        while i < n
            invariant
                i <= n,
                cells@.len() == i,
                forall|j: int| 0 <= j < i ==> (#[trigger] cells@[j]) is None,
            decreases n - i,
        {
            cells.push(None);
            i += 1;
        }
        MemVec { cells }
    }

    /// What a cell holds.
    pub fn mr_at<EF>(&self, addr: u32) -> (r: Result<Block<F>, RuntimeError<F, EF>>)
        requires
            self.wf(),
        ensures
            r == semantics::read::<F, EF>(self.cells@, addr),
            r matches Ok(b) ==> semantics::block_valid(b),
    {
        let i: usize = addr as usize;
        if i < self.cells.len() {
            match self.cells[i] {
                Some(b) => Ok(b),
                None => Err(RuntimeError::UnwrittenAddress { addr }),
            }
        } else {
            Err(RuntimeError::UnwrittenAddress { addr })
        }
    }

    /// Writes a cell.
    pub fn mw_at<EF>(&mut self, addr: u32, val: Block<F>) -> (r: Result<(), RuntimeError<F, EF>>)
        requires
            old(self).wf(),
            semantics::block_valid(val),
        ensures
            final(self).wf(),
            match semantics::written::<F, EF>(old(self).cells@, addr, val) {
                Ok(m) => r is Ok && final(self).cells@ == m,
                Err(e) => r == Err::<(), RuntimeError<F, EF>>(e) && final(self).cells@ == old(
                    self,
                ).cells@,
            },
    {
        let i: usize = addr as usize;
        if i < self.cells.len() {
            self.cells.set(i, Some(val));
            Ok(())
        } else {
            Err(RuntimeError::AddressOutOfRange { addr })
        }
    }

    /// What the cells at `n` places of the table hold.
    pub(crate) fn read_range<EF>(&self, resolved: &Vec<u32>, from: usize, n: usize) -> (r: Result<
        Vec<Block<F>>,
        RuntimeError<F, EF>,
    >)
        requires
            self.wf(),
            from + n <= resolved@.len(),
        ensures
            match semantics::read_all::<F, EF>(
                self.cells@,
                resolved@.subrange(from as int, from + n),
            ) {
                Ok(s) => r is Ok && r->Ok_0@ == s && s.len() == n && semantics::blocks_valid(s),
                Err(e) => r == Err::<Vec<Block<F>>, RuntimeError<F, EF>>(e),
            },
    {
        let ghost places = resolved@.subrange(from as int, from + n);
        let len: usize = resolved.len();
        let mut out: Vec<Block<F>> = Vec::new();
        let mut i: usize = 0;
        while i < n
            invariant
                i <= n,
                self.wf(),
                len == resolved@.len(),
                from + n <= len,
                places == resolved@.subrange(from as int, from + n),
                semantics::read_blocks::<F, EF>(self.cells@, places, i as nat) == Ok::<
                    Seq<Block<F>>,
                    RuntimeError<F, EF>,
                >(out@),
            decreases n - i,
        {
            match self.mr_at::<EF>(resolved[from + i]) {
                Ok(b) => {
                    out.push(b);
                },
                Err(e) => {
                    proof {
                        lemma_read_stops::<F, EF>(self.cells@, places, (i + 1) as nat, n as nat);
                    }
                    return Err(e);
                },
            }
            i += 1;
        }
        proof {
            semantics::lemma_read_len::<F, EF>(self.cells@, places, n as nat);
        }
        Ok(out)
    }

    /// Whether the cells at `n` places of the table can be written.
    pub(crate) fn check_range<EF>(
        &self,
        resolved: &Vec<u32>,
        from: usize,
        n: usize,
        Ghost(vals): Ghost<Seq<Block<F>>>,
    ) -> (r: Result<(), RuntimeError<F, EF>>)
        requires
            from + n <= resolved@.len(),
            vals.len() == n,
        ensures
            match semantics::written_all::<F, EF>(
                self.cells@,
                resolved@.subrange(from as int, from + n),
                vals,
            ) {
                Ok(_) => r is Ok,
                Err(e) => r == Err::<(), RuntimeError<F, EF>>(e),
            },
    {
        let ghost places = resolved@.subrange(from as int, from + n);
        let size: usize = self.cells.len();
        let len: usize = resolved.len();
        let mut i: usize = 0;
        while i < n
            invariant
                i <= n,
                vals.len() == n,
                len == resolved@.len(),
                from + n <= len,
                size == self.cells@.len(),
                places == resolved@.subrange(from as int, from + n),
                semantics::written_blocks::<F, EF>(self.cells@, places, vals, i as nat) is Ok,
                semantics::written_blocks::<F, EF>(
                    self.cells@,
                    places,
                    vals,
                    i as nat,
                )->Ok_0.len() == size,
            decreases n - i,
        {
            let addr: u32 = resolved[from + i];
            if addr as usize >= size {
                proof {
                    lemma_write_stops::<F, EF>(
                        self.cells@,
                        places,
                        vals,
                        (i + 1) as nat,
                        n as nat,
                    );
                }
                return Err(RuntimeError::AddressOutOfRange { addr });
            }
            i += 1;
        }
        Ok(())
    }

    /// Writes the cells at places of the table, one after the other. Where one of them lies outside
    /// the memory, none is written.
    fn write_range<EF>(&mut self, resolved: &Vec<u32>, from: usize, vals: &Vec<Block<F>>) -> (r:
        Result<(), RuntimeError<F, EF>>)
        requires
            old(self).wf(),
            from + vals@.len() <= resolved@.len(),
            semantics::blocks_valid(vals@),
        ensures
            final(self).wf(),
            match semantics::written_all::<F, EF>(
                old(self).cells@,
                resolved@.subrange(from as int, from + vals@.len()),
                vals@,
            ) {
                Ok(m) => r is Ok && final(self).cells@ == m,
                Err(e) => r == Err::<(), RuntimeError<F, EF>>(e) && final(self).cells@ == old(
                    self,
                ).cells@,
            },
    {
        let n: usize = vals.len();
        match self.check_range::<EF>(resolved, from, n, Ghost(vals@)) {
            Ok(_) => {},
            Err(e) => {
                return Err(e);
            },
        }
        let ghost places = resolved@.subrange(from as int, from + n);
        let ghost start = self.cells@;
        let len: usize = resolved.len();
        let mut i: usize = 0;
        while i < n
            invariant
                i <= n,
                n == vals@.len(),
                self.wf(),
                start == old(self).cells@,
                len == resolved@.len(),
                from + n <= len,
                semantics::blocks_valid(vals@),
                places == resolved@.subrange(from as int, from + n),
                semantics::written_all::<F, EF>(start, places, vals@) is Ok,
                semantics::written_blocks::<F, EF>(start, places, vals@, i as nat) == Ok::<
                    Seq<Option<Block<F>>>,
                    RuntimeError<F, EF>,
                >(self.cells@),
            decreases n - i,
        {
            match self.mw_at::<EF>(resolved[from + i], vals[i]) {
                Ok(_) => {},
                Err(e) => {
                    proof {
                        lemma_write_stops::<F, EF>(
                            start,
                            places,
                            vals@,
                            (i + 1) as nat,
                            n as nat,
                        );
                    }
                    return Err(e);
                },
            }
            i += 1;
        }
        Ok(())
    }
}

proof fn lemma_read_stops<F: PrimeField32, EF>(
    m: Seq<Option<Block<F>>>,
    addrs: Seq<u32>,
    k: nat,
    n: nat,
)
    requires
        k <= n,
        semantics::read_blocks::<F, EF>(m, addrs, k) is Err,
    ensures
        semantics::read_blocks::<F, EF>(m, addrs, n) == semantics::read_blocks::<F, EF>(
            m,
            addrs,
            k,
        ),
    decreases n,
{
    if k < n {
        lemma_read_stops::<F, EF>(m, addrs, k, (n - 1) as nat);
    }
}

proof fn lemma_write_stops<F: PrimeField32, EF>(
    m: Seq<Option<Block<F>>>,
    addrs: Seq<u32>,
    vals: Seq<Block<F>>,
    k: nat,
    n: nat,
)
    requires
        k <= n,
        semantics::written_blocks::<F, EF>(m, addrs, vals, k) is Err,
    ensures
        semantics::written_blocks::<F, EF>(m, addrs, vals, n) == semantics::written_blocks::<F, EF>(
            m,
            addrs,
            vals,
            k,
        ),
    decreases n,
{
    if k < n {
        lemma_write_stops::<F, EF>(m, addrs, vals, k, (n - 1) as nat);
    }
}

/// The block of a canonical extension element is canonical, and the other way round.
proof fn lemma_block_valid<F: PrimeField32, EF: ExtensionField<F>>(x: EF, b: Block<F>)
    requires
        EF::degree() == 4,
    ensures
        x.valid() ==> semantics::block_valid(instruction::ext_block::<F, EF>(x)),
        semantics::block_valid(b) ==> instruction::block_ext::<F, EF>(b).valid(),
{
    if x.valid() {
        F::law_constants();
        EF::law_embed(x, x, F::zero_elem(), F::zero_elem());
        EF::law_coeffs(x, Seq::empty());
        assert(field::all_valid(x.base_coeffs()));
    }
    if semantics::block_valid(b) {
        let s = seq![b.0, b.1, b.2, b.3];
        assert(field::all_valid(s));
        EF::law_from_coeffs_valid(s);
    }
}

/// A quotient where zero by zero is one.
fn checked_div<E: Field>(x: E, y: E) -> (r: Option<E>)
    requires
        y.valid(),
    ensures
        r == semantics::checked_quotient(x, y),
        r matches Some(q) ==> q.valid(),
{
    proof {
        E::law_constants();
    }
    if !y.is_equal(&E::zero()) {
        let q = field::divide(x, y);
        proof {
            E::law_closed(x, field::inverse(y));
        }
        Some(q)
    } else if x.is_equal(&E::zero()) {
        Some(E::one())
    } else {
        None
    }
}

fn base_result<F: PrimeField32, EF>(instr: &BaseAluInstr<F>, x: F, y: F) -> (r: Result<
    F,
    RuntimeError<F, EF>,
>)
    requires
        y.valid(),
    ensures
        r == semantics::base_result::<F, EF>(*instr, x, y),
        r matches Ok(out) ==> out.valid(),
{
    proof {
        F::law_closed(x, y);
    }
    match instr.opcode {
        BaseAluOpcode::AddF => Ok(x.add(y)),
        BaseAluOpcode::SubF => Ok(x.sub(y)),
        BaseAluOpcode::MulF => Ok(x.mul(y)),
        BaseAluOpcode::DivF => match checked_div(x, y) {
            Some(q) => Ok(q),
            None => Err(
                RuntimeError::DivFOutOfDomain {
                    in1: x,
                    in2: y,
                    instr: BaseAluInstr {
                        opcode: instr.opcode,
                        mult: F::zero(),
                        addrs: instr.addrs,
                    },
                },
            ),
        },
    }
}

fn ext_result<F: PrimeField32, EF: ExtensionField<F>>(
    instr: &ExtAluInstr<F>,
    a: &Block<F>,
    b: &Block<F>,
) -> (r: Result<Block<F>, RuntimeError<F, EF>>)
    requires
        EF::degree() == 4,
        semantics::block_valid(*b),
    ensures
        r == semantics::ext_result::<F, EF>(*instr, *a, *b),
        r matches Ok(out) ==> semantics::block_valid(out),
{
    let x: EF = instruction::ext_of_block::<F, EF>(a);
    let y: EF = instruction::ext_of_block::<F, EF>(b);
    proof {
        EF::law_closed(x, y);
        lemma_block_valid::<F, EF>(x.plus(y), *b);
        lemma_block_valid::<F, EF>(x.minus(y), *b);
        lemma_block_valid::<F, EF>(x.times(y), *b);
    }
    match instr.opcode {
        ExtAluOpcode::AddE => Ok(instruction::block_of_ext::<F, EF>(&x.add(y))),
        ExtAluOpcode::SubE => Ok(instruction::block_of_ext::<F, EF>(&x.sub(y))),
        ExtAluOpcode::MulE => Ok(instruction::block_of_ext::<F, EF>(&x.mul(y))),
        ExtAluOpcode::DivE => match checked_div(x, y) {
            Some(q) => {
                proof {
                    lemma_block_valid::<F, EF>(q, *b);
                }
                Ok(instruction::block_of_ext::<F, EF>(&q))
            },
            None => Err(
                RuntimeError::DivEOutOfDomain {
                    in1: x,
                    in2: y,
                    instr: ExtAluInstr {
                        opcode: instr.opcode,
                        mult: F::zero(),
                        addrs: instr.addrs,
                    },
                },
            ),
        },
    }
}

/// The first elements of blocks.
pub(crate) fn bases<F: PrimeField32>(s: &Vec<Block<F>>, from: usize) -> (r: Vec<F>)
    requires
        from <= s@.len(),
        semantics::blocks_valid(s@),
    ensures
        r@ == semantics::bases(s@.subrange(from as int, s@.len() as int)),
        field::all_valid(r@),
{
    let n: usize = s.len();
    let mut r: Vec<F> = Vec::new();
    let mut i: usize = from;
    while i < n
        invariant
            from <= i <= n,
            n == s@.len(),
            semantics::blocks_valid(s@),
            r@.len() == i - from,
            forall|j: int| 0 <= j < i - from ==> #[trigger] r@[j] == s@[from + j].0,
            field::all_valid(r@),
        decreases n - i,
    {
        assert(semantics::block_valid(s@[i as int]));
        r.push(s[i].0);
        i += 1;
    }
    assert(r@ =~= semantics::bases(s@.subrange(from as int, s@.len() as int)));
    r
}

/// The blocks of base field elements.
pub(crate) fn base_blocks<F: PrimeField32>(s: &Vec<F>) -> (r: Vec<Block<F>>)
    requires
        field::all_valid(s@),
    ensures
        r@ == semantics::base_blocks(s@),
        semantics::blocks_valid(r@),
{
    proof {
        F::law_constants();
    }
    let n: usize = s.len();
    let mut r: Vec<Block<F>> = Vec::new();
    let mut i: usize = 0;
    while i < n
        invariant
            i <= n,
            n == s@.len(),
            F::zero_elem().valid(),
            field::all_valid(s@),
            r@.len() == i,
            forall|j: int| 0 <= j < i ==> #[trigger] r@[j] == instruction::base_block(s@[j]),
            semantics::blocks_valid(r@),
        decreases n - i,
    {
        r.push(instruction::block_of_base(s[i]));
        i += 1;
    }
    assert(r@ =~= semantics::base_blocks(s@));
    r
}

/// The bits of an element, the lowest first.
pub(crate) fn bit_blocks<F: PrimeField32>(num: u32, n: usize) -> (r: Vec<Block<F>>)
    requires
        n <= 32,
    ensures
        r@ == semantics::bit_blocks::<F>(num as int, n as nat),
        semantics::blocks_valid(r@),
{
    proof {
        F::law_constants();
        lemma2_to64();
        lemma_pow2(0);
    }
    let mut r: Vec<Block<F>> = Vec::new();
    let mut rest: u32 = num;
    let mut i: usize = 0;
    while i < n
        invariant
            i <= n,
            n <= 32,
            F::zero_elem().valid(),
            rest as int == num as int / pow2(i as nat) as int,
            r@.len() == i,
            forall|j: int|
                0 <= j < i ==> #[trigger] r@[j] == semantics::bit_blocks::<F>(
                    num as int,
                    n as nat,
                )[j],
            semantics::blocks_valid(r@),
        decreases n - i,
    {
        proof {
            F::law_from_int((rest % 2) as int, 0);
            lemma_pow2_pos(i as nat);
            lemma_pow2_unfold(i as nat + 1);
            vstd::arithmetic::div_mod::lemma_div_denominator(
                num as int,
                pow2(i as nat) as int,
                2,
            );
            vstd::arithmetic::mul::lemma_mul_is_commutative(pow2(i as nat) as int, 2);
        }
        r.push(instruction::block_of_base(F::from_u64((rest % 2) as u64)));
        rest = rest / 2;
        i += 1;
    }
    assert(r@ =~= semantics::bit_blocks::<F>(num as int, n as nat));
    r
}

proof fn lemma_pow2(n: nat)
    ensures
        pow2(0) == 1,
{
    lemma2_to64();
}

/// The value of a polynomial by Horner's rule, from the coefficient of the highest degree.
pub(crate) fn evaluate<F: PrimeField32>(coeffs: &Vec<F>, point: F) -> (r: F)
    requires
        coeffs@.len() > 0,
        field::all_valid(coeffs@),
    ensures
        r == semantics::horner(coeffs@, point, coeffs@.len()),
        r.valid(),
{
    let n: usize = coeffs.len();
    let mut acc = coeffs[0];
    let mut i: usize = 1;
    while i < n
        invariant
            1 <= i <= n,
            n == coeffs@.len(),
            acc == semantics::horner(coeffs@, point, i as nat),
            acc.valid(),
        decreases n - i,
    {
        proof {
            F::law_closed(acc.times(point), coeffs@[i as int]);
        }
        acc = acc.mul(point).add(coeffs[i]);
        i += 1;
    }
    acc
}

/// The machine while it runs.
pub struct ExecState<F> {
    pub memory: MemVec<F>,
    pub record: UnsafeRecord<F>,
    pub vec_events: VecEventCollector<F>,
    pub witness_stream: VecDeque<Block<F>>,
}

impl<F: PrimeField32> ExecState<F> {
    /// The machine is in the state, and its record has room for the events that are counted.
    pub open spec fn holds(self, s: State<F>, total: Counts) -> bool {
        &&& self.memory.wf()
        &&& self.memory.cells@ == s.memory
        &&& self.witness_stream@ == s.witness
        &&& semantics::blocks_valid(s.witness)
        &&& self.record.records(s)
        &&& self.record.sized(total)
        &&& self.vec_events.collects(s)
    }
}

/// What an instruction is handed besides the machine.
pub open spec fn ready<F: PermutationField>(
    s: State<F>,
    instr: Instruction<F>,
    offset: usize,
    resolved: Seq<u32>,
    c: Counts,
    total: Counts,
) -> bool {
    &&& semantics::instr_wf(instr)
    &&& resolved == program::addresses(instr)
    &&& semantics::tallied(s, c)
    &&& offset as nat == event_count::slot_of(c, instr)
    &&& event_count::counted(c, instr).within(total)
}

/// The instruction writes cells one after the other, each from the one before.
pub open spec fn chains<F>(instr: Instruction<F>) -> bool {
    instr is ExtExpReverseBits || instr is PrefixSumChecks
}

/// The machine is as it was in the state before an instruction, but for the cells where the
/// instruction is a chain.
pub open spec fn unchanged<F: PrimeField32>(
    after: ExecState<F>,
    s: State<F>,
    chain: bool,
    total: Counts,
) -> bool {
    &&& after.holds(State { memory: after.memory.cells@, ..s }, total)
    &&& chain || after.memory.cells@ == s.memory
}

/// The result and the machine are those of the instruction. Where it fails, the machine is as it
/// was in the state before, but for the cells where the instruction is a chain.
pub open spec fn done<F: PrimeField32, EF>(
    after: ExecState<F>,
    r: Result<(), RuntimeError<F, EF>>,
    s: State<F>,
    chain: bool,
    expected: Result<State<F>, RuntimeError<F, EF>>,
    total: Counts,
) -> bool {
    match expected {
        Ok(t) => r is Ok && after.holds(t, total),
        Err(e) => r == Err::<(), RuntimeError<F, EF>>(e) && unchanged(after, s, chain, total),
    }
}

pub(crate) fn execute_base_alu<F: PermutationField, EF: ExtensionField<F>>(
    st: &mut ExecState<F>,
    alu: &BaseAluInstr<F>,
    offset: usize,
    resolved: &Vec<u32>,
    Ghost(s): Ghost<State<F>>,
    Ghost(c): Ghost<Counts>,
    Ghost(total): Ghost<Counts>,
) -> (r: Result<(), RuntimeError<F, EF>>)
    requires
        old(st).holds(s, total),
        ready(s, Instruction::BaseAlu(*alu), offset, resolved@, c, total),
    ensures
        done(*final(st), r, s, false, semantics::step_base_alu::<F, EF>(s, *alu), total),
{
    broadcast use algebra::group_valid;

    let ghost a = alu.addrs;
    assert(resolved@.subrange(0, 2) =~= seq![program::at(a.in1), program::at(a.in2)]);
    let v = match st.memory.read_range::<EF>(resolved, 0, 2) {
        Ok(v) => v,
        Err(e) => {
            return Err(e);
        },
    };
    assert(semantics::block_valid(v@[0]) && semantics::block_valid(v@[1]));
    let in1 = v[0].0;
    let in2 = v[1].0;
    let out = match base_result::<F, EF>(alu, in1, in2) {
        Ok(out) => out,
        Err(e) => {
            return Err(e);
        },
    };
    match st.memory.mw_at::<EF>(resolved[2], instruction::block_of_base(out)) {
        Ok(_) => {},
        Err(e) => {
            return Err(e);
        },
    }
    st.record.base_alu_events.set(offset, Some(BaseAluIo { out, in1, in2 }));
    Ok(())
}

pub(crate) fn execute_ext_alu<F: PermutationField, EF: ExtensionField<F>>(
    st: &mut ExecState<F>,
    alu: &ExtAluInstr<F>,
    offset: usize,
    resolved: &Vec<u32>,
    Ghost(s): Ghost<State<F>>,
    Ghost(c): Ghost<Counts>,
    Ghost(total): Ghost<Counts>,
) -> (r: Result<(), RuntimeError<F, EF>>)
    requires
        EF::degree() == 4,
        old(st).holds(s, total),
        ready(s, Instruction::ExtAlu(*alu), offset, resolved@, c, total),
    ensures
        done(*final(st), r, s, false, semantics::step_ext_alu::<F, EF>(s, *alu), total),
{
    let ghost a = alu.addrs;
    assert(resolved@.subrange(0, 2) =~= seq![program::at(a.in1), program::at(a.in2)]);
    let v = match st.memory.read_range::<EF>(resolved, 0, 2) {
        Ok(v) => v,
        Err(e) => {
            return Err(e);
        },
    };
    assert(semantics::block_valid(v@[0]) && semantics::block_valid(v@[1]));
    let in1 = v[0];
    let in2 = v[1];
    let out = match ext_result::<F, EF>(alu, &in1, &in2) {
        Ok(out) => out,
        Err(e) => {
            return Err(e);
        },
    };
    match st.memory.mw_at::<EF>(resolved[2], out) {
        Ok(_) => {},
        Err(e) => {
            return Err(e);
        },
    }
    st.record.ext_alu_events.set(offset, Some(ExtAluIo { out, in1, in2 }));
    Ok(())
}

fn same_block<F: PrimeField32>(a: &Block<F>, b: &Block<F>) -> (r: bool)
    ensures
        r == (*a == *b),
{
    a.0.is_equal(&b.0) && a.1.is_equal(&b.1) && a.2.is_equal(&b.2) && a.3.is_equal(&b.3)
}

pub(crate) fn execute_mem<F: PermutationField, EF: ExtensionField<F>>(
    st: &mut ExecState<F>,
    mem: &MemInstr<F>,
    offset: usize,
    resolved: &Vec<u32>,
    Ghost(s): Ghost<State<F>>,
    Ghost(c): Ghost<Counts>,
    Ghost(total): Ghost<Counts>,
) -> (r: Result<(), RuntimeError<F, EF>>)
    requires
        old(st).holds(s, total),
        ready(s, Instruction::Mem(*mem), offset, resolved@, c, total),
    ensures
        done(*final(st), r, s, false, semantics::step_mem::<F, EF>(s, *mem), total),
{
    let addr: u32 = resolved[0];
    match mem.kind {
        MemAccessKind::Read => match st.memory.mr_at::<EF>(addr) {
            Ok(b) => if same_block(&b, &mem.vals.inner) {
                Ok(())
            } else {
                Err(RuntimeError::MemoryMismatch { addr })
            },
            Err(e) => Err(e),
        },
        MemAccessKind::Write => st.memory.mw_at::<EF>(addr, mem.vals.inner),
    }
}

/// The sixteen values in an array.
fn to_array<F: PrimeField32>(v: &Vec<F>) -> (r: [F; WIDTH])
    requires
        v@.len() == WIDTH,
    ensures
        r@ == v@,
{
    let r: [F; WIDTH] = [
        v[0], v[1], v[2], v[3], v[4], v[5], v[6], v[7], v[8], v[9], v[10], v[11], v[12], v[13],
        v[14], v[15],
    ];
    assert(r@ =~= v@);
    r
}

/// Permutes sixteen cells into sixteen cells.
pub(crate) fn permute_cells<F: PermutationField, EF: ExtensionField<F>>(
    memory: &mut MemVec<F>,
    perm: &F::Permutation,
    resolved: &Vec<u32>,
    Ghost(input): Ghost<Seq<Address<F>>>,
    Ghost(output): Ghost<Seq<Address<F>>>,
) -> (r: Result<Poseidon2Io<F>, RuntimeError<F, EF>>)
    requires
        old(memory).wf(),
        input.len() == WIDTH,
        output.len() == WIDTH,
        resolved@ == program::places(input) + program::places(output),
    ensures
        final(memory).wf(),
        match semantics::permuted_cells::<F, EF>(
            F::rounds_of(*perm),
            old(memory).cells@,
            input,
            output,
        ) {
            Ok((m, event)) => r is Ok && final(memory).cells@ == m && r->Ok_0@ == event,
            Err(e) => r == Err::<Poseidon2Io<F>, RuntimeError<F, EF>>(e) && final(memory).cells@
                == old(memory).cells@,
        },
{
    assert(resolved@.subrange(0, 16) =~= program::places(input));
    assert(resolved@.subrange(16, 32) =~= program::places(output));
    let v = match memory.read_range::<EF>(resolved, 0, 16) {
        Ok(v) => v,
        Err(e) => {
            return Err(e);
        },
    };
    let in_vals = bases(&v, 0);
    assert(v@.subrange(0, v@.len() as int) =~= v@);
    let out_vals = F::permute(perm, &in_vals);
    proof {
        F::law_permuted(F::rounds_of(*perm), in_vals@);
    }
    let blocks = base_blocks(&out_vals);
    match memory.write_range::<EF>(resolved, 16, &blocks) {
        Ok(_) => {},
        Err(e) => {
            return Err(e);
        },
    }
    Ok(Poseidon2Io { input: to_array(&in_vals), output: to_array(&out_vals) })
}

pub(crate) fn execute_select<F: PermutationField, EF: ExtensionField<F>>(
    st: &mut ExecState<F>,
    select: &SelectInstr<F>,
    offset: usize,
    resolved: &Vec<u32>,
    Ghost(s): Ghost<State<F>>,
    Ghost(c): Ghost<Counts>,
    Ghost(total): Ghost<Counts>,
) -> (r: Result<(), RuntimeError<F, EF>>)
    requires
        old(st).holds(s, total),
        ready(s, Instruction::Select(*select), offset, resolved@, c, total),
    ensures
        done(*final(st), r, s, false, semantics::step_select::<F, EF>(s, select.addrs), total),
{
    broadcast use algebra::group_valid;

    let ghost a = select.addrs;
    assert(resolved@.subrange(0, 3) =~= seq![
        program::at(a.bit),
        program::at(a.in1),
        program::at(a.in2),
    ]);
    assert(resolved@.subrange(3, 5) =~= seq![program::at(a.out1), program::at(a.out2)]);
    let v = match st.memory.read_range::<EF>(resolved, 0, 3) {
        Ok(v) => v,
        Err(e) => {
            return Err(e);
        },
    };
    let bit = v[0].0;
    let in1 = v[1].0;
    let in2 = v[2].0;
    let bit_diff = bit.mul(in2.sub(in1));
    let out1 = in1.add(bit_diff);
    let out2 = in2.sub(bit_diff);
    let outs: Vec<F> = vec![out1, out2];
    assert(outs@ =~= seq![out1, out2]);
    let blocks = base_blocks(&outs);
    match st.memory.write_range::<EF>(resolved, 3, &blocks) {
        Ok(_) => {},
        Err(e) => {
            return Err(e);
        },
    }
    st.record.select_events.set(offset, Some(SelectIo { bit, out1, out2, in1, in2 }));
    Ok(())
}

/// Writes values to cells of the variable memory, and their events.
pub(crate) fn execute_vars<F: PermutationField, EF: ExtensionField<F>>(
    st: &mut ExecState<F>,
    vals: &Vec<Block<F>>,
    offset: usize,
    resolved: &Vec<u32>,
    from: usize,
    Ghost(s): Ghost<State<F>>,
    Ghost(outs): Ghost<Seq<(Address<F>, F)>>,
    Ghost(total): Ghost<Counts>,
) -> (r: Result<(), RuntimeError<F, EF>>)
    requires
        old(st).holds(s, total),
        semantics::blocks_valid(vals@),
        outs.len() == vals@.len(),
        from + vals@.len() <= resolved@.len(),
        resolved@.subrange(from as int, from + vals@.len()) == program::out_places(outs),
        offset == s.mem_var.len(),
        offset + vals@.len() <= total.mem_var_events,
    ensures
        done(*final(st), r, s, false, semantics::step_vars::<F, EF>(s, outs, vals@), total),
{
    match st.memory.write_range::<EF>(resolved, from, vals) {
        Ok(_) => {},
        Err(e) => {
            return Err(e);
        },
    }
    let ghost written = st.memory.cells@;
    let ghost slots = st.record.mem_var_events@;
    let num_slots: usize = st.record.mem_var_events.len();
    let n: usize = vals.len();
    let mut i: usize = 0;
    while i < n
        invariant
            i <= n,
            n == vals@.len(),
            offset == s.mem_var.len(),
            offset + n <= total.mem_var_events,
            slots.len() == total.mem_var_events,
            num_slots == slots.len(),
            record::filled_cells(slots, s.mem_var),
            st.memory.wf(),
            st.memory.cells@ == written,
            st.witness_stream@ == s.witness,
            st.vec_events == old(st).vec_events,
            st.record.base_alu_events == old(st).record.base_alu_events,
            st.record.ext_alu_events == old(st).record.ext_alu_events,
            st.record.mem_const_count == old(st).record.mem_const_count,
            st.record.poseidon2_events == old(st).record.poseidon2_events,
            st.record.poseidon2_skinny_events == old(st).record.poseidon2_skinny_events,
            st.record.select_events == old(st).record.select_events,
            st.record.commit_pv_hash_events == old(st).record.commit_pv_hash_events,
            st.record.mem_var_events@.len() == slots.len(),
            forall|j: int|
                0 <= j < offset ==> #[trigger] st.record.mem_var_events@[j] == slots[j],
            forall|j: int|
                offset <= j < offset + i ==> #[trigger] st.record.mem_var_events@[j] == Some(
                    MemIo { inner: vals@[j - offset] },
                ),
            forall|j: int|
                offset + i <= j < slots.len() ==> (#[trigger] st.record.mem_var_events@[j]) is None,
        decreases n - i,
    {
        st.record.mem_var_events.set(offset + i, Some(MemIo { inner: vals[i] }));
        i += 1;
    }
    Ok(())
}

/// The steps of a chain of accumulators.
pub(crate) fn run_chain<F: PermutationField, EF: ExtensionField<F>>(
    memory: &mut MemVec<F>,
    resolved: &Vec<u32>,
    prev_base: usize,
    acc_base: usize,
    factors: &Vec<EF>,
    square: bool,
) -> (r: Result<(Vec<Block<F>>, Vec<Block<F>>), RuntimeError<F, EF>>)
    requires
        EF::degree() == 4,
        old(memory).wf(),
        prev_base + factors@.len() <= resolved@.len(),
        acc_base + factors@.len() <= resolved@.len(),
    ensures
        final(memory).wf(),
        match semantics::chained::<F, EF>(
            old(memory).cells@,
            resolved@.subrange(prev_base as int, prev_base + factors@.len()),
            resolved@.subrange(acc_base as int, acc_base + factors@.len()),
            factors@,
            square,
            factors@.len(),
        ) {
            Ok(chain) => r is Ok && final(memory).cells@ == chain.memory && r->Ok_0.0@ == chain.prev
                && r->Ok_0.1@ == chain.acc,
            Err(e) => r == Err::<(Vec<Block<F>>, Vec<Block<F>>), RuntimeError<F, EF>>(e),
        },
{
    let n: usize = factors.len();
    let ghost prevs = resolved@.subrange(prev_base as int, prev_base + n);
    let ghost accs = resolved@.subrange(acc_base as int, acc_base + n);
    let ghost start = memory.cells@;
    let len: usize = resolved.len();
    let mut prev_vals: Vec<Block<F>> = Vec::new();
    let mut acc_vals: Vec<Block<F>> = Vec::new();
    let mut i: usize = 0;
    while i < n
        invariant
            EF::degree() == 4,
            i <= n,
            n == factors@.len(),
            memory.wf(),
            start == old(memory).cells@,
            len == resolved@.len(),
            prev_base + n <= len,
            acc_base + n <= len,
            prevs == resolved@.subrange(prev_base as int, prev_base + n),
            accs == resolved@.subrange(acc_base as int, acc_base + n),
            semantics::chained::<F, EF>(start, prevs, accs, factors@, square, i as nat) is Ok,
            semantics::chained::<F, EF>(
                start,
                prevs,
                accs,
                factors@,
                square,
                i as nat,
            )->Ok_0.memory == memory.cells@,
            semantics::chained::<F, EF>(
                start,
                prevs,
                accs,
                factors@,
                square,
                i as nat,
            )->Ok_0.prev == prev_vals@,
            semantics::chained::<F, EF>(
                start,
                prevs,
                accs,
                factors@,
                square,
                i as nat,
            )->Ok_0.acc == acc_vals@,
        decreases n - i,
    {
        let prev = match memory.mr_at::<EF>(resolved[prev_base + i]) {
            Ok(b) => b,
            Err(e) => {
                proof {
                    lemma_chain_stops::<F, EF>(
                        start,
                        prevs,
                        accs,
                        factors@,
                        square,
                        (i + 1) as nat,
                        n as nat,
                    );
                }
                return Err(e);
            },
        };
        let p: EF = instruction::ext_of_block::<F, EF>(&prev);
        let q = if square {
            p.mul(p)
        } else {
            p
        };
        let e = q.mul(factors[i]);
        proof {
            EF::law_closed(q, factors@[i as int]);
            lemma_block_valid::<F, EF>(e, prev);
        }
        let acc = instruction::block_of_ext::<F, EF>(&e);
        match memory.mw_at::<EF>(resolved[acc_base + i], acc) {
            Ok(_) => {},
            Err(e) => {
                proof {
                    lemma_chain_stops::<F, EF>(
                        start,
                        prevs,
                        accs,
                        factors@,
                        square,
                        (i + 1) as nat,
                        n as nat,
                    );
                }
                return Err(e);
            },
        }
        prev_vals.push(prev);
        acc_vals.push(acc);
        i += 1;
    }
    Ok((prev_vals, acc_vals))
}

proof fn lemma_chain_stops<F: PrimeField32, EF: ExtensionField<F>>(
    m: Seq<Option<Block<F>>>,
    prevs: Seq<u32>,
    accs: Seq<u32>,
    factors: Seq<EF>,
    square: bool,
    k: nat,
    n: nat,
)
    requires
        k <= n,
        semantics::chained::<F, EF>(m, prevs, accs, factors, square, k) is Err,
    ensures
        semantics::chained::<F, EF>(m, prevs, accs, factors, square, n) == semantics::chained::<
            F,
            EF,
        >(m, prevs, accs, factors, square, k),
    decreases n,
{
    if k < n {
        lemma_chain_stops::<F, EF>(m, prevs, accs, factors, square, k, (n - 1) as nat);
    }
}

} // verus!
