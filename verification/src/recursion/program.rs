//! Programs with the tables that are worked out before they run.
use vstd::prelude::*;
use crate::field::PrimeField32;
use crate::recursion::block;
use crate::recursion::block::{RawProgram, SeqBlock};
use crate::recursion::event_count;
use crate::recursion::event_count::{Counts, RecursionAirEventCount};
use crate::recursion::instruction::Instruction;
use crate::recursion::shape::RecursionShape;
use crate::recursion::types::Address;
use crate::stark::septic_digest;
use crate::stark::septic_digest::SepticDigest;

verus! {

/// The place of an address in the table.
pub open spec fn at<F: PrimeField32>(a: Address<F>) -> u32 {
    a.place() as u32
}

pub open spec fn places<F: PrimeField32>(s: Seq<Address<F>>) -> Seq<u32> {
    Seq::new(s.len(), |i: int| at(s[i]))
}

pub open spec fn out_places<F: PrimeField32>(s: Seq<(Address<F>, F)>) -> Seq<u32> {
    Seq::new(s.len(), |i: int| at(s[i].0))
}

/// The places that an instruction reads and writes: what it reads first.
pub open spec fn addresses<F: PrimeField32>(instr: Instruction<F>) -> Seq<u32> {
    match instr {
        Instruction::BaseAlu(alu) => seq![at(alu.addrs.in1), at(alu.addrs.in2), at(alu.addrs.out)],
        Instruction::ExtAlu(alu) => seq![at(alu.addrs.in1), at(alu.addrs.in2), at(alu.addrs.out)],
        Instruction::Mem(mem) => seq![at(mem.addrs.inner)],
        Instruction::Poseidon2(p) => places(p.addrs.input@) + places(p.addrs.output@),
        Instruction::Poseidon2Skinny(p) => places(p.addrs.input@) + places(p.addrs.output@),
        Instruction::Select(s) => seq![
            at(s.addrs.bit),
            at(s.addrs.in1),
            at(s.addrs.in2),
            at(s.addrs.out1),
            at(s.addrs.out2),
        ],
        Instruction::HintBits(h) => seq![at(h.input_addr)] + out_places(h.output_addrs_mults@),
        Instruction::HintAddCurve(h) => places(h.input1_x_addrs@) + places(h.input1_y_addrs@)
            + places(h.input2_x_addrs@) + places(h.input2_y_addrs@) + out_places(
            h.output_x_addrs_mults@,
        ) + out_places(h.output_y_addrs_mults@),
        Instruction::CommitPublicValues(c) => places(c.pv_addrs.elements@),
        Instruction::Print(p) => seq![at(p.addr)],
        Instruction::HintExt2Felts(h) => seq![at(h.input_addr)] + out_places(h.output_addrs_mults@),
        Instruction::Hint(h) => out_places(h.output_addrs_mults@),
        Instruction::PolyEval(p) => seq![at(p.addrs.point)] + places(p.addrs.coeff@) + seq![
            at(p.addrs.out),
        ],
        Instruction::ExtExpReverseBits(e) => seq![at(e.addrs.base)] + places(e.addrs.exp@) + places(
            e.addrs.prev_acc_vec@,
        ) + places(e.addrs.acc_vec@),
        Instruction::PrefixSumChecks(p) => places(p.addrs.x1_vec@) + places(p.addrs.x2_vec@)
            + places(p.addrs.prev_acc_vec@) + places(p.addrs.acc_vec@),
    }
}

/// What is worked out of a program before it runs.
#[derive(Debug)]
pub struct Tables {
    pub event_counts: RecursionAirEventCount,
    pub offsets: Vec<usize>,
    pub resolved_addrs: Vec<u32>,
    pub addr_starts: Vec<u32>,
}

/// What is worked out of a program before it runs, mathematically.
#[verifier::ext_equal]
pub struct TablesModel {
    pub counts: Counts,
    pub offsets: Seq<usize>,
    pub resolved: Seq<u32>,
    pub starts: Seq<u32>,
}

impl View for Tables {
    type V = TablesModel;

    open spec fn view(&self) -> TablesModel {
        TablesModel {
            counts: self.event_counts@,
            offsets: self.offsets@,
            resolved: self.resolved_addrs@,
            starts: self.addr_starts@,
        }
    }
}

pub open spec fn no_tables() -> TablesModel {
    TablesModel {
        counts: Counts::none(),
        offsets: Seq::empty(),
        resolved: Seq::empty(),
        starts: Seq::empty(),
    }
}

/// The tables with one more instruction.
pub open spec fn analyzed_one<F: PrimeField32>(
    t: TablesModel,
    instr: Instruction<F>,
) -> TablesModel {
    TablesModel {
        counts: event_count::counted(t.counts, instr),
        offsets: t.offsets.push(event_count::slot_of(t.counts, instr) as usize),
        resolved: t.resolved + addresses(instr),
        starts: t.starts.push(t.resolved.len() as u32),
    }
}

/// The tables with the first `n` instructions.
pub open spec fn analyzed<F: PrimeField32>(
    t: TablesModel,
    instrs: Seq<Instruction<F>>,
    n: nat,
) -> TablesModel
    decreases n,
{
    if n == 0 || n > instrs.len() {
        t
    } else {
        analyzed_one(analyzed(t, instrs, (n - 1) as nat), instrs[n - 1])
    }
}

/// The tables fit in their machine integers.
pub open spec fn tables_fit(t: TablesModel) -> bool {
    &&& t.counts.fits()
    &&& t.resolved.len() <= u32::MAX
}

pub proof fn lemma_analyzed_prefix<F: PrimeField32>(
    t: TablesModel,
    a: Seq<Instruction<F>>,
    b: Seq<Instruction<F>>,
    n: nat,
)
    requires
        n <= a.len(),
    ensures
        analyzed(t, a + b, n) == analyzed(t, a, n),
    decreases n,
{
    if n > 0 {
        lemma_analyzed_prefix(t, a, b, (n - 1) as nat);
        assert((a + b)[n - 1] == a[n - 1]);
    }
}

/// The tables of a program followed by another are those of the second, put on those of the first.
pub proof fn lemma_analyzed_append<F: PrimeField32>(
    t: TablesModel,
    a: Seq<Instruction<F>>,
    b: Seq<Instruction<F>>,
    n: nat,
)
    requires
        n <= b.len(),
    ensures
        analyzed(t, a + b, a.len() + n) == analyzed(analyzed(t, a, a.len()), b, n),
    decreases n,
{
    if n == 0 {
        lemma_analyzed_prefix(t, a, b, a.len());
    } else {
        lemma_analyzed_append(t, a, b, (n - 1) as nat);
        assert((a + b)[a.len() + n - 1] == b[n - 1]);
    }
}

/// The tables only grow.
pub proof fn lemma_analyzed_grow<F: PrimeField32>(
    t: TablesModel,
    instrs: Seq<Instruction<F>>,
    m: nat,
    n: nat,
)
    requires
        m <= n <= instrs.len(),
    ensures
        analyzed(t, instrs, m).counts.within(analyzed(t, instrs, n).counts),
        analyzed(t, instrs, m).resolved.len() <= analyzed(t, instrs, n).resolved.len(),
        analyzed(t, instrs, n).offsets.len() == t.offsets.len() + n,
        analyzed(t, instrs, n).starts.len() == t.starts.len() + n,
        analyzed(t, instrs, n).resolved.subrange(
            0,
            analyzed(t, instrs, m).resolved.len() as int,
        ) == analyzed(t, instrs, m).resolved,
        forall|i: int|
            0 <= i < t.offsets.len() + m ==> #[trigger] analyzed(t, instrs, n).offsets[i]
                == analyzed(t, instrs, m).offsets[i],
        forall|i: int|
            0 <= i < t.starts.len() + m ==> #[trigger] analyzed(t, instrs, n).starts[i]
                == analyzed(t, instrs, m).starts[i],
        analyzed(t, instrs, n).counts == event_count::counts_from(t.counts, instrs, n),
    decreases n,
{
    if n > 0 {
        if m < n {
            lemma_analyzed_grow(t, instrs, m, (n - 1) as nat);
            let before = analyzed(t, instrs, (n - 1) as nat).resolved;
            let after = analyzed(t, instrs, n).resolved;
            let k = analyzed(t, instrs, m).resolved.len() as int;
            assert(after.subrange(0, k) =~= before.subrange(0, k));
        } else {
            lemma_analyzed_grow(t, instrs, (n - 1) as nat, (n - 1) as nat);
            assert(analyzed(t, instrs, n).resolved.subrange(
                0,
                analyzed(t, instrs, m).resolved.len() as int,
            ) =~= analyzed(t, instrs, m).resolved);
        }
    } else {
        assert(t.resolved.subrange(0, t.resolved.len() as int) =~= t.resolved);
    }
}

/// The end of an instruction's places in the table of places.
pub open spec fn end_of(t: TablesModel, i: int) -> int {
    if i + 1 < t.starts.len() {
        t.starts[i + 1] as int
    } else {
        t.resolved.len() as int
    }
}

/// The tables of a program give for each instruction the slot that its events start at, and its
/// places.
pub proof fn law_tables<F: PrimeField32>(instrs: Seq<Instruction<F>>, i: int)
    requires
        tables_fit(analyzed(no_tables(), instrs, instrs.len())),
        0 <= i < instrs.len(),
    ensures
        ({
            let t = analyzed(no_tables(), instrs, instrs.len());
            &&& t.offsets.len() == instrs.len()
            &&& t.starts.len() == instrs.len()
            &&& t.counts == event_count::program_counts(instrs)
            &&& t.offsets[i] as nat == event_count::slot_of(
                event_count::counts_from(Counts::none(), instrs, i as nat),
                instrs[i],
            )
            &&& t.starts[i] <= end_of(t, i) <= t.resolved.len()
            &&& t.resolved.subrange(t.starts[i] as int, end_of(t, i)) == addresses(instrs[i])
        }),
{
    let n = instrs.len();
    let t = analyzed(no_tables(), instrs, n);
    let before = analyzed(no_tables(), instrs, i as nat);
    let after = analyzed(no_tables(), instrs, (i + 1) as nat);
    lemma_analyzed_grow(no_tables(), instrs, i as nat, n);
    lemma_analyzed_grow(no_tables(), instrs, (i + 1) as nat, n);
    lemma_analyzed_grow(no_tables(), instrs, i as nat, i as nat);
    lemma_analyzed_grow(no_tables(), instrs, i as nat, (i + 1) as nat);
    assert(t.offsets[i] == after.offsets[i]);
    assert(t.starts[i] == after.starts[i]);
    let start = before.resolved.len() as int;
    let end = after.resolved.len() as int;
    if i + 1 < n {
        let next = analyzed(no_tables(), instrs, (i + 2) as nat);
        lemma_analyzed_grow(no_tables(), instrs, (i + 2) as nat, n);
        lemma_analyzed_grow(no_tables(), instrs, (i + 1) as nat, (i + 1) as nat);
        assert(t.starts[i + 1] == next.starts[i + 1]);
        assert(next.starts[i + 1] == after.resolved.len() as u32);
    } else {
        assert(after == t);
    }
    assert(t.resolved.subrange(start, end) =~= t.resolved.subrange(0, end).subrange(start, end));
    assert(after.resolved.subrange(start, end) =~= addresses(instrs[i]));
}

fn push_places<F: PrimeField32>(s: &[Address<F>], out: &mut Vec<u32>)
    ensures
        final(out)@ == old(out)@ + places(s@),
{
    let n: usize = s.len();
    let mut i: usize = 0;
    while i < n
        invariant
            i <= n,
            n == s@.len(),
            out@ == old(out)@ + places(s@).subrange(0, i as int),
        decreases n - i,
    {
        out.push(s[i].0.as_canonical_u32());
        assert(out@ =~= old(out)@ + places(s@).subrange(0, i as int + 1));
        i += 1;
    }
    assert(places(s@).subrange(0, n as int) =~= places(s@));
}

fn push_out_places<F: PrimeField32>(s: &Vec<(Address<F>, F)>, out: &mut Vec<u32>)
    ensures
        final(out)@ == old(out)@ + out_places(s@),
{
    let n: usize = s.len();
    let mut i: usize = 0;
    while i < n
        invariant
            i <= n,
            n == s@.len(),
            out@ == old(out)@ + out_places(s@).subrange(0, i as int),
        decreases n - i,
    {
        out.push(s[i].0.0.as_canonical_u32());
        assert(out@ =~= old(out)@ + out_places(s@).subrange(0, i as int + 1));
        i += 1;
    }
    assert(out_places(s@).subrange(0, n as int) =~= out_places(s@));
}

/// A program with the tables that are worked out before it runs.
#[derive(Debug)]
pub struct RootProgram<F> {
    pub inner: RawProgram<Instruction<F>>,
    pub total_memory: usize,
    pub shape: Option<RecursionShape>,
    /// The number of events of each kind.
    pub event_counts: RecursionAirEventCount,
    /// For each instruction, in program order, the slot that its events start at.
    pub offsets: Vec<usize>,
    /// The places of the instructions, one instruction after the other.
    pub resolved_addrs: Vec<u32>,
    /// For each instruction the start of its places.
    pub addr_starts: Vec<u32>,
}

impl<F: PrimeField32> RootProgram<F> {
    pub open spec fn tables(self) -> TablesModel {
        TablesModel {
            counts: self.event_counts@,
            offsets: self.offsets@,
            resolved: self.resolved_addrs@,
            starts: self.addr_starts@,
        }
    }

    /// The tables are those of the instructions.
    pub open spec fn wf(self) -> bool {
        let instrs = self.inner.items();
        &&& self.tables() == analyzed(no_tables(), instrs, instrs.len())
        &&& tables_fit(self.tables())
    }

    /// The program with its tables.
    pub fn new(
        inner: RawProgram<Instruction<F>>,
        total_memory: usize,
        shape: Option<RecursionShape>,
    ) -> (r: Self)
        requires
            tables_fit(analyzed(no_tables(), inner.items(), inner.items().len())),
        ensures
            r.wf(),
            r.inner == inner,
            r.total_memory == total_memory,
            r.shape == shape,
    {
        let mut program = RootProgram {
            inner,
            total_memory,
            shape,
            event_counts: RecursionAirEventCount::none(),
            offsets: Vec::new(),
            resolved_addrs: Vec::new(),
            addr_starts: Vec::new(),
        };
        program.analyze_offsets();
        program
    }

    /// Works out the tables.
    pub fn analyze_offsets(&mut self)
        requires
            tables_fit(analyzed(no_tables(), old(self).inner.items(), old(self).inner.items().len())),
        ensures
            final(self).wf(),
            final(self).inner == old(self).inner,
            final(self).total_memory == old(self).total_memory,
            final(self).shape == old(self).shape,
    {
        let mut tables = Tables {
            event_counts: RecursionAirEventCount::none(),
            offsets: Vec::new(),
            resolved_addrs: Vec::new(),
            addr_starts: Vec::new(),
        };
        assert(tables@ =~= no_tables());
        Self::analyze_program(&self.inner, &mut tables);
        self.event_counts = tables.event_counts;
        self.offsets = tables.offsets;
        self.resolved_addrs = tables.resolved_addrs;
        self.addr_starts = tables.addr_starts;
    }

    /// Puts the tables of a program on those before it.
    fn analyze_program(program: &RawProgram<Instruction<F>>, tables: &mut Tables)
        requires
            tables_fit(analyzed(old(tables)@, program.items(), program.items().len())),
        ensures
            final(tables)@ == analyzed(old(tables)@, program.items(), program.items().len()),
        decreases program, 0nat,
    {
        let ghost start = tables@;
        let ghost blocks = program.seq_blocks@;
        let ghost total = program.items();
        let n: usize = program.seq_blocks.len();
        let mut b: usize = 0;
        while b < n
            invariant
                b <= n,
                n == program.seq_blocks@.len(),
                blocks == program.seq_blocks@,
                total == block::items_of(block::placed_blocks(blocks, n as nat, false, false)),
                tables_fit(analyzed(start, total, total.len())),
                tables@ == analyzed(
                    start,
                    block::items_of(block::placed_blocks(blocks, b as nat, false, false)),
                    block::items_of(block::placed_blocks(blocks, b as nat, false, false)).len(),
                ),
            decreases n - b,
        {
            let ghost first = block::items_of(
                block::placed_blocks(blocks, b as nat, false, false),
            );
            let ghost here = blocks[b as int].items();
            let ghost both = block::items_of(
                block::placed_blocks(blocks, b as nat + 1, false, false),
            );
            proof {
                block::lemma_items_append(
                    block::placed_blocks(blocks, b as nat, false, false),
                    block::placed_block(blocks[b as int], false, false),
                );
                assert(both == first + here);
                lemma_analyzed_append(start, first, here, here.len());
                lemma_blocks_prefix(blocks, b as nat + 1, n as nat);
                let rest = choose|rest: Seq<Instruction<F>>| total == both + rest;
                lemma_analyzed_prefix(start, both, rest, both.len());
                lemma_analyzed_grow(start, total, both.len(), total.len());
                assert(decreases_to!(program => program.seq_blocks));
                assert(decreases_to!(program.seq_blocks => program.seq_blocks@));
                assert(decreases_to!(program.seq_blocks@ => program.seq_blocks@[b as int]));
            }
            Self::analyze_block(&program.seq_blocks[b], tables);
            b += 1;
        }
    }

    /// Puts the tables of a block on those before it.
    fn analyze_block(seq_block: &SeqBlock<Instruction<F>>, tables: &mut Tables)
        requires
            tables_fit(analyzed(old(tables)@, seq_block.items(), seq_block.items().len())),
        ensures
            final(tables)@ == analyzed(old(tables)@, seq_block.items(), seq_block.items().len()),
        decreases seq_block, 1nat,
    {
        let ghost start = tables@;
        let ghost total = seq_block.items();
        match seq_block {
            SeqBlock::Basic(basic) => {
                let n: usize = basic.instrs.len();
                let mut k: usize = 0;
                assert(total =~= basic.instrs@);
                while k < n
                    invariant
                        k <= n,
                        n == basic.instrs@.len(),
                        total == basic.instrs@,
                        tables_fit(analyzed(start, total, total.len())),
                        tables@ == analyzed(start, total, k as nat),
                    decreases n - k,
                {
                    let instr = &basic.instrs[k];
                    proof {
                        lemma_analyzed_grow(start, total, k as nat, total.len());
                        lemma_analyzed_grow(start, total, k as nat + 1, total.len());
                    }
                    let slot: usize = tables.event_counts.slot(instr);
                    tables.offsets.push(slot);
                    tables.event_counts.add_instruction(instr);
                    let here: u32 = tables.resolved_addrs.len() as u32;
                    tables.addr_starts.push(here);
                    Self::resolve_addrs(instr, &mut tables.resolved_addrs);
                    assert(tables@ =~= analyzed(start, total, k as nat + 1));
                    k += 1;
                }
            },
            SeqBlock::Parallel(programs) => {
                let n: usize = programs.len();
                let mut k: usize = 0;
                let ghost isolated = programs@.len() > 1;
                while k < n
                    invariant
                        k <= n,
                        n == programs@.len(),
                        *seq_block == SeqBlock::Parallel(*programs),
                        total == block::items_of(
                            block::placed_programs(programs@, n as nat, isolated),
                        ),
                        tables_fit(analyzed(start, total, total.len())),
                        tables@ == analyzed(
                            start,
                            block::items_of(block::placed_programs(programs@, k as nat, isolated)),
                            block::items_of(
                                block::placed_programs(programs@, k as nat, isolated),
                            ).len(),
                        ),
                    decreases n - k,
                {
                    let program = &programs[k];
                    let ghost first = block::items_of(
                        block::placed_programs(programs@, k as nat, isolated),
                    );
                    let ghost here = program.items();
                    let ghost both = block::items_of(
                        block::placed_programs(programs@, k as nat + 1, isolated),
                    );
                    proof {
                        block::lemma_items_append(
                            block::placed_programs(programs@, k as nat, isolated),
                            program.placed(true, isolated),
                        );
                        block::lemma_items_blocks(
                            program.seq_blocks@,
                            program.seq_blocks@.len(),
                            true,
                            isolated,
                            false,
                            false,
                        );
                        assert(both == first + here);
                        lemma_analyzed_append(start, first, here, here.len());
                        lemma_programs_prefix(programs@, k as nat + 1, n as nat, isolated);
                        let rest = choose|rest: Seq<Instruction<F>>| total == both + rest;
                        lemma_analyzed_prefix(start, both, rest, both.len());
                        lemma_analyzed_grow(start, total, both.len(), total.len());
                        assert(decreases_to!(seq_block => seq_block->Parallel_0));
                        assert(decreases_to!(programs => programs@));
                        assert(decreases_to!(programs@ => programs@[k as int]));
                    }
                    Self::analyze_program(program, tables);
                    k += 1;
                }
            },
        }
    }

    /// Appends the places of an instruction.
    fn resolve_addrs(instr: &Instruction<F>, out: &mut Vec<u32>)
        ensures
            final(out)@ == old(out)@ + addresses(*instr),
    {
        match instr {
            Instruction::BaseAlu(alu) => {
                out.push(alu.addrs.in1.0.as_canonical_u32());
                out.push(alu.addrs.in2.0.as_canonical_u32());
                out.push(alu.addrs.out.0.as_canonical_u32());
            },
            Instruction::ExtAlu(alu) => {
                out.push(alu.addrs.in1.0.as_canonical_u32());
                out.push(alu.addrs.in2.0.as_canonical_u32());
                out.push(alu.addrs.out.0.as_canonical_u32());
            },
            Instruction::Mem(mem) => {
                out.push(mem.addrs.inner.0.as_canonical_u32());
            },
            Instruction::Poseidon2(p) => {
                push_places(vstd::array::array_as_slice(&p.addrs.input), out);
                push_places(vstd::array::array_as_slice(&p.addrs.output), out);
            },
            Instruction::Poseidon2Skinny(p) => {
                push_places(vstd::array::array_as_slice(&p.addrs.input), out);
                push_places(vstd::array::array_as_slice(&p.addrs.output), out);
            },
            Instruction::Select(s) => {
                out.push(s.addrs.bit.0.as_canonical_u32());
                out.push(s.addrs.in1.0.as_canonical_u32());
                out.push(s.addrs.in2.0.as_canonical_u32());
                out.push(s.addrs.out1.0.as_canonical_u32());
                out.push(s.addrs.out2.0.as_canonical_u32());
            },
            Instruction::HintBits(h) => {
                out.push(h.input_addr.0.as_canonical_u32());
                push_out_places(&h.output_addrs_mults, out);
            },
            Instruction::HintAddCurve(h) => {
                push_places(vstd::array::array_as_slice(&h.input1_x_addrs), out);
                push_places(vstd::array::array_as_slice(&h.input1_y_addrs), out);
                push_places(vstd::array::array_as_slice(&h.input2_x_addrs), out);
                push_places(vstd::array::array_as_slice(&h.input2_y_addrs), out);
                push_out_places(&h.output_x_addrs_mults, out);
                push_out_places(&h.output_y_addrs_mults, out);
            },
            Instruction::CommitPublicValues(c) => {
                push_places(c.pv_addrs.elements.as_slice(), out);
            },
            Instruction::Print(p) => {
                out.push(p.addr.0.as_canonical_u32());
            },
            Instruction::HintExt2Felts(h) => {
                out.push(h.input_addr.0.as_canonical_u32());
                push_out_places(&h.output_addrs_mults, out);
            },
            Instruction::Hint(h) => {
                push_out_places(&h.output_addrs_mults, out);
            },
            Instruction::PolyEval(p) => {
                out.push(p.addrs.point.0.as_canonical_u32());
                push_places(p.addrs.coeff.as_slice(), out);
                out.push(p.addrs.out.0.as_canonical_u32());
            },
            Instruction::ExtExpReverseBits(e) => {
                out.push(e.addrs.base.0.as_canonical_u32());
                push_places(e.addrs.exp.as_slice(), out);
                push_places(e.addrs.prev_acc_vec.as_slice(), out);
                push_places(e.addrs.acc_vec.as_slice(), out);
            },
            Instruction::PrefixSumChecks(p) => {
                push_places(p.addrs.x1_vec.as_slice(), out);
                push_places(p.addrs.x2_vec.as_slice(), out);
                push_places(p.addrs.prev_acc_vec.as_slice(), out);
                push_places(p.addrs.acc_vec.as_slice(), out);
            },
        }
        assert(out@ =~= old(out)@ + addresses(*instr));
    }
}

impl<F: PrimeField32> RootProgram<F> {
    /// The logarithm of the height that the shape gives a table; `None` without a shape.
    pub fn fixed_log2_rows(&self, name: &String) -> (r: Option<usize>)
        requires
            self.shape matches Some(shape) ==> shape@.dom().contains(name@),
        ensures
            r == (match self.shape {
                Some(shape) => Some(shape@[name@]),
                None => None,
            }),
    {
        match &self.shape {
            Some(shape) => shape.inner.get(name),
            None => None,
        }
    }
}

/// A program that has been analyzed.
#[derive(Debug)]
pub struct RecursionProgram<F>(pub RootProgram<F>);

impl<F: PrimeField32> RecursionProgram<F> {
    /// A program whose tables are those of its instructions.
    pub fn new(program: RootProgram<F>) -> (r: Self)
        requires
            program.wf(),
        ensures
            r.0 == program,
    {
        RecursionProgram(program)
    }

    pub fn into_inner(self) -> (r: RootProgram<F>)
        ensures
            r == self.0,
    {
        self.0
    }

    /// Gives the program a shape, or takes it away.
    pub fn set_shape(&mut self, shape: Option<RecursionShape>)
        ensures
            final(self).0.shape == shape,
            final(self).0.inner == old(self).0.inner,
            final(self).0.total_memory == old(self).0.total_memory,
            final(self).0.tables() == old(self).0.tables(),
    {
        self.0.shape = shape;
    }

    /// The element that the program counter starts from.
    pub fn pc_start(&self) -> (r: F)
        ensures
            r == F::zero_elem(),
    {
        F::zero()
    }

    /// The point that the global cumulative sum starts from.
    pub fn initial_global_cumulative_sum(&self) -> (r: SepticDigest<F>)
        ensures
            r@ == septic_digest::zero_point_of_field::<F>(),
    {
        SepticDigest::zero_for_field()
    }
}

/// The items of the first blocks come first.
pub proof fn lemma_blocks_prefix<T>(blocks: Seq<SeqBlock<T>>, m: nat, n: nat)
    requires
        m <= n <= blocks.len(),
    ensures
        exists|rest: Seq<T>|
            block::items_of(block::placed_blocks(blocks, n, false, false)) == block::items_of(
                block::placed_blocks(blocks, m, false, false),
            ) + rest,
    decreases n,
{
    let first = block::items_of(block::placed_blocks(blocks, m, false, false));
    if m == n {
        assert(first =~= first + Seq::<T>::empty());
    } else {
        lemma_blocks_prefix(blocks, m, (n - 1) as nat);
        let before = block::items_of(block::placed_blocks(blocks, (n - 1) as nat, false, false));
        let rest = choose|rest: Seq<T>| before == first + rest;
        let last = blocks[n - 1].items();
        block::lemma_items_append(
            block::placed_blocks(blocks, (n - 1) as nat, false, false),
            block::placed_block(blocks[n - 1], false, false),
        );
        assert(before + last =~= first + (rest + last));
    }
}

/// The items of the first programs come first.
pub proof fn lemma_programs_prefix<T>(
    programs: Seq<RawProgram<T>>,
    m: nat,
    n: nat,
    isolated: bool,
)
    requires
        m <= n <= programs.len(),
    ensures
        exists|rest: Seq<T>|
            block::items_of(block::placed_programs(programs, n, isolated)) == block::items_of(
                block::placed_programs(programs, m, isolated),
            ) + rest,
    decreases n,
{
    let first = block::items_of(block::placed_programs(programs, m, isolated));
    if m == n {
        assert(first =~= first + Seq::<T>::empty());
    } else {
        lemma_programs_prefix(programs, m, (n - 1) as nat, isolated);
        let before = block::items_of(block::placed_programs(programs, (n - 1) as nat, isolated));
        let rest = choose|rest: Seq<T>| before == first + rest;
        let last = block::items_of(programs[n - 1].placed(true, isolated));
        block::lemma_items_append(
            block::placed_programs(programs, (n - 1) as nat, isolated),
            programs[n - 1].placed(true, isolated),
        );
        assert(before + last =~= first + (rest + last));
    }
}

} // verus!
