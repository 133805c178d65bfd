use rand::rngs::StdRng;
use rand::{Rng, SeedableRng};
use zkdtvm_stark_verifier::basefold::poseidon::{PermutationField, RoundConstants};
use zkdtvm_stark_verifier::field::extension::BinomialExtension;
use zkdtvm_stark_verifier::field::koala_bear::KoalaBear;
use zkdtvm_stark_verifier::field::{ExtensionField, Field, PrimeField32};
use zkdtvm_stark_verifier::recursion::block::{BasicBlock, RawProgram, SeqBlock};
use zkdtvm_stark_verifier::recursion::builder::RowBuilder;
use zkdtvm_stark_verifier::recursion::chips::alu_base::{
    base_alu_instrs, BaseAluAccessCols, BaseAluChip, BaseAluCols, BaseAluPreprocessedCols,
    BaseAluValueCols, NUM_BASE_ALU_ACCESS_COLS, NUM_BASE_ALU_ENTRIES_PER_ROW,
    NUM_BASE_ALU_VALUE_COLS,
};
use zkdtvm_stark_verifier::recursion::chips::alu_ext::ExtAluChip;
use zkdtvm_stark_verifier::recursion::chips::poseidon2_skinny::Poseidon2SkinnyChip;
use zkdtvm_stark_verifier::recursion::chips::poseidon2_skinny_kb::Poseidon2SkinnyKbChip;
use zkdtvm_stark_verifier::recursion::chips::select::SelectChip;
use zkdtvm_stark_verifier::recursion::execution::Runtime;
use zkdtvm_stark_verifier::recursion::instruction::{base_alu, ext_alu, mem, mem_ext, mem_single};
use zkdtvm_stark_verifier::recursion::instruction::{HintInstr, Instruction};
use zkdtvm_stark_verifier::recursion::program::RootProgram;
use zkdtvm_stark_verifier::recursion::event_count::RecursionAirEventCount;
use zkdtvm_stark_verifier::recursion::machine::{RecursionAir, TableSizes};
use zkdtvm_stark_verifier::recursion::record::{ExecutionRecord, VecEventCollector};
use zkdtvm_stark_verifier::recursion::semantics::RuntimeError;
use zkdtvm_stark_verifier::recursion::shape::HeightMap;
use zkdtvm_stark_verifier::recursion::shape_config::RecursionShapeConfig;
use zkdtvm_stark_verifier::recursion::types::{
    Address, BaseAluIo, BaseAluOpcode, Block, ExtAluOpcode, ExtExpReverseBitsEvent, MemAccessKind,
    Poseidon2Io, Poseidon2SkinnyInstr,
};

type Val = KoalaBear;
type Ext = BinomialExtension<KoalaBear>;

const ORDER: u32 = 0x7f000001;

fn val(n: u32) -> Val {
    Val::from_canonical_u32(n)
}

fn random(rng: &mut StdRng) -> Val {
    val(rng.gen::<u32>() % ORDER)
}

fn constants() -> RoundConstants<Val> {
    let mut rng = StdRng::seed_from_u64(1);
    RoundConstants {
        external: (0..8).map(|_| (0..16).map(|_| random(&mut rng)).collect()).collect(),
        internal: (0..20).map(|_| random(&mut rng)).collect(),
    }
}

fn linear_program(instrs: Vec<Instruction<Val>>, total_memory: usize) -> RootProgram<Val> {
    let block = SeqBlock::Basic(BasicBlock { instrs });
    RootProgram::new(RawProgram { seq_blocks: vec![block] }, total_memory, None)
}

fn run(
    instrs: Vec<Instruction<Val>>,
    total_memory: usize,
) -> (Result<(), RuntimeError<Val, Ext>>, Runtime<Val>) {
    let perm = Val::new_permutation(&constants());
    let mut runtime = Runtime::new(linear_program(instrs, total_memory), perm);
    let outcome = runtime.run::<Ext>();
    (outcome, runtime)
}

/// Every row of the table of base operations meets its constraints.
fn assert_base_alu_rows(runtime: &Runtime<Val>) {
    let events = &runtime.record.base_alu_events;
    let instrs = base_alu_instrs(&runtime.program.inner);
    assert_eq!(events.len(), instrs.len());
    for (event, instr) in events.iter().zip(&instrs) {
        let local = BaseAluCols { values: vec![BaseAluValueCols { vals: *event }] };
        let prep = BaseAluPreprocessedCols {
            accesses: vec![BaseAluAccessCols {
                addrs: instr.addrs,
                is_add: val((instr.opcode == BaseAluOpcode::AddF) as u32),
                is_sub: val((instr.opcode == BaseAluOpcode::SubF) as u32),
                is_mul: val((instr.opcode == BaseAluOpcode::MulF) as u32),
                is_div: val((instr.opcode == BaseAluOpcode::DivF) as u32),
                mult: instr.mult,
            }],
        };
        let mut builder = RowBuilder::new(val(3));
        BaseAluChip::<1>::eval(&mut builder, &local, &prep);
        assert!(builder.constraints.iter().all(|c| *c == val(0)));
    }
}

fn run_linear_program(instrs: Vec<Instruction<Val>>, total_memory: usize) {
    let (outcome, runtime) = run(instrs, total_memory);
    assert_eq!(outcome, Ok(()));
    assert_base_alu_rows(&runtime);
}

#[test]
fn fibonacci() {
    let n: u32 = 10;
    let mut instrs = vec![
        mem(MemAccessKind::Write, 1, 0, 0),
        mem(MemAccessKind::Write, 2, 1, 1),
    ];
    for i in 2..=n {
        instrs.push(base_alu(BaseAluOpcode::AddF, 2, i, i - 2, i - 1));
    }
    instrs.push(mem(MemAccessKind::Read, 1, n - 1, 34));
    instrs.push(mem(MemAccessKind::Read, 2, n, 55));
    run_linear_program(instrs, 11);
}

#[test]
fn wrong_read_is_refused() {
    let instrs = vec![
        mem(MemAccessKind::Write, 1, 0, 7),
        mem(MemAccessKind::Read, 1, 0, 8),
    ];
    assert_eq!(run(instrs, 1).0, Err(RuntimeError::MemoryMismatch { addr: 0 }));
}

#[test]
fn unwritten_cell_is_refused() {
    let instrs = vec![base_alu(BaseAluOpcode::AddF, 1, 2, 0, 1)];
    assert!(matches!(run(instrs, 3).0, Err(RuntimeError::UnwrittenAddress { .. })));
}

#[test]
fn write_outside_the_memory_is_refused() {
    let instrs = vec![mem(MemAccessKind::Write, 1, 4, 7)];
    assert_eq!(run(instrs, 4).0, Err(RuntimeError::AddressOutOfRange { addr: 4 }));
}

#[test]
fn division_of_nonzero_by_zero_is_refused() {
    let instrs = vec![
        mem(MemAccessKind::Write, 1, 0, 0),
        mem(MemAccessKind::Write, 1, 1, 1),
        base_alu(BaseAluOpcode::DivF, 1, 2, 1, 0),
        mem(MemAccessKind::Read, 1, 2, 1),
    ];
    assert!(matches!(run(instrs, 3).0, Err(RuntimeError::DivFOutOfDomain { .. })));
}

#[test]
fn division_of_nonzero_extension_by_zero_is_refused() {
    let instrs = vec![
        mem_ext::<Val, Ext>(MemAccessKind::Write, 1, 0, Ext::zero()),
        mem_ext::<Val, Ext>(MemAccessKind::Write, 1, 1, Ext::one()),
        ext_alu(ExtAluOpcode::DivE, 1, 2, 1, 0),
    ];
    assert!(matches!(run(instrs, 3).0, Err(RuntimeError::DivEOutOfDomain { .. })));
}

#[test]
fn div_zero_by_zero() {
    let instrs = vec![
        mem(MemAccessKind::Write, 1, 0, 0),
        mem(MemAccessKind::Write, 1, 1, 0),
        base_alu(BaseAluOpcode::DivF, 1, 2, 1, 0),
        mem(MemAccessKind::Read, 1, 2, 1),
    ];
    run_linear_program(instrs, 3);
}

#[test]
fn four_ops() {
    let mut rng = StdRng::seed_from_u64(0xDEADBEEF);
    let mut addr: u32 = 0;
    let mut instrs = Vec::new();
    for _ in 0..1000 {
        let quot = random(&mut rng);
        let in2 = random(&mut rng);
        let in1 = Field::mul(in2, quot);
        let a: Vec<u32> = (0..6).map(|x| x + addr).collect();
        addr += 6;
        instrs.push(mem_single(MemAccessKind::Write, 4, a[0], in1));
        instrs.push(mem_single(MemAccessKind::Write, 4, a[1], in2));
        instrs.push(base_alu(BaseAluOpcode::AddF, 1, a[2], a[0], a[1]));
        instrs.push(mem_single(MemAccessKind::Read, 1, a[2], Field::add(in1, in2)));
        instrs.push(base_alu(BaseAluOpcode::SubF, 1, a[3], a[0], a[1]));
        instrs.push(mem_single(MemAccessKind::Read, 1, a[3], Field::sub(in1, in2)));
        instrs.push(base_alu(BaseAluOpcode::MulF, 1, a[4], a[0], a[1]));
        instrs.push(mem_single(MemAccessKind::Read, 1, a[4], Field::mul(in1, in2)));
        instrs.push(base_alu(BaseAluOpcode::DivF, 1, a[5], a[0], a[1]));
        instrs.push(mem_single(MemAccessKind::Read, 1, a[5], quot));
    }
    run_linear_program(instrs, addr as usize);
}

fn power(x: Ext, mut n: u64) -> Ext {
    let mut base = x;
    let mut r = Ext::one();
    while n > 0 {
        if n & 1 == 1 {
            r = Field::mul(r, base);
        }
        base = Field::mul(base, base);
        n >>= 1;
    }
    r
}

#[test]
fn field_norm() {
    let mut instrs = Vec::new();
    let mut rng = StdRng::seed_from_u64(0xDEADBEEF);
    let mut addr: u32 = 0;
    for _ in 0..100 {
        let inner: Vec<Val> = (0..4).map(|_| random(&mut rng)).collect();
        let mut conj = Ext::from_base_slice(&inner);
        let mut acc = Ext::one();
        instrs.push(mem_ext::<Val, Ext>(MemAccessKind::Write, 1, addr, acc));
        for _ in 0..4 {
            instrs.push(mem_ext::<Val, Ext>(MemAccessKind::Write, 1, addr + 1, conj));
            instrs.push(ext_alu(ExtAluOpcode::MulE, 1, addr + 2, addr, addr + 1));
            addr += 2;
            acc = Field::mul(acc, conj);
            conj = power(conj, ORDER as u64);
        }
        let base_cmp: Val = acc.c0;
        assert!(acc.c1 == val(0) && acc.c2 == val(0) && acc.c3 == val(0));
        instrs.push(mem_single(MemAccessKind::Read, 1, addr, base_cmp));
        addr += 1;
    }
    run_linear_program(instrs, addr as usize);
}

fn random_events(n: usize) -> Vec<BaseAluIo<Val>> {
    let mut rng = StdRng::seed_from_u64(12);
    (0..n)
        .map(|_| {
            let in1 = random(&mut rng);
            let in2 = random(&mut rng);
            BaseAluIo { out: Field::add(in1, in2), in1, in2 }
        })
        .collect()
}

#[test]
fn generate_trace() {
    let events = random_events(1000);
    let trace = BaseAluChip::<NUM_BASE_ALU_ENTRIES_PER_ROW>::generate_trace(&events, None);
    let width = NUM_BASE_ALU_ENTRIES_PER_ROW * NUM_BASE_ALU_VALUE_COLS;
    let height = 256;
    let mut reference = vec![val(0); height * width];
    for (i, event) in events.iter().enumerate() {
        reference[3 * i] = event.out;
        reference[3 * i + 1] = event.in1;
        reference[3 * i + 2] = event.in2;
    }
    assert_eq!(trace.total_height, height);
    assert_eq!(trace.width, width);
    assert!(height.is_power_of_two());
    assert_eq!(trace.main[..], reference[..trace.main.len()]);
    assert!(reference[trace.main.len()..].iter().all(|x| *x == val(0)));
}

#[test]
fn generated_places_hold_the_opcode() {
    let instrs = match base_alu::<Val>(BaseAluOpcode::MulF, 5, 30, 10, 20) {
        Instruction::BaseAlu(i) => vec![i],
        _ => unreachable!(),
    };
    let trace = BaseAluChip::<1>::generate_preprocessed_trace(&instrs, Some(3));
    assert_eq!(trace.total_height, 8);
    assert_eq!(trace.width, NUM_BASE_ALU_ACCESS_COLS);
    let expected: Vec<Val> = [30, 10, 20, 0, 0, 1, 0, 5].iter().map(|n| val(*n)).collect();
    assert_eq!(trace.main, expected);
}

#[test]
fn wrong_sum_breaks_a_constraint() {
    let event = BaseAluIo { out: val(8), in1: val(3), in2: val(4) };
    let addrs = BaseAluIo { out: Address(val(2)), in1: Address(val(0)), in2: Address(val(1)) };
    let local = BaseAluCols { values: vec![BaseAluValueCols { vals: event }] };
    let prep = BaseAluPreprocessedCols {
        accesses: vec![BaseAluAccessCols {
            addrs,
            is_add: val(1),
            is_sub: val(0),
            is_mul: val(0),
            is_div: val(0),
            mult: val(1),
        }],
    };
    let mut builder = RowBuilder::new(val(3));
    BaseAluChip::<1>::eval(&mut builder, &local, &prep);
    assert!(builder.constraints.iter().any(|c| *c != val(0)));
}

#[test]
fn empty_record_has_no_events() {
    let record: ExecutionRecord<Val> = ExecutionRecord::empty();
    assert!(record.base_alu_events.is_empty() && record.mem_const_count == 0);
}

#[test]
fn machines_have_the_same_tables_in_both_forms() {
    assert_eq!(
        RecursionAir::sc_machine_wide_with_all_chips(),
        RecursionAir::machine_wide_with_all_chips()
    );
    let skinny = RecursionAir::sc_machine_skinny_with_all_chips();
    assert_eq!(skinny.len(), 7);
    assert_eq!(skinny[2], RecursionAir::BaseAluShrink);
    assert_eq!(skinny[4], RecursionAir::Poseidon2SkinnyKb);
}

#[test]
fn room_is_made_without_events() {
    let mut record: ExecutionRecord<Val> = ExecutionRecord::empty();
    let counts = RecursionAirEventCount { base_alu_events: 3, ..Default::default() };
    record.preallocate(&counts);
    assert!(record.base_alu_events.is_empty());
    assert!(record.base_alu_events.capacity() >= 3);
}

#[test]
fn absorbed_events_come_last() {
    let cell = |n: u32| Block(val(n), val(0), val(0), val(0));
    let event = |n: u32| ExtExpReverseBitsEvent {
        base: cell(n),
        exp: vec![val(1)],
        prev_acc_vec: vec![cell(1)],
        acc_vec: vec![cell(n)],
    };
    let mut first: VecEventCollector<Val> = VecEventCollector::new();
    first.ext_exp_reverse_bits_events.push(event(1));
    let mut second: VecEventCollector<Val> = VecEventCollector::new();
    second.ext_exp_reverse_bits_events.push(event(2));
    first.absorb(second);
    let bases: Vec<Val> = first.ext_exp_reverse_bits_events.iter().map(|e| e.base.0).collect();
    assert_eq!(bases, vec![val(1), val(2)]);
}

#[test]
fn rows_of_permutations_are_chained() {
    let addrs = |from: u32| -> [Address<Val>; 16] {
        std::array::from_fn(|i| Address(val(from + i as u32)))
    };
    let instr = |from: u32| Poseidon2SkinnyInstr {
        addrs: Poseidon2Io { input: addrs(from), output: addrs(from + 16) },
        mults: [val(3); 16],
        scratch_addrs: std::array::from_fn(|g| addrs(from + 100 + 16 * g as u32)),
    };
    let program = RawProgram {
        seq_blocks: vec![SeqBlock::Basic(BasicBlock {
            instrs: vec![
                Instruction::Poseidon2Skinny(Box::new(instr(0))),
                mem(MemAccessKind::Write, 1, 500, 9),
                Instruction::Poseidon2Skinny(Box::new(instr(1000))),
            ],
        })],
    };
    let (rows, height) =
        Poseidon2SkinnyKbChip::<3>::generate_preprocessed_trace(&program, None);
    assert_eq!(rows.len(), 10);
    assert_eq!(height, 16);
    assert_eq!(rows[5].state_in_addrs, addrs(1000));
    assert_eq!(rows[6].is_round, [val(0), val(1), val(0), val(0), val(0)]);
    assert_eq!(rows[6].state_in_addrs[2], rows[5].state_out_mem[2].addr);
    assert_eq!(rows[5].state_out_mem[2].mult, val(1));
    assert_eq!(rows[9].state_out_mem[15].addr, Address(val(1031)));
    assert_eq!(rows[9].state_out_mem[15].mult, val(3));
    assert_eq!(Poseidon2SkinnyKbChip::<3>::num_rows(4, None), 32);
    assert_eq!(Poseidon2SkinnyKbChip::<3>::num_rows(4, Some(6)), 64);
    assert_eq!(Poseidon2SkinnyChip::<9>::num_rows(1, None), 32);
    assert_eq!(BaseAluChip::<4>::preprocessed_num_rows(65, None), 32);
    assert_eq!(ExtAluChip::preprocessed_num_rows(64, None), 16);
    assert_eq!(SelectChip::preprocessed_num_rows(17, Some(3)), 8);
}

#[test]
fn refused_runs_leave_the_state_before() {
    let instrs = vec![
        mem(MemAccessKind::Write, 1, 0, 0),
        mem(MemAccessKind::Write, 1, 1, 1),
        base_alu(BaseAluOpcode::DivF, 1, 2, 1, 0),
    ];
    let (outcome, runtime) = run(instrs, 3);
    assert!(outcome.is_err());
    assert_eq!(runtime.memory.cells[1], Some(Block(val(1), val(0), val(0), val(0))));
    assert_eq!(runtime.memory.cells[2], None);
    assert!(runtime.record.base_alu_events.is_empty());

    let hint = Instruction::Hint(HintInstr {
        output_addrs_mults: vec![(Address(val(0)), val(1)), (Address(val(1)), val(1))],
    });
    let perm = Val::new_permutation(&constants());
    let mut runtime = Runtime::new(linear_program(vec![hint], 2), perm);
    runtime.witness_stream.push_back(Block(val(5), val(0), val(0), val(0)));
    assert_eq!(runtime.run::<Ext>(), Err(RuntimeError::EmptyWitnessStream));
    assert_eq!(runtime.witness_stream.len(), 1);
    assert_eq!(runtime.memory.cells, vec![None, None]);
}

#[test]
fn items_are_replaced_in_place() {
    let basic = |ns: Vec<u32>| SeqBlock::Basic(BasicBlock { instrs: ns });
    let mut program = RawProgram {
        seq_blocks: vec![
            basic(vec![1, 2]),
            SeqBlock::Parallel(vec![
                RawProgram { seq_blocks: vec![basic(vec![3])] },
                RawProgram { seq_blocks: vec![basic(vec![4, 5])] },
            ]),
        ],
    };
    program.iter_mut(|n: &u32| n + 10);
    let items: Vec<u32> = program.list().into_iter().copied().collect();
    assert_eq!(items, vec![11, 12, 13, 14, 15]);
    assert_eq!(program.seq_blocks.len(), 2);
    let mut block = basic(vec![7]);
    block.iter_mut(|n: &u32| n * 2);
    assert_eq!(block.iter().next(), Some(&14));
}

#[test]
fn shapes_are_chosen_for_each_program() {
    let sizes = TableSizes {
        var_mem_entries: 2,
        ext_alu_shrink_entries: 2,
        pub_values_log_height: 4,
    };
    let config = RecursionShapeConfig {
        allowed_shapes: vec![HeightMap::new(), HeightMap::new()],
        degree: 3,
        sizes,
    };
    assert_eq!(config.get_all_shape_combinations(0).len(), 0);
    assert_eq!(config.get_all_shape_combinations(1), vec![vec![0], vec![1]]);
    assert_eq!(
        config.get_all_shape_combinations(2),
        vec![vec![0, 0], vec![0, 1], vec![1, 0], vec![1, 1]]
    );
}
