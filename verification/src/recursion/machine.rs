//! The tables that the machines are made of, and how high a program makes them.
use vstd::prelude::*;
use vstd::arithmetic::power2::*;
use vstd::string::*;
use crate::bits;
use crate::field::PrimeField32;
use crate::recursion::block;
use crate::recursion::block::RawProgram;
use crate::recursion::chips::alu_base;
use crate::recursion::chips::alu_base::{
    div_ceil, NUM_BASE_ALU_ENTRIES_PER_ROW, NUM_BASE_ALU_SHRINK_ENTRIES_PER_ROW,
};
use crate::recursion::chips::alu_ext::NUM_EXT_ALU_ENTRIES_PER_ROW;
use crate::recursion::chips::mem::NUM_CONST_MEM_ENTRIES_PER_ROW;
use crate::recursion::chips::poseidon2_skinny_kb::ROWS_PER_PERMUTE;
use crate::recursion::event_count;
use crate::recursion::event_count::{Counts, RecursionAirEventCount};
use crate::recursion::instruction::Instruction;
use crate::recursion::shape::{HeightMap, RecursionShape};

verus! {

/// A table of the machine.
#[derive(Clone, Copy, Debug, PartialEq, Eq, Structural)]
pub enum RecursionAir {
    MemoryConst,
    MemoryVar,
    BaseAlu,
    BaseAluShrink,
    ExtAlu,
    ExtAluShrink,
    Poseidon2Skinny,
    Poseidon2SkinnyKb,
    Poseidon2Wide,
    Poseidon2WideKb,
    Select,
    PublicValues,
    PolyEval,
    ExtExpReverseBits,
    PrefixSumChecks,
}

/// The sizes of tables that a machine is set up with.
#[derive(Clone, Copy, Debug)]
pub struct TableSizes {
    /// The number of variables in a row.
    pub var_mem_entries: usize,
    /// The number of extension field operations in a row of the shrink machine.
    pub ext_alu_shrink_entries: usize,
    /// The logarithm of the height of the table of public values.
    pub pub_values_log_height: usize,
}

impl TableSizes {
    pub open spec fn wf(self) -> bool {
        &&& self.var_mem_entries > 0
        &&& self.ext_alu_shrink_entries > 0
        &&& self.pub_values_log_height < usize::BITS
    }
}

/// A decimal digit.
pub open spec fn digit(d: nat) -> Seq<char> {
    if d == 0 {
        "0"@
    } else if d == 1 {
        "1"@
    } else if d == 2 {
        "2"@
    } else if d == 3 {
        "3"@
    } else if d == 4 {
        "4"@
    } else if d == 5 {
        "5"@
    } else if d == 6 {
        "6"@
    } else if d == 7 {
        "7"@
    } else if d == 8 {
        "8"@
    } else {
        "9"@
    }
}

/// The decimal digits of a number.
pub open spec fn decimal(n: nat) -> Seq<char>
    decreases n,
{
    if n < 10 {
        digit(n)
    } else {
        decimal(n / 10) + digit(n % 10)
    }
}

fn digit_text(d: usize) -> (r: &'static str)
    requires
        d < 10,
    ensures
        r@ == digit(d as nat),
{
    if d == 0 {
        "0"
    } else if d == 1 {
        "1"
    } else if d == 2 {
        "2"
    } else if d == 3 {
        "3"
    } else if d == 4 {
        "4"
    } else if d == 5 {
        "5"
    } else if d == 6 {
        "6"
    } else if d == 7 {
        "7"
    } else if d == 8 {
        "8"
    } else {
        "9"
    }
}

/// The decimal digits of a number.
pub fn decimal_text(n: usize) -> (r: String)
    ensures
        r@ == decimal(n as nat),
    decreases n,
{
    if n < 10 {
        digit_text(n).to_string()
    } else {
        let mut s = decimal_text(n / 10);
        s.append(digit_text(n % 10));
        s
    }
}

impl RecursionAir {
    /// The name of the table, for constraints of the given degree.
    pub open spec fn name_of(self, degree: nat) -> Seq<char> {
        match self {
            RecursionAir::MemoryConst => "MemoryConst"@,
            RecursionAir::MemoryVar => "MemoryVar"@,
            RecursionAir::BaseAlu => "BaseAlu"@,
            RecursionAir::BaseAluShrink => "BaseAlu<2>"@,
            RecursionAir::ExtAlu => "ExtAlu"@,
            RecursionAir::ExtAluShrink => "ExtAlu<2>"@,
            RecursionAir::Poseidon2Skinny => "Poseidon2SkinnyDeg"@ + decimal(degree),
            RecursionAir::Poseidon2SkinnyKb => "Poseidon2SkinnyKbDeg"@ + decimal(degree),
            RecursionAir::Poseidon2Wide => "Poseidon2WideDeg"@ + decimal(degree),
            RecursionAir::Poseidon2WideKb => "Poseidon2WideKbDeg"@ + decimal(degree),
            RecursionAir::Select => "Select"@,
            RecursionAir::PublicValues => "PublicValues"@,
            RecursionAir::PolyEval => "PolyEvalDeg"@ + decimal(degree),
            RecursionAir::ExtExpReverseBits => "ExtExpReverseBitsDeg"@ + decimal(degree),
            RecursionAir::PrefixSumChecks => "PrefixSumChecks"@,
        }
    }

    /// The name of the table, for constraints of the given degree.
    pub fn name(&self, degree: usize) -> (r: String)
        ensures
            r@ == self.name_of(degree as nat),
    {
        match self {
            RecursionAir::MemoryConst => "MemoryConst".to_string(),
            RecursionAir::MemoryVar => "MemoryVar".to_string(),
            RecursionAir::BaseAlu => "BaseAlu".to_string(),
            RecursionAir::BaseAluShrink => "BaseAlu<2>".to_string(),
            RecursionAir::ExtAlu => "ExtAlu".to_string(),
            RecursionAir::ExtAluShrink => "ExtAlu<2>".to_string(),
            RecursionAir::Poseidon2Skinny => with_degree("Poseidon2SkinnyDeg", degree),
            RecursionAir::Poseidon2SkinnyKb => with_degree("Poseidon2SkinnyKbDeg", degree),
            RecursionAir::Poseidon2Wide => with_degree("Poseidon2WideDeg", degree),
            RecursionAir::Poseidon2WideKb => with_degree("Poseidon2WideKbDeg", degree),
            RecursionAir::Select => "Select".to_string(),
            RecursionAir::PublicValues => "PublicValues".to_string(),
            RecursionAir::PolyEval => with_degree("PolyEvalDeg", degree),
            RecursionAir::ExtExpReverseBits => with_degree("ExtExpReverseBitsDeg", degree),
            RecursionAir::PrefixSumChecks => "PrefixSumChecks".to_string(),
        }
    }

    /// The table of permutations with one permutation in a row.
    pub fn poseidon2_wide_chip() -> (r: Self)
        ensures
            r == RecursionAir::Poseidon2WideKb,
    {
        RecursionAir::Poseidon2WideKb
    }

    /// The table of permutations with a few rounds in a row.
    pub fn poseidon2_skinny_chip() -> (r: Self)
        ensures
            r == RecursionAir::Poseidon2SkinnyKb,
    {
        RecursionAir::Poseidon2SkinnyKb
    }

    /// The number of rows of a permutation in the skinny table.
    pub fn skinny_rows_per_permute() -> (r: usize)
        ensures
            r == 5,
    {
        ROWS_PER_PERMUTE
    }

    /// The tables of the machine with the wide table of permutations.
    pub fn machine_wide_with_all_chips() -> (r: Vec<RecursionAir>)
        ensures
            r@ == seq![
                RecursionAir::MemoryConst,
                RecursionAir::MemoryVar,
                RecursionAir::BaseAlu,
                RecursionAir::ExtAlu,
                RecursionAir::Poseidon2WideKb,
                RecursionAir::Select,
                RecursionAir::PublicValues,
            ],
    {
        vec![
            RecursionAir::MemoryConst,
            RecursionAir::MemoryVar,
            RecursionAir::BaseAlu,
            RecursionAir::ExtAlu,
            RecursionAir::Poseidon2WideKb,
            RecursionAir::Select,
            RecursionAir::PublicValues,
        ]
    }

    /// The tables of the machine with the skinny table of permutations.
    pub fn machine_skinny_with_all_chips() -> (r: Vec<RecursionAir>)
        ensures
            r@ == seq![
                RecursionAir::MemoryConst,
                RecursionAir::MemoryVar,
                RecursionAir::BaseAluShrink,
                RecursionAir::ExtAluShrink,
                RecursionAir::Poseidon2SkinnyKb,
                RecursionAir::Select,
                RecursionAir::PublicValues,
            ],
    {
        vec![
            RecursionAir::MemoryConst,
            RecursionAir::MemoryVar,
            RecursionAir::BaseAluShrink,
            RecursionAir::ExtAluShrink,
            RecursionAir::Poseidon2SkinnyKb,
            RecursionAir::Select,
            RecursionAir::PublicValues,
        ]
    }

    /// The tables of the sum-check machine with the wide table of permutations.
    pub fn sc_machine_wide_with_all_chips() -> (r: Vec<RecursionAir>)
        ensures
            r@ == seq![
                RecursionAir::MemoryConst,
                RecursionAir::MemoryVar,
                RecursionAir::BaseAlu,
                RecursionAir::ExtAlu,
                RecursionAir::Poseidon2WideKb,
                RecursionAir::Select,
                RecursionAir::PublicValues,
            ],
    {
        Self::machine_wide_with_all_chips()
    }

    /// The tables of the sum-check machine with the skinny table of permutations.
    pub fn sc_machine_skinny_with_all_chips() -> (r: Vec<RecursionAir>)
        ensures
            r@ == seq![
                RecursionAir::MemoryConst,
                RecursionAir::MemoryVar,
                RecursionAir::BaseAluShrink,
                RecursionAir::ExtAluShrink,
                RecursionAir::Poseidon2SkinnyKb,
                RecursionAir::Select,
                RecursionAir::PublicValues,
            ],
    {
        Self::machine_skinny_with_all_chips()
    }

    /// The tables of the machine that compresses.
    pub fn sc_compress_machine() -> (r: Vec<RecursionAir>)
        ensures
            r@ == seq![
                RecursionAir::MemoryConst,
                RecursionAir::MemoryVar,
                RecursionAir::BaseAlu,
                RecursionAir::ExtAlu,
                RecursionAir::Poseidon2WideKb,
                RecursionAir::Select,
                RecursionAir::PublicValues,
                RecursionAir::PrefixSumChecks,
                RecursionAir::ExtExpReverseBits,
            ],
    {
        vec![
            RecursionAir::MemoryConst,
            RecursionAir::MemoryVar,
            RecursionAir::BaseAlu,
            RecursionAir::ExtAlu,
            RecursionAir::Poseidon2WideKb,
            RecursionAir::Select,
            RecursionAir::PublicValues,
            RecursionAir::PrefixSumChecks,
            RecursionAir::ExtExpReverseBits,
        ]
    }

    /// The tables of the machine that shrinks.
    pub fn sc_shrink_machine() -> (r: Vec<RecursionAir>)
        ensures
            r@ == seq![
                RecursionAir::MemoryConst,
                RecursionAir::MemoryVar,
                RecursionAir::BaseAluShrink,
                RecursionAir::ExtAluShrink,
                RecursionAir::Poseidon2SkinnyKb,
                RecursionAir::Select,
                RecursionAir::PublicValues,
            ],
    {
        vec![
            RecursionAir::MemoryConst,
            RecursionAir::MemoryVar,
            RecursionAir::BaseAluShrink,
            RecursionAir::ExtAluShrink,
            RecursionAir::Poseidon2SkinnyKb,
            RecursionAir::Select,
            RecursionAir::PublicValues,
        ]
    }

    /// The tables of the machine that wraps.
    pub fn sc_wrap_machine() -> (r: Vec<RecursionAir>)
        ensures
            r@ == seq![
                RecursionAir::MemoryConst,
                RecursionAir::MemoryVar,
                RecursionAir::BaseAlu,
                RecursionAir::ExtAlu,
                RecursionAir::Poseidon2WideKb,
                RecursionAir::Select,
                RecursionAir::PublicValues,
                RecursionAir::PolyEval,
                RecursionAir::PrefixSumChecks,
                RecursionAir::ExtExpReverseBits,
            ],
    {
        vec![
            RecursionAir::MemoryConst,
            RecursionAir::MemoryVar,
            RecursionAir::BaseAlu,
            RecursionAir::ExtAlu,
            RecursionAir::Poseidon2WideKb,
            RecursionAir::Select,
            RecursionAir::PublicValues,
            RecursionAir::PolyEval,
            RecursionAir::PrefixSumChecks,
            RecursionAir::ExtExpReverseBits,
        ]
    }
}

fn with_degree(prefix: &str, degree: usize) -> (r: String)
    ensures
        r@ == prefix@ + decimal(degree as nat),
{
    let mut s = prefix.to_string();
    let d = decimal_text(degree);
    s.append(d.as_str());
    s
}

/// The events that the instructions of a program leave.
pub fn count_events<F: PrimeField32>(program: &RawProgram<Instruction<F>>) -> (r:
    RecursionAirEventCount)
    requires
        event_count::program_counts(program.items()).fits(),
    ensures
        r@ == event_count::program_counts(program.items()),
{
    let items = program.list();
    let ghost all = program.items();
    let n: usize = items.len();
    let mut counts = RecursionAirEventCount::none();
    let mut i: usize = 0;
    while i < n
        invariant
            i <= n,
            n == items@.len(),
            block::refers(items@, all),
            event_count::program_counts(all).fits(),
            counts@ == event_count::counts_from(Counts::none(), all, i as nat),
        decreases n - i,
    {
        proof {
            event_count::lemma_counts_grow(Counts::none(), all, i as nat + 1, all.len());
            assert(*items@[i as int] == all[i as int]);
        }
        counts.add_instruction(items[i]);
        i += 1;
    }
    counts
}

/// The heights of the tables of the machine that compresses.
pub open spec fn table_heights(c: Counts, sizes: TableSizes) -> Seq<(RecursionAir, nat)> {
    seq![
        (RecursionAir::MemoryConst, alu_base::rows_for(c.mem_const_events, 2)),
        (
            RecursionAir::MemoryVar,
            alu_base::rows_for(c.mem_var_events, sizes.var_mem_entries as nat),
        ),
        (RecursionAir::BaseAlu, alu_base::rows_for(c.base_alu_events, 4)),
        (RecursionAir::ExtAlu, alu_base::rows_for(c.ext_alu_events, 4)),
        (RecursionAir::Poseidon2WideKb, c.poseidon2_wide_events),
        (RecursionAir::Select, c.select_events),
        (RecursionAir::PublicValues, sizes.pub_values_log_height as nat),
        (RecursionAir::PrefixSumChecks, c.prefix_sum_checks_events),
        (RecursionAir::ExtExpReverseBits, c.ext_exp_reverse_bits_events),
    ]
}

/// The heights of the tables of the machine that shrinks.
pub open spec fn shrink_table_heights(c: Counts, sizes: TableSizes) -> Seq<(RecursionAir, nat)> {
    seq![
        (RecursionAir::MemoryConst, alu_base::rows_for(c.mem_const_events, 2)),
        (
            RecursionAir::MemoryVar,
            alu_base::rows_for(c.mem_var_events, sizes.var_mem_entries as nat),
        ),
        (RecursionAir::BaseAluShrink, alu_base::rows_for(c.base_alu_events, 2)),
        (
            RecursionAir::ExtAluShrink,
            alu_base::rows_for(c.ext_alu_events, sizes.ext_alu_shrink_entries as nat),
        ),
        (RecursionAir::Poseidon2SkinnyKb, c.poseidon2_skinny_events * 5),
        (RecursionAir::Select, c.select_events),
        (RecursionAir::PublicValues, pow2(sizes.pub_values_log_height as nat)),
    ]
}

/// The list holds the heights by the names of the tables.
pub open spec fn named(
    r: Seq<(String, usize)>,
    heights: Seq<(RecursionAir, nat)>,
    degree: nat,
) -> bool {
    &&& r.len() == heights.len()
    &&& forall|i: int|
        0 <= i < r.len() ==> (#[trigger] r[i]).0@ == heights[i].0.name_of(degree) && r[i].1 as nat
            == heights[i].1
}

/// The heights of the tables that a program makes, by name.
pub fn heights<F: PrimeField32>(
    program: &RawProgram<Instruction<F>>,
    sizes: &TableSizes,
    degree: usize,
) -> (r: Vec<(String, usize)>)
    requires
        sizes.wf(),
        event_count::program_counts(program.items()).fits(),
    ensures
        named(
            r@,
            table_heights(event_count::program_counts(program.items()), *sizes),
            degree as nat,
        ),
{
    let c = count_events(program);
    vec![
        (
            RecursionAir::MemoryConst.name(degree),
            div_ceil(c.mem_const_events, NUM_CONST_MEM_ENTRIES_PER_ROW),
        ),
        (RecursionAir::MemoryVar.name(degree), div_ceil(c.mem_var_events, sizes.var_mem_entries)),
        (
            RecursionAir::BaseAlu.name(degree),
            div_ceil(c.base_alu_events, NUM_BASE_ALU_ENTRIES_PER_ROW),
        ),
        (
            RecursionAir::ExtAlu.name(degree),
            div_ceil(c.ext_alu_events, NUM_EXT_ALU_ENTRIES_PER_ROW),
        ),
        (RecursionAir::poseidon2_wide_chip().name(degree), c.poseidon2_wide_events),
        (RecursionAir::Select.name(degree), c.select_events),
        (RecursionAir::PublicValues.name(degree), sizes.pub_values_log_height),
        (RecursionAir::PrefixSumChecks.name(degree), c.prefix_sum_checks_events),
        (RecursionAir::ExtExpReverseBits.name(degree), c.ext_exp_reverse_bits_events),
    ]
}

/// The heights of the tables that a program makes on the machine that shrinks, by name.
pub fn shrink_heights<F: PrimeField32>(
    program: &RawProgram<Instruction<F>>,
    sizes: &TableSizes,
    degree: usize,
) -> (r: Vec<(String, usize)>)
    requires
        sizes.wf(),
        event_count::program_counts(program.items()).fits(),
        event_count::program_counts(program.items()).poseidon2_skinny_events * 5 <= usize::MAX,
    ensures
        named(
            r@,
            shrink_table_heights(event_count::program_counts(program.items()), *sizes),
            degree as nat,
        ),
{
    let c = count_events(program);
    let skinny_rows: usize = c.poseidon2_skinny_events * RecursionAir::skinny_rows_per_permute();
    vec![
        (
            RecursionAir::MemoryConst.name(degree),
            div_ceil(c.mem_const_events, NUM_CONST_MEM_ENTRIES_PER_ROW),
        ),
        (RecursionAir::MemoryVar.name(degree), div_ceil(c.mem_var_events, sizes.var_mem_entries)),
        (
            RecursionAir::BaseAluShrink.name(degree),
            div_ceil(c.base_alu_events, NUM_BASE_ALU_SHRINK_ENTRIES_PER_ROW),
        ),
        (
            RecursionAir::ExtAluShrink.name(degree),
            div_ceil(c.ext_alu_events, sizes.ext_alu_shrink_entries),
        ),
        (RecursionAir::poseidon2_skinny_chip().name(degree), skinny_rows),
        (RecursionAir::Select.name(degree), c.select_events),
        (RecursionAir::PublicValues.name(degree), bits::two_to_the(sizes.pub_values_log_height)),
    ]
}

/// The logarithms of the heights of the shrink machine's tables.
pub open spec fn shrink_shape_heights(sizes: TableSizes, degree: nat) -> Map<Seq<char>, usize> {
    Map::empty().insert(RecursionAir::MemoryVar.name_of(degree), 18usize).insert(
        RecursionAir::Select.name_of(degree),
        18usize,
    ).insert(RecursionAir::MemoryConst.name_of(degree), 17usize).insert(
        RecursionAir::BaseAluShrink.name_of(degree),
        17usize,
    ).insert(RecursionAir::ExtAluShrink.name_of(degree), 18usize).insert(
        RecursionAir::Poseidon2SkinnyKb.name_of(degree),
        19usize,
    ).insert(RecursionAir::PublicValues.name_of(degree), sizes.pub_values_log_height)
}

/// The shape of the machine that shrinks.
pub fn shrink_shape(sizes: &TableSizes, degree: usize) -> (r: RecursionShape)
    ensures
        r@ == shrink_shape_heights(*sizes, degree as nat),
{
    let mut m = HeightMap::new();
    m.insert(RecursionAir::MemoryVar.name(degree), 18);
    m.insert(RecursionAir::Select.name(degree), 18);
    m.insert(RecursionAir::MemoryConst.name(degree), 17);
    m.insert(RecursionAir::BaseAluShrink.name(degree), 17);
    m.insert(RecursionAir::ExtAluShrink.name(degree), 18);
    m.insert(RecursionAir::poseidon2_skinny_chip().name(degree), 19);
    m.insert(RecursionAir::PublicValues.name(degree), sizes.pub_values_log_height);
    RecursionShape::from_map(m)
}

} // verus!
