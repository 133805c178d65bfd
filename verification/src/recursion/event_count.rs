//! How many events of each kind the instructions of a program leave.
use vstd::prelude::*;
use crate::recursion::instruction::Instruction;

verus! {

/// The number of events of each kind.
#[derive(Clone, Copy, Debug, PartialEq, Eq)]
pub struct RecursionAirEventCount {
    pub mem_const_events: usize,
    pub mem_var_events: usize,
    pub base_alu_events: usize,
    pub ext_alu_events: usize,
    pub poseidon2_wide_events: usize,
    pub poseidon2_skinny_events: usize,
    pub select_events: usize,
    pub poly_eval_events: usize,
    pub ext_exp_reverse_bits_events: usize,
    pub prefix_sum_checks_events: usize,
    pub commit_pv_hash_events: usize,
}

/// The number of events of each kind, mathematically.
#[verifier::ext_equal]
pub struct Counts {
    pub mem_const_events: nat,
    pub mem_var_events: nat,
    pub base_alu_events: nat,
    pub ext_alu_events: nat,
    pub poseidon2_wide_events: nat,
    pub poseidon2_skinny_events: nat,
    pub select_events: nat,
    pub poly_eval_events: nat,
    pub ext_exp_reverse_bits_events: nat,
    pub prefix_sum_checks_events: nat,
    pub commit_pv_hash_events: nat,
}

impl View for RecursionAirEventCount {
    type V = Counts;

    open spec fn view(&self) -> Counts {
        Counts {
            mem_const_events: self.mem_const_events as nat,
            mem_var_events: self.mem_var_events as nat,
            base_alu_events: self.base_alu_events as nat,
            ext_alu_events: self.ext_alu_events as nat,
            poseidon2_wide_events: self.poseidon2_wide_events as nat,
            poseidon2_skinny_events: self.poseidon2_skinny_events as nat,
            select_events: self.select_events as nat,
            poly_eval_events: self.poly_eval_events as nat,
            ext_exp_reverse_bits_events: self.ext_exp_reverse_bits_events as nat,
            prefix_sum_checks_events: self.prefix_sum_checks_events as nat,
            commit_pv_hash_events: self.commit_pv_hash_events as nat,
        }
    }
}

impl Counts {
    pub open spec fn none() -> Counts {
        Counts {
            mem_const_events: 0,
            mem_var_events: 0,
            base_alu_events: 0,
            ext_alu_events: 0,
            poseidon2_wide_events: 0,
            poseidon2_skinny_events: 0,
            select_events: 0,
            poly_eval_events: 0,
            ext_exp_reverse_bits_events: 0,
            prefix_sum_checks_events: 0,
            commit_pv_hash_events: 0,
        }
    }

    /// Each count fits in a machine integer.
    pub open spec fn fits(self) -> bool {
        &&& self.mem_const_events <= usize::MAX
        &&& self.mem_var_events <= usize::MAX
        &&& self.base_alu_events <= usize::MAX
        &&& self.ext_alu_events <= usize::MAX
        &&& self.poseidon2_wide_events <= usize::MAX
        &&& self.poseidon2_skinny_events <= usize::MAX
        &&& self.select_events <= usize::MAX
        &&& self.poly_eval_events <= usize::MAX
        &&& self.ext_exp_reverse_bits_events <= usize::MAX
        &&& self.prefix_sum_checks_events <= usize::MAX
        &&& self.commit_pv_hash_events <= usize::MAX
    }

    pub open spec fn plus(self, other: Counts) -> Counts {
        Counts {
            mem_const_events: self.mem_const_events + other.mem_const_events,
            mem_var_events: self.mem_var_events + other.mem_var_events,
            base_alu_events: self.base_alu_events + other.base_alu_events,
            ext_alu_events: self.ext_alu_events + other.ext_alu_events,
            poseidon2_wide_events: self.poseidon2_wide_events + other.poseidon2_wide_events,
            poseidon2_skinny_events: self.poseidon2_skinny_events + other.poseidon2_skinny_events,
            select_events: self.select_events + other.select_events,
            poly_eval_events: self.poly_eval_events + other.poly_eval_events,
            ext_exp_reverse_bits_events: self.ext_exp_reverse_bits_events + other.ext_exp_reverse_bits_events,
            prefix_sum_checks_events: self.prefix_sum_checks_events + other.prefix_sum_checks_events,
            commit_pv_hash_events: self.commit_pv_hash_events + other.commit_pv_hash_events,
        }
    }

    pub open spec fn times(self, n: nat) -> Counts {
        Counts {
            mem_const_events: self.mem_const_events * n,
            mem_var_events: self.mem_var_events * n,
            base_alu_events: self.base_alu_events * n,
            ext_alu_events: self.ext_alu_events * n,
            poseidon2_wide_events: self.poseidon2_wide_events * n,
            poseidon2_skinny_events: self.poseidon2_skinny_events * n,
            select_events: self.select_events * n,
            poly_eval_events: self.poly_eval_events * n,
            ext_exp_reverse_bits_events: self.ext_exp_reverse_bits_events * n,
            prefix_sum_checks_events: self.prefix_sum_checks_events * n,
            commit_pv_hash_events: self.commit_pv_hash_events * n,
        }
    }

    /// No count exceeds the other's.
    pub open spec fn within(self, other: Counts) -> bool {
        &&& self.mem_const_events <= other.mem_const_events
        &&& self.mem_var_events <= other.mem_var_events
        &&& self.base_alu_events <= other.base_alu_events
        &&& self.ext_alu_events <= other.ext_alu_events
        &&& self.poseidon2_wide_events <= other.poseidon2_wide_events
        &&& self.poseidon2_skinny_events <= other.poseidon2_skinny_events
        &&& self.select_events <= other.select_events
        &&& self.poly_eval_events <= other.poly_eval_events
        &&& self.ext_exp_reverse_bits_events <= other.ext_exp_reverse_bits_events
        &&& self.prefix_sum_checks_events <= other.prefix_sum_checks_events
        &&& self.commit_pv_hash_events <= other.commit_pv_hash_events
    }
}

/// A kind of event, each with a list of its own.
#[derive(Clone, Copy, Debug, PartialEq, Eq, Structural)]
pub enum EventKind {
    MemConst,
    MemVar,
    BaseAlu,
    ExtAlu,
    Poseidon2Wide,
    Poseidon2Skinny,
    Select,
    PolyEval,
    ExtExpReverseBits,
    PrefixSumChecks,
    CommitPvHash,
}

/// The kind of the events that an instruction leaves.
pub open spec fn kind_of<F>(instr: Instruction<F>) -> Option<EventKind> {
    match instr {
        Instruction::BaseAlu(_) => Some(EventKind::BaseAlu),
        Instruction::ExtAlu(_) => Some(EventKind::ExtAlu),
        Instruction::Mem(_) => Some(EventKind::MemConst),
        Instruction::Poseidon2(_) => Some(EventKind::Poseidon2Wide),
        Instruction::Poseidon2Skinny(_) => Some(EventKind::Poseidon2Skinny),
        Instruction::Select(_) => Some(EventKind::Select),
        Instruction::Hint(_) => Some(EventKind::MemVar),
        Instruction::HintBits(_) => Some(EventKind::MemVar),
        Instruction::HintExt2Felts(_) => Some(EventKind::MemVar),
        Instruction::HintAddCurve(_) => Some(EventKind::MemVar),
        Instruction::CommitPublicValues(_) => Some(EventKind::CommitPvHash),
        Instruction::Print(_) => None,
        Instruction::PolyEval(_) => Some(EventKind::PolyEval),
        Instruction::ExtExpReverseBits(_) => Some(EventKind::ExtExpReverseBits),
        Instruction::PrefixSumChecks(_) => Some(EventKind::PrefixSumChecks),
    }
}

/// The number of events that an instruction leaves.
pub open spec fn events_of<F>(instr: Instruction<F>) -> nat {
    match instr {
        Instruction::Hint(hint) => hint.output_addrs_mults@.len(),
        Instruction::HintBits(hint) => hint.output_addrs_mults@.len(),
        Instruction::HintExt2Felts(hint) => hint.output_addrs_mults@.len(),
        Instruction::HintAddCurve(hint) => hint.output_x_addrs_mults@.len()
            + hint.output_y_addrs_mults@.len(),
        Instruction::Print(_) => 0,
        Instruction::ExtExpReverseBits(exp) => exp.addrs.exp@.len(),
        Instruction::PrefixSumChecks(prefix) => prefix.addrs.x1_vec@.len(),
        _ => 1,
    }
}

/// The count of a kind.
pub open spec fn count_of(c: Counts, kind: EventKind) -> nat {
    match kind {
        EventKind::MemConst => c.mem_const_events,
        EventKind::MemVar => c.mem_var_events,
        EventKind::BaseAlu => c.base_alu_events,
        EventKind::ExtAlu => c.ext_alu_events,
        EventKind::Poseidon2Wide => c.poseidon2_wide_events,
        EventKind::Poseidon2Skinny => c.poseidon2_skinny_events,
        EventKind::Select => c.select_events,
        EventKind::PolyEval => c.poly_eval_events,
        EventKind::ExtExpReverseBits => c.ext_exp_reverse_bits_events,
        EventKind::PrefixSumChecks => c.prefix_sum_checks_events,
        EventKind::CommitPvHash => c.commit_pv_hash_events,
    }
}

/// The counts with the events of one more instruction.
pub open spec fn counted<F>(c: Counts, instr: Instruction<F>) -> Counts {
    let n = events_of(instr);
    match kind_of(instr) {
        None => c,
        Some(EventKind::MemConst) => Counts { mem_const_events: c.mem_const_events + n, ..c },
        Some(EventKind::MemVar) => Counts { mem_var_events: c.mem_var_events + n, ..c },
        Some(EventKind::BaseAlu) => Counts { base_alu_events: c.base_alu_events + n, ..c },
        Some(EventKind::ExtAlu) => Counts { ext_alu_events: c.ext_alu_events + n, ..c },
        Some(EventKind::Poseidon2Wide) => Counts {
            poseidon2_wide_events: c.poseidon2_wide_events + n,
            ..c
        },
        Some(EventKind::Poseidon2Skinny) => Counts {
            poseidon2_skinny_events: c.poseidon2_skinny_events + n,
            ..c
        },
        Some(EventKind::Select) => Counts { select_events: c.select_events + n, ..c },
        Some(EventKind::PolyEval) => Counts { poly_eval_events: c.poly_eval_events + n, ..c },
        Some(EventKind::ExtExpReverseBits) => Counts {
            ext_exp_reverse_bits_events: c.ext_exp_reverse_bits_events + n,
            ..c
        },
        Some(EventKind::PrefixSumChecks) => Counts {
            prefix_sum_checks_events: c.prefix_sum_checks_events + n,
            ..c
        },
        Some(EventKind::CommitPvHash) => Counts {
            commit_pv_hash_events: c.commit_pv_hash_events + n,
            ..c
        },
    }
}

/// The counts of the first `n` instructions, from `c`.
pub open spec fn counts_from<F>(c: Counts, instrs: Seq<Instruction<F>>, n: nat) -> Counts
    decreases n,
{
    if n == 0 || n > instrs.len() {
        c
    } else {
        counted(counts_from(c, instrs, (n - 1) as nat), instrs[n - 1])
    }
}

/// The counts of all instructions.
pub open spec fn program_counts<F>(instrs: Seq<Instruction<F>>) -> Counts {
    counts_from(Counts::none(), instrs, instrs.len())
}

/// Where the events of an instruction go in the list of their kind.
pub open spec fn slot_of<F>(c: Counts, instr: Instruction<F>) -> nat {
    match kind_of(instr) {
        None => 0,
        Some(kind) => count_of(c, kind),
    }
}

/// An instruction adds its events to the count of its kind, and to no other.
pub proof fn law_counted<F>(c: Counts, instr: Instruction<F>, kind: EventKind)
    ensures
        count_of(counted(c, instr), kind) == count_of(c, kind) + (if kind_of(instr) == Some(kind) {
            events_of(instr)
        } else {
            0
        }),
{
}

/// The counts only grow.
pub proof fn lemma_counts_grow<F>(c: Counts, instrs: Seq<Instruction<F>>, m: nat, n: nat)
    requires
        m <= n <= instrs.len(),
    ensures
        counts_from(c, instrs, m).within(counts_from(c, instrs, n)),
    decreases n,
{
    if m < n {
        lemma_counts_grow(c, instrs, m, (n - 1) as nat);
    }
}

/// The counts of the first instructions do not depend on the later ones.
pub proof fn lemma_counts_append<F>(
    c: Counts,
    a: Seq<Instruction<F>>,
    b: Seq<Instruction<F>>,
    n: nat,
)
    requires
        n <= b.len(),
    ensures
        counts_from(c, a + b, a.len() + n) == counts_from(counts_from(c, a, a.len()), b, n),
    decreases n,
{
    if n == 0 {
        lemma_counts_prefix(c, a, b, a.len());
    } else {
        lemma_counts_append(c, a, b, (n - 1) as nat);
        assert((a + b)[a.len() + n - 1] == b[n - 1]);
    }
}

pub proof fn lemma_counts_prefix<F>(
    c: Counts,
    a: Seq<Instruction<F>>,
    b: Seq<Instruction<F>>,
    n: nat,
)
    requires
        n <= a.len(),
    ensures
        counts_from(c, a + b, n) == counts_from(c, a, n),
    decreases n,
{
    if n > 0 {
        lemma_counts_prefix(c, a, b, (n - 1) as nat);
        assert((a + b)[n - 1] == a[n - 1]);
    }
}

/// The events of two instructions of one kind do not share a slot.
pub proof fn law_slots_disjoint<F>(instrs: Seq<Instruction<F>>, i: int, j: int, kind: EventKind)
    requires
        0 <= i < j < instrs.len(),
        kind_of(instrs[i]) == Some(kind),
        kind_of(instrs[j]) == Some(kind),
    ensures
        slot_of(counts_from(Counts::none(), instrs, i as nat), instrs[i]) + events_of(instrs[i])
            <= slot_of(counts_from(Counts::none(), instrs, j as nat), instrs[j]),
{
    law_counted(counts_from(Counts::none(), instrs, i as nat), instrs[i], kind);
    lemma_counts_grow(Counts::none(), instrs, (i + 1) as nat, j as nat);
}

/// Every slot of a list belongs to an instruction of its kind.
pub proof fn law_slots_cover<F>(instrs: Seq<Instruction<F>>, n: nat, kind: EventKind, slot: nat)
    requires
        n <= instrs.len(),
        slot < count_of(counts_from(Counts::none(), instrs, n), kind),
    ensures
        exists|i: int|
            {
                &&& 0 <= i < n
                &&& kind_of(#[trigger] instrs[i]) == Some(kind)
                &&& slot_of(counts_from(Counts::none(), instrs, i as nat), instrs[i]) <= slot
                &&& slot < slot_of(counts_from(Counts::none(), instrs, i as nat), instrs[i])
                    + events_of(instrs[i])
            },
    decreases n,
{
    let before = counts_from(Counts::none(), instrs, (n - 1) as nat);
    let last = instrs[n - 1];
    law_counted(before, last, kind);
    if slot < count_of(before, kind) {
        law_slots_cover(instrs, (n - 1) as nat, kind, slot);
        let i = choose|i: int|
            {
                &&& 0 <= i < n - 1
                &&& kind_of(#[trigger] instrs[i]) == Some(kind)
                &&& slot_of(counts_from(Counts::none(), instrs, i as nat), instrs[i]) <= slot
                &&& slot < slot_of(counts_from(Counts::none(), instrs, i as nat), instrs[i])
                    + events_of(instrs[i])
            };
        assert(0 <= i < n);
    } else {
        assert(kind_of(instrs[n - 1]) == Some(kind));
    }
}

impl RecursionAirEventCount {
    pub fn none() -> (r: Self)
        ensures
            r@ == Counts::none(),
    {
        RecursionAirEventCount {
            mem_const_events: 0,
            mem_var_events: 0,
            base_alu_events: 0,
            ext_alu_events: 0,
            poseidon2_wide_events: 0,
            poseidon2_skinny_events: 0,
            select_events: 0,
            poly_eval_events: 0,
            ext_exp_reverse_bits_events: 0,
            prefix_sum_checks_events: 0,
            commit_pv_hash_events: 0,
        }
    }

    /// Counts the events of one more instruction.
    pub fn add_instruction<F>(&mut self, instr: &Instruction<F>)
        requires
            counted(old(self)@, *instr).fits(),
        ensures
            final(self)@ == counted(old(self)@, *instr),
    {
        match instr {
            Instruction::BaseAlu(_) => {
                self.base_alu_events = self.base_alu_events + 1;
            },
            Instruction::ExtAlu(_) => {
                self.ext_alu_events = self.ext_alu_events + 1;
            },
            Instruction::Mem(_) => {
                self.mem_const_events = self.mem_const_events + 1;
            },
            Instruction::Poseidon2(_) => {
                self.poseidon2_wide_events = self.poseidon2_wide_events + 1;
            },
            Instruction::Poseidon2Skinny(_) => {
                self.poseidon2_skinny_events = self.poseidon2_skinny_events + 1;
            },
            Instruction::Select(_) => {
                self.select_events = self.select_events + 1;
            },
            Instruction::Hint(hint) => {
                self.mem_var_events = self.mem_var_events + hint.output_addrs_mults.len();
            },
            Instruction::HintBits(hint) => {
                self.mem_var_events = self.mem_var_events + hint.output_addrs_mults.len();
            },
            Instruction::HintExt2Felts(hint) => {
                self.mem_var_events = self.mem_var_events + hint.output_addrs_mults.len();
            },
            Instruction::HintAddCurve(hint) => {
                self.mem_var_events = self.mem_var_events + hint.output_x_addrs_mults.len();
                self.mem_var_events = self.mem_var_events + hint.output_y_addrs_mults.len();
            },
            Instruction::CommitPublicValues(_) => {
                self.commit_pv_hash_events = self.commit_pv_hash_events + 1;
            },
            Instruction::Print(_) => {},
            Instruction::PolyEval(_) => {
                self.poly_eval_events = self.poly_eval_events + 1;
            },
            Instruction::ExtExpReverseBits(exp) => {
                self.ext_exp_reverse_bits_events = self.ext_exp_reverse_bits_events
                    + exp.addrs.exp.len();
            },
            Instruction::PrefixSumChecks(prefix) => {
                self.prefix_sum_checks_events = self.prefix_sum_checks_events
                    + prefix.addrs.x1_vec.len();
            },
        }
    }

    /// The counts of both.
    pub fn add(&self, rhs: &Self) -> (r: Self)
        requires
            self@.plus(rhs@).fits(),
        ensures
            r@ == self@.plus(rhs@),
    {
        RecursionAirEventCount {
            mem_const_events: self.mem_const_events + rhs.mem_const_events,
            mem_var_events: self.mem_var_events + rhs.mem_var_events,
            base_alu_events: self.base_alu_events + rhs.base_alu_events,
            ext_alu_events: self.ext_alu_events + rhs.ext_alu_events,
            poseidon2_wide_events: self.poseidon2_wide_events + rhs.poseidon2_wide_events,
            poseidon2_skinny_events: self.poseidon2_skinny_events + rhs.poseidon2_skinny_events,
            select_events: self.select_events + rhs.select_events,
            poly_eval_events: self.poly_eval_events + rhs.poly_eval_events,
            ext_exp_reverse_bits_events: self.ext_exp_reverse_bits_events + rhs.ext_exp_reverse_bits_events,
            prefix_sum_checks_events: self.prefix_sum_checks_events + rhs.prefix_sum_checks_events,
            commit_pv_hash_events: self.commit_pv_hash_events + rhs.commit_pv_hash_events,
        }
    }

    /// The counts without those of the other.
    pub fn sub(&self, rhs: &Self) -> (r: Self)
        requires
            rhs@.within(self@),
        ensures
            r@.plus(rhs@) == self@,
    {
        RecursionAirEventCount {
            mem_const_events: self.mem_const_events - rhs.mem_const_events,
            mem_var_events: self.mem_var_events - rhs.mem_var_events,
            base_alu_events: self.base_alu_events - rhs.base_alu_events,
            ext_alu_events: self.ext_alu_events - rhs.ext_alu_events,
            poseidon2_wide_events: self.poseidon2_wide_events - rhs.poseidon2_wide_events,
            poseidon2_skinny_events: self.poseidon2_skinny_events - rhs.poseidon2_skinny_events,
            select_events: self.select_events - rhs.select_events,
            poly_eval_events: self.poly_eval_events - rhs.poly_eval_events,
            ext_exp_reverse_bits_events: self.ext_exp_reverse_bits_events - rhs.ext_exp_reverse_bits_events,
            prefix_sum_checks_events: self.prefix_sum_checks_events - rhs.prefix_sum_checks_events,
            commit_pv_hash_events: self.commit_pv_hash_events - rhs.commit_pv_hash_events,
        }
    }

    /// The counts `rhs` times over.
    pub fn mul(&self, rhs: usize) -> (r: Self)
        requires
            self@.times(rhs as nat).fits(),
        ensures
            r@ == self@.times(rhs as nat),
    {
        RecursionAirEventCount {
            mem_const_events: self.mem_const_events * rhs,
            mem_var_events: self.mem_var_events * rhs,
            base_alu_events: self.base_alu_events * rhs,
            ext_alu_events: self.ext_alu_events * rhs,
            poseidon2_wide_events: self.poseidon2_wide_events * rhs,
            poseidon2_skinny_events: self.poseidon2_skinny_events * rhs,
            select_events: self.select_events * rhs,
            poly_eval_events: self.poly_eval_events * rhs,
            ext_exp_reverse_bits_events: self.ext_exp_reverse_bits_events * rhs,
            prefix_sum_checks_events: self.prefix_sum_checks_events * rhs,
            commit_pv_hash_events: self.commit_pv_hash_events * rhs,
        }
    }

    /// The count that an instruction's events start at.
    pub fn slot<F>(&self, instr: &Instruction<F>) -> (r: usize)
        ensures
            r as nat == slot_of(self@, *instr),
    {
        match instr {
            Instruction::BaseAlu(_) => self.base_alu_events,
            Instruction::ExtAlu(_) => self.ext_alu_events,
            Instruction::Mem(_) => self.mem_const_events,
            Instruction::Poseidon2(_) => self.poseidon2_wide_events,
            Instruction::Poseidon2Skinny(_) => self.poseidon2_skinny_events,
            Instruction::Select(_) => self.select_events,
            Instruction::CommitPublicValues(_) => self.commit_pv_hash_events,
            Instruction::HintBits(_) => self.mem_var_events,
            Instruction::Hint(_) => self.mem_var_events,
            Instruction::HintExt2Felts(_) => self.mem_var_events,
            Instruction::HintAddCurve(_) => self.mem_var_events,
            Instruction::PolyEval(_) => self.poly_eval_events,
            Instruction::ExtExpReverseBits(_) => self.ext_exp_reverse_bits_events,
            Instruction::PrefixSumChecks(_) => self.prefix_sum_checks_events,
            Instruction::Print(_) => 0,
        }
    }
}

impl Default for RecursionAirEventCount {
    fn default() -> (r: Self)
        ensures
            r@ == Counts::none(),
    {
        Self::none()
    }
}

} // verus!
