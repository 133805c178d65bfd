//! The events of a run.
use vstd::prelude::*;
use crate::field::PrimeField32;
use crate::recursion::event_count::{Counts, RecursionAirEventCount};
use crate::recursion::semantics::State;
use crate::recursion::types::{
    BaseAluIo, Block, CommitPublicValuesEvent, ExtAluIo, ExtExpReverseBitsEvent, MemIo,
    PermutationModel, PolyEvalIo, Poseidon2Io, PrefixSumChecksIo, RecursionPublicValues, SelectIo,
};

verus! {

/// The events of a run, kind by kind.
#[derive(Clone, Debug)]
pub struct ExecutionRecord<F> {
    /// The index of the shard.
    pub index: u32,
    pub base_alu_events: Vec<BaseAluIo<F>>,
    pub ext_alu_events: Vec<ExtAluIo<Block<F>>>,
    pub mem_const_count: usize,
    pub mem_var_events: Vec<MemIo<Block<F>>>,
    /// The public values.
    pub public_values: RecursionPublicValues<F>,
    pub poseidon2_events: Vec<Poseidon2Io<F>>,
    /// The permutations of the skinny table.
    pub poseidon2_skinny_events: Vec<Poseidon2Io<F>>,
    pub select_events: Vec<SelectIo<F>>,
    pub commit_pv_hash_events: Vec<CommitPublicValuesEvent<F>>,
    pub poly_eval_events: Vec<PolyEvalIo<F>>,
    pub ext_exp_reverse_bits_events: Vec<ExtExpReverseBitsEvent<F>>,
    pub prefix_sum_checks_events: Vec<PrefixSumChecksIo<Block<F>>>,
}

/// The first slots hold the events, and the others are empty.
pub open spec fn filled<E>(slots: Seq<Option<E>>, events: Seq<E>) -> bool {
    &&& events.len() <= slots.len()
    &&& forall|i: int| 0 <= i < events.len() ==> #[trigger] slots[i] == Some(events[i])
    &&& forall|i: int| events.len() <= i < slots.len() ==> (#[trigger] slots[i]) is None
}

/// The first slots hold the values, and the others are empty.
pub open spec fn filled_cells<F>(slots: Seq<Option<MemIo<Block<F>>>>, vals: Seq<Block<F>>) -> bool {
    &&& vals.len() <= slots.len()
    &&& forall|i: int|
        0 <= i < vals.len() ==> #[trigger] slots[i] == Some(MemIo { inner: vals[i] })
    &&& forall|i: int| vals.len() <= i < slots.len() ==> (#[trigger] slots[i]) is None
}

/// The first slots hold the permutations, and the others are empty.
pub open spec fn filled_permutations<F>(
    slots: Seq<Option<Poseidon2Io<F>>>,
    events: Seq<PermutationModel<F>>,
) -> bool {
    &&& events.len() <= slots.len()
    &&& forall|i: int|
        0 <= i < events.len() ==> (#[trigger] slots[i] is Some && slots[i]->0@ == events[i])
    &&& forall|i: int| events.len() <= i < slots.len() ==> (#[trigger] slots[i]) is None
}

/// The first slots hold the public values, and the others are empty.
pub open spec fn filled_commits<F>(
    slots: Seq<Option<CommitPublicValuesEvent<F>>>,
    events: Seq<Seq<F>>,
) -> bool {
    &&& events.len() <= slots.len()
    &&& forall|i: int|
        0 <= i < events.len() ==> (#[trigger] slots[i] is Some
            && slots[i]->0.public_values.elements@ == events[i])
    &&& forall|i: int| events.len() <= i < slots.len() ==> (#[trigger] slots[i]) is None
}

/// Every list of events holds those of the state.
pub open spec fn holds_events<F>(r: ExecutionRecord<F>, s: State<F>) -> bool {
    &&& r.base_alu_events@ == s.base_alu
    &&& r.ext_alu_events@ == s.ext_alu
    &&& r.mem_var_events@ == Seq::new(s.mem_var.len(), |i: int| MemIo { inner: s.mem_var[i] })
    &&& Seq::new(r.poseidon2_events@.len(), |i: int| r.poseidon2_events@[i]@) == s.poseidon2
    &&& Seq::new(r.poseidon2_skinny_events@.len(), |i: int| r.poseidon2_skinny_events@[i]@)
        == s.poseidon2_skinny
    &&& r.select_events@ == s.select
    &&& Seq::new(
        r.commit_pv_hash_events@.len(),
        |i: int| r.commit_pv_hash_events@[i].public_values.elements@,
    ) == s.commits
    &&& Seq::new(r.poly_eval_events@.len(), |i: int| r.poly_eval_events@[i]@) == s.poly_evals
    &&& Seq::new(
        r.ext_exp_reverse_bits_events@.len(),
        |i: int| r.ext_exp_reverse_bits_events@[i]@,
    ) == s.exps
    &&& Seq::new(r.prefix_sum_checks_events@.len(), |i: int| r.prefix_sum_checks_events@[i]@)
        == s.prefixes
    &&& r.public_values.elements@ == (match s.public_values {
        Some(v) => v,
        None => Seq::empty(),
    })
}

/// A record with a slot for each event, filled in any order.
#[derive(Debug)]
pub struct UnsafeRecord<F> {
    pub base_alu_events: Vec<Option<BaseAluIo<F>>>,
    pub ext_alu_events: Vec<Option<ExtAluIo<Block<F>>>>,
    pub mem_const_count: usize,
    pub mem_var_events: Vec<Option<MemIo<Block<F>>>>,
    pub poseidon2_events: Vec<Option<Poseidon2Io<F>>>,
    pub poseidon2_skinny_events: Vec<Option<Poseidon2Io<F>>>,
    pub select_events: Vec<Option<SelectIo<F>>>,
    pub commit_pv_hash_events: Vec<Option<CommitPublicValuesEvent<F>>>,
}

/// The events that have no slots, in the order in which they come.
#[derive(Debug)]
pub struct VecEventCollector<F> {
    pub poly_eval_events: Vec<PolyEvalIo<F>>,
    pub ext_exp_reverse_bits_events: Vec<ExtExpReverseBitsEvent<F>>,
    pub prefix_sum_checks_events: Vec<PrefixSumChecksIo<Block<F>>>,
    pub public_values: Option<RecursionPublicValues<F>>,
}

impl<F> VecEventCollector<F> {
    pub fn new() -> (r: Self)
        ensures
            r.poly_eval_events@.len() == 0,
            r.ext_exp_reverse_bits_events@.len() == 0,
            r.prefix_sum_checks_events@.len() == 0,
            r.public_values is None,
    {
        VecEventCollector {
            poly_eval_events: Vec::new(),
            ext_exp_reverse_bits_events: Vec::new(),
            prefix_sum_checks_events: Vec::new(),
            public_values: None,
        }
    }

    /// Moves the events of another collector, but not its public values, to the end of this one.
    pub fn absorb(&mut self, other: Self)
        ensures
            final(self).poly_eval_events@ == old(self).poly_eval_events@ + other.poly_eval_events@,
            final(self).ext_exp_reverse_bits_events@ == old(self).ext_exp_reverse_bits_events@
                + other.ext_exp_reverse_bits_events@,
            final(self).prefix_sum_checks_events@ == old(self).prefix_sum_checks_events@
                + other.prefix_sum_checks_events@,
            final(self).public_values == old(self).public_values,
    {
        let mut other = other;
        self.poly_eval_events.append(&mut other.poly_eval_events);
        self.ext_exp_reverse_bits_events.append(&mut other.ext_exp_reverse_bits_events);
        self.prefix_sum_checks_events.append(&mut other.prefix_sum_checks_events);
    }

    /// The events are those of the state.
    pub open spec fn collects(self, s: State<F>) -> bool {
        &&& Seq::new(self.poly_eval_events@.len(), |i: int| self.poly_eval_events@[i]@)
            == s.poly_evals
        &&& Seq::new(
            self.ext_exp_reverse_bits_events@.len(),
            |i: int| self.ext_exp_reverse_bits_events@[i]@,
        ) == s.exps
        &&& Seq::new(
            self.prefix_sum_checks_events@.len(),
            |i: int| self.prefix_sum_checks_events@[i]@,
        ) == s.prefixes
        &&& self.public_values is Some <==> s.public_values is Some
        &&& self.public_values matches Some(v) ==> s.public_values == Some(v.elements@)
    }
}

fn empty_slots<E>(n: usize) -> (r: Vec<Option<E>>)
    ensures
        r@.len() == n,
        forall|i: int| 0 <= i < n ==> (#[trigger] r@[i]) is None,
{
    let mut r: Vec<Option<E>> = Vec::new();
    let mut i: usize = 0;
    while i < n
        invariant
            i <= n,
            r@.len() == i,
            forall|j: int| 0 <= j < i ==> (#[trigger] r@[j]) is None,
        decreases n - i,
    {
        r.push(None);
        i += 1;
    }
    r
}

fn unwrap_slots<E>(slots: Vec<Option<E>>) -> (r: Vec<E>)
    requires
        forall|i: int| 0 <= i < slots@.len() ==> (#[trigger] slots@[i]) is Some,
    ensures
        r@.len() == slots@.len(),
        forall|i: int| 0 <= i < r@.len() ==> Some(#[trigger] r@[i]) == slots@[i],
{
    let ghost all = slots@;
    let mut r: Vec<E> = Vec::new();
    for slot in it: slots
        invariant
            all == it.seq(),
            forall|i: int| 0 <= i < all.len() ==> (#[trigger] all[i]) is Some,
            r@.len() == it.index(),
            forall|i: int| 0 <= i < r@.len() ==> Some(#[trigger] r@[i]) == all[i],
    {
        match slot {
            Some(e) => {
                r.push(e);
            },
            None => {},
        }
    }
    r
}

impl<F> UnsafeRecord<F> {
    /// There is a slot for each event that is counted.
    pub open spec fn sized(self, c: Counts) -> bool {
        &&& self.base_alu_events@.len() == c.base_alu_events
        &&& self.ext_alu_events@.len() == c.ext_alu_events
        &&& self.mem_const_count == c.mem_const_events
        &&& self.mem_var_events@.len() == c.mem_var_events
        &&& self.poseidon2_events@.len() == c.poseidon2_wide_events
        &&& self.poseidon2_skinny_events@.len() == c.poseidon2_skinny_events
        &&& self.select_events@.len() == c.select_events
        &&& self.commit_pv_hash_events@.len() == c.commit_pv_hash_events
    }

    /// The first slots hold the events of the state, and the others are empty.
    pub open spec fn records(self, s: State<F>) -> bool {
        &&& filled(self.base_alu_events@, s.base_alu)
        &&& filled(self.ext_alu_events@, s.ext_alu)
        &&& filled_cells(self.mem_var_events@, s.mem_var)
        &&& filled_permutations(self.poseidon2_events@, s.poseidon2)
        &&& filled_permutations(self.poseidon2_skinny_events@, s.poseidon2_skinny)
        &&& filled(self.select_events@, s.select)
        &&& filled_commits(self.commit_pv_hash_events@, s.commits)
    }

    /// No slot has been filled.
    pub open spec fn blank(self) -> bool {
        &&& forall|i: int|
            0 <= i < self.base_alu_events@.len() ==> (#[trigger] self.base_alu_events@[i]) is None
        &&& forall|i: int|
            0 <= i < self.ext_alu_events@.len() ==> (#[trigger] self.ext_alu_events@[i]) is None
        &&& forall|i: int|
            0 <= i < self.mem_var_events@.len() ==> (#[trigger] self.mem_var_events@[i]) is None
        &&& forall|i: int|
            0 <= i < self.poseidon2_events@.len() ==> (#[trigger] self.poseidon2_events@[i]) is None
        &&& forall|i: int|
            0 <= i < self.poseidon2_skinny_events@.len() ==> (
            #[trigger] self.poseidon2_skinny_events@[i]) is None
        &&& forall|i: int|
            0 <= i < self.select_events@.len() ==> (#[trigger] self.select_events@[i]) is None
        &&& forall|i: int|
            0 <= i < self.commit_pv_hash_events@.len() ==> (
            #[trigger] self.commit_pv_hash_events@[i]) is None
    }

    /// An empty slot for each event that is counted.
    pub fn new(event_counts: &RecursionAirEventCount) -> (r: Self)
        ensures
            r.sized(event_counts@),
            r.blank(),
    {
        UnsafeRecord {
            base_alu_events: empty_slots(event_counts.base_alu_events),
            ext_alu_events: empty_slots(event_counts.ext_alu_events),
            mem_const_count: event_counts.mem_const_events,
            mem_var_events: empty_slots(event_counts.mem_var_events),
            poseidon2_events: empty_slots(event_counts.poseidon2_wide_events),
            poseidon2_skinny_events: empty_slots(event_counts.poseidon2_skinny_events),
            select_events: empty_slots(event_counts.select_events),
            commit_pv_hash_events: empty_slots(event_counts.commit_pv_hash_events),
        }
    }

    /// Every slot has been filled.
    pub open spec fn complete(self) -> bool {
        &&& forall|i: int|
            0 <= i < self.base_alu_events@.len() ==> (#[trigger] self.base_alu_events@[i]) is Some
        &&& forall|i: int|
            0 <= i < self.ext_alu_events@.len() ==> (#[trigger] self.ext_alu_events@[i]) is Some
        &&& forall|i: int|
            0 <= i < self.mem_var_events@.len() ==> (#[trigger] self.mem_var_events@[i]) is Some
        &&& forall|i: int|
            0 <= i < self.poseidon2_events@.len() ==> (#[trigger] self.poseidon2_events@[i]) is Some
        &&& forall|i: int|
            0 <= i < self.poseidon2_skinny_events@.len() ==> (
            #[trigger] self.poseidon2_skinny_events@[i]) is Some
        &&& forall|i: int|
            0 <= i < self.select_events@.len() ==> (#[trigger] self.select_events@[i]) is Some
        &&& forall|i: int|
            0 <= i < self.commit_pv_hash_events@.len() ==> (
            #[trigger] self.commit_pv_hash_events@[i]) is Some
    }

    /// The record of the events in the slots and of those that were collected.
    pub fn into_record(self, collected: VecEventCollector<F>) -> (r: ExecutionRecord<F>)
        requires
            self.complete(),
        ensures
            r.index == 0,
            r.mem_const_count == self.mem_const_count,
            forall|s: State<F>| #[trigger]
                self.records(s) && self.sized_by(s) && collected.collects(s) ==> holds_events(r, s),
    {
        let ghost slots = self;
        let public_values = match collected.public_values {
            Some(v) => v,
            None => RecursionPublicValues { elements: Vec::new() },
        };
        let r = ExecutionRecord {
            index: 0,
            base_alu_events: unwrap_slots(self.base_alu_events),
            ext_alu_events: unwrap_slots(self.ext_alu_events),
            mem_const_count: self.mem_const_count,
            mem_var_events: unwrap_slots(self.mem_var_events),
            public_values,
            poseidon2_events: unwrap_slots(self.poseidon2_events),
            poseidon2_skinny_events: unwrap_slots(self.poseidon2_skinny_events),
            select_events: unwrap_slots(self.select_events),
            commit_pv_hash_events: unwrap_slots(self.commit_pv_hash_events),
            poly_eval_events: collected.poly_eval_events,
            ext_exp_reverse_bits_events: collected.ext_exp_reverse_bits_events,
            prefix_sum_checks_events: collected.prefix_sum_checks_events,
        };
        proof {
            assert forall|s: State<F>| #[trigger]
                slots.records(s) && slots.sized_by(s) && collected.collects(s) implies holds_events(
                r,
                s,
            ) by {
                assert(r.base_alu_events@ =~= s.base_alu);
                assert(r.ext_alu_events@ =~= s.ext_alu);
                assert(r.mem_var_events@ =~= Seq::new(
                    s.mem_var.len(),
                    |i: int| MemIo { inner: s.mem_var[i] },
                ));
                assert(Seq::new(r.poseidon2_events@.len(), |i: int| r.poseidon2_events@[i]@)
                    =~= s.poseidon2);
                assert(Seq::new(
                    r.poseidon2_skinny_events@.len(),
                    |i: int| r.poseidon2_skinny_events@[i]@,
                ) =~= s.poseidon2_skinny);
                assert(r.select_events@ =~= s.select);
                assert(Seq::new(
                    r.commit_pv_hash_events@.len(),
                    |i: int| r.commit_pv_hash_events@[i].public_values.elements@,
                ) =~= s.commits);
            }
        }
        r
    }

    /// There is a slot for each event of the state, and no other.
    pub open spec fn sized_by(self, s: State<F>) -> bool {
        &&& self.base_alu_events@.len() == s.base_alu.len()
        &&& self.ext_alu_events@.len() == s.ext_alu.len()
        &&& self.mem_var_events@.len() == s.mem_var.len()
        &&& self.poseidon2_events@.len() == s.poseidon2.len()
        &&& self.poseidon2_skinny_events@.len() == s.poseidon2_skinny.len()
        &&& self.select_events@.len() == s.select.len()
        &&& self.commit_pv_hash_events@.len() == s.commits.len()
    }

    /// Slots that hold as many events as there are slots are all filled.
    pub proof fn lemma_complete(self, s: State<F>)
        requires
            self.records(s),
            self.sized_by(s),
        ensures
            self.complete(),
    {
    }
}

impl<F> ExecutionRecord<F> {
    /// A record without events.
    pub fn empty() -> (r: Self)
        ensures
            r.index == 0,
            r.mem_const_count == 0,
            r.base_alu_events@.len() == 0,
            r.ext_alu_events@.len() == 0,
            r.mem_var_events@.len() == 0,
            r.public_values.elements@.len() == 0,
            r.poseidon2_events@.len() == 0,
            r.poseidon2_skinny_events@.len() == 0,
            r.select_events@.len() == 0,
            r.commit_pv_hash_events@.len() == 0,
            r.poly_eval_events@.len() == 0,
            r.ext_exp_reverse_bits_events@.len() == 0,
            r.prefix_sum_checks_events@.len() == 0,
    {
        ExecutionRecord {
            index: 0,
            base_alu_events: Vec::new(),
            ext_alu_events: Vec::new(),
            mem_const_count: 0,
            mem_var_events: Vec::new(),
            public_values: RecursionPublicValues { elements: Vec::new() },
            poseidon2_events: Vec::new(),
            poseidon2_skinny_events: Vec::new(),
            select_events: Vec::new(),
            commit_pv_hash_events: Vec::new(),
            poly_eval_events: Vec::new(),
            ext_exp_reverse_bits_events: Vec::new(),
            prefix_sum_checks_events: Vec::new(),
        }
    }

    /// Makes room for the events that are counted.
    pub fn preallocate(&mut self, event_counts: &RecursionAirEventCount)
        ensures
            final(self).index == old(self).index,
            final(self).base_alu_events@ == old(self).base_alu_events@,
            final(self).ext_alu_events@ == old(self).ext_alu_events@,
            final(self).mem_const_count == old(self).mem_const_count,
            final(self).mem_var_events@ == old(self).mem_var_events@,
            final(self).public_values == old(self).public_values,
            final(self).poseidon2_events@ == old(self).poseidon2_events@,
            final(self).poseidon2_skinny_events@ == old(self).poseidon2_skinny_events@,
            final(self).select_events@ == old(self).select_events@,
            final(self).commit_pv_hash_events@ == old(self).commit_pv_hash_events@,
            final(self).poly_eval_events@ == old(self).poly_eval_events@,
            final(self).ext_exp_reverse_bits_events@ == old(self).ext_exp_reverse_bits_events@,
            final(self).prefix_sum_checks_events@ == old(self).prefix_sum_checks_events@,
    {
        self.poseidon2_events.reserve(event_counts.poseidon2_wide_events);
        self.poseidon2_skinny_events.reserve(event_counts.poseidon2_skinny_events);
        self.mem_var_events.reserve(event_counts.mem_var_events);
        self.base_alu_events.reserve(event_counts.base_alu_events);
        self.ext_alu_events.reserve(event_counts.ext_alu_events);
        self.select_events.reserve(event_counts.select_events);
        self.poly_eval_events.reserve(event_counts.poly_eval_events);
        self.ext_exp_reverse_bits_events.reserve(event_counts.ext_exp_reverse_bits_events);
        self.prefix_sum_checks_events.reserve(event_counts.prefix_sum_checks_events);
    }

    /// The number of events of each kind, by name.
    pub fn stats(&self) -> (r: Vec<(String, usize)>)
        ensures
            r@.len() == 11,
            r@[0].0@ == "base_alu_events"@ && r@[0].1 == self.base_alu_events@.len(),
            r@[1].0@ == "ext_alu_events"@ && r@[1].1 == self.ext_alu_events@.len(),
            r@[2].0@ == "mem_const_count"@ && r@[2].1 == self.mem_const_count,
            r@[3].0@ == "mem_var_events"@ && r@[3].1 == self.mem_var_events@.len(),
            r@[4].0@ == "poseidon2_events"@ && r@[4].1 == self.poseidon2_events@.len(),
            r@[5].0@ == "poseidon2_skinny_events"@ && r@[5].1
                == self.poseidon2_skinny_events@.len(),
            r@[6].0@ == "select_events"@ && r@[6].1 == self.select_events@.len(),
            r@[7].0@ == "commit_pv_hash_events"@ && r@[7].1 == self.commit_pv_hash_events@.len(),
            r@[8].0@ == "poly_eval_events"@ && r@[8].1 == self.poly_eval_events@.len(),
            r@[9].0@ == "ext_exp_reverse_bits_events"@ && r@[9].1
                == self.ext_exp_reverse_bits_events@.len(),
            r@[10].0@ == "prefix_sum_checks_events"@ && r@[10].1
                == self.prefix_sum_checks_events@.len(),
    {
        vec![
            ("base_alu_events".to_string(), self.base_alu_events.len()),
            ("ext_alu_events".to_string(), self.ext_alu_events.len()),
            ("mem_const_count".to_string(), self.mem_const_count),
            ("mem_var_events".to_string(), self.mem_var_events.len()),
            ("poseidon2_events".to_string(), self.poseidon2_events.len()),
            ("poseidon2_skinny_events".to_string(), self.poseidon2_skinny_events.len()),
            ("select_events".to_string(), self.select_events.len()),
            ("commit_pv_hash_events".to_string(), self.commit_pv_hash_events.len()),
            ("poly_eval_events".to_string(), self.poly_eval_events.len()),
            ("ext_exp_reverse_bits_events".to_string(), self.ext_exp_reverse_bits_events.len()),
            ("prefix_sum_checks_events".to_string(), self.prefix_sum_checks_events.len()),
        ]
    }

    /// Moves the events of another record to the end of this one.
    pub fn append(&mut self, other: &mut Self)
        requires
            old(self).mem_const_count + old(other).mem_const_count <= usize::MAX,
        ensures
            final(self).base_alu_events@ == old(self).base_alu_events@ + old(
                other,
            ).base_alu_events@,
            final(self).ext_alu_events@ == old(self).ext_alu_events@ + old(other).ext_alu_events@,
            final(self).mem_const_count == old(self).mem_const_count + old(other).mem_const_count,
            final(self).mem_var_events@ == old(self).mem_var_events@ + old(other).mem_var_events@,
            final(self).poseidon2_events@ == old(self).poseidon2_events@ + old(
                other,
            ).poseidon2_events@,
            final(self).poseidon2_skinny_events@ == old(self).poseidon2_skinny_events@ + old(
                other,
            ).poseidon2_skinny_events@,
            final(self).select_events@ == old(self).select_events@ + old(other).select_events@,
            final(self).commit_pv_hash_events@ == old(self).commit_pv_hash_events@ + old(
                other,
            ).commit_pv_hash_events@,
            final(self).poly_eval_events@ == old(self).poly_eval_events@ + old(
                other,
            ).poly_eval_events@,
            final(self).ext_exp_reverse_bits_events@ == old(self).ext_exp_reverse_bits_events@
                + old(other).ext_exp_reverse_bits_events@,
            final(self).prefix_sum_checks_events@ == old(self).prefix_sum_checks_events@ + old(
                other,
            ).prefix_sum_checks_events@,
            final(self).index == old(self).index,
            final(self).public_values == old(self).public_values,
            final(other).index == old(other).index,
            final(other).mem_const_count == old(other).mem_const_count,
            final(other).public_values == old(other).public_values,
            final(other).base_alu_events@.len() == 0,
            final(other).ext_alu_events@.len() == 0,
            final(other).mem_var_events@.len() == 0,
            final(other).poseidon2_events@.len() == 0,
            final(other).poseidon2_skinny_events@.len() == 0,
            final(other).select_events@.len() == 0,
            final(other).commit_pv_hash_events@.len() == 0,
            final(other).poly_eval_events@.len() == 0,
            final(other).ext_exp_reverse_bits_events@.len() == 0,
            final(other).prefix_sum_checks_events@.len() == 0,
    {
        self.base_alu_events.append(&mut other.base_alu_events);
        self.ext_alu_events.append(&mut other.ext_alu_events);
        self.mem_const_count = self.mem_const_count + other.mem_const_count;
        self.mem_var_events.append(&mut other.mem_var_events);
        self.poseidon2_events.append(&mut other.poseidon2_events);
        self.poseidon2_skinny_events.append(&mut other.poseidon2_skinny_events);
        self.select_events.append(&mut other.select_events);
        self.commit_pv_hash_events.append(&mut other.commit_pv_hash_events);
        self.poly_eval_events.append(&mut other.poly_eval_events);
        self.ext_exp_reverse_bits_events.append(&mut other.ext_exp_reverse_bits_events);
        self.prefix_sum_checks_events.append(&mut other.prefix_sum_checks_events);
    }
}

impl<F: PrimeField32> ExecutionRecord<F> {
    /// The public values, with zeros up to the given number.
    pub fn public_values(&self, num_pvs: usize) -> (r: Vec<F>)
        ensures
            r@.len() == num_pvs,
            forall|i: int|
                0 <= i < num_pvs ==> #[trigger] r@[i] == (if i < self.public_values.elements@.len() {
                    self.public_values.elements@[i]
                } else {
                    F::zero_elem()
                }),
    {
        let mut r: Vec<F> = Vec::new();
        let mut i: usize = 0;
        while i < num_pvs
            invariant
                i <= num_pvs,
                r@.len() == i,
                forall|j: int|
                    0 <= j < i ==> #[trigger] r@[j] == (if j < self.public_values.elements@.len() {
                        self.public_values.elements@[j]
                    } else {
                        F::zero_elem()
                    }),
            decreases num_pvs - i,
        {
            if i < self.public_values.elements.len() {
                r.push(self.public_values.elements[i]);
            } else {
                r.push(F::zero());
            }
            i += 1;
        }
        r
    }
}

} // verus!
