//! The keys of a machine: what prover and verifier agree on before a proof.
use vstd::prelude::*;
use vstd::string::*;
use vstd::utf8::*;
use crate::basefold::challenger::{DuplexChallenger, Transcript};
use crate::basefold::mmcs::{Matrix, MerkleField};
use crate::field;
use crate::field::algebra;
use crate::field::{Field, PrimeField32};
use crate::recursion::shape::HeightMap;
use crate::stark::septic_digest::SepticDigest;
use crate::stark::septic_curve::Point;
use crate::stark::trace;
use crate::stark::trace::CompressedMatrix;

verus! {

/// The width and the height of a table.
#[derive(Clone, Copy, Debug, PartialEq, Eq)]
pub struct Dimensions {
    pub width: usize,
    pub height: usize,
}

/// What the verifier knows of a machine: the commitment to its preprocessed tables, where its
/// programs start, and its tables.
#[derive(Debug)]
pub struct SCStarkVerifyingKey<F> {
    pub commit: Vec<F>,
    pub pc_start: F,
    pub initial_global_cumulative_sum: SepticDigest<F>,
    pub chip_information: Vec<(String, Dimensions)>,
    pub chip_ordering: HeightMap,
    pub constraints_map: HeightMap,
}

/// What the prover knows of a machine.
#[derive(Debug)]
pub struct SCStarkProvingKey<F> {
    pub commit: Vec<F>,
    pub pc_start: F,
    pub initial_global_cumulative_sum: SepticDigest<F>,
    pub traces: Vec<CompressedMatrix<F>>,
    pub chip_ordering: HeightMap,
    pub local_only: Vec<bool>,
    pub constraints_map: HeightMap,
}

/// A transcript that has observed a key: the commitment, the start of the programs, the two
/// coordinates of the initial sum, and a zero.
pub open spec fn observed_key<F: MerkleField>(
    t: Transcript<F>,
    commit: Seq<F>,
    pc_start: F,
    sum: Point<F>,
) -> Transcript<F> {
    t.observed_all(commit).observed(pc_start).observed_all(sum.x).observed_all(sum.y).observed(
        F::zero_elem(),
    )
}

/// The parts of a key are canonical.
pub open spec fn key_valid<F: Field>(commit: Seq<F>, pc_start: F, sum: Point<F>) -> bool {
    &&& field::all_valid(commit)
    &&& pc_start.valid()
    &&& field::all_valid(sum.x)
    &&& field::all_valid(sum.y)
}

fn observe_parts<F: MerkleField>(
    commit: &Vec<F>,
    pc_start: F,
    sum: &SepticDigest<F>,
    challenger: &mut DuplexChallenger<F>,
)
    requires
        old(challenger)@.wf(),
        key_valid(commit@, pc_start, sum@),
    ensures
        final(challenger)@ == observed_key(old(challenger)@, commit@, pc_start, sum@),
        final(challenger)@.wf(),
{
    broadcast use algebra::group_valid;

    challenger.observe_slice(commit.as_slice());
    challenger.observe(pc_start);
    challenger.observe_slice(&sum.0.x.0);
    challenger.observe_slice(&sum.0.y.0);
    proof {
        F::law_constants();
    }
    challenger.observe(F::zero());
}

impl<F: MerkleField> SCStarkVerifyingKey<F> {
    /// Binds the transcript to the key.
    pub fn observe_into(&self, challenger: &mut DuplexChallenger<F>)
        requires
            old(challenger)@.wf(),
            key_valid(self.commit@, self.pc_start, self.initial_global_cumulative_sum@),
        ensures
            final(challenger)@ == observed_key(
                old(challenger)@,
                self.commit@,
                self.pc_start,
                self.initial_global_cumulative_sum@,
            ),
            final(challenger)@.wf(),
    {
        observe_parts(
            &self.commit,
            self.pc_start,
            &self.initial_global_cumulative_sum,
            challenger,
        );
    }
}

/// What a table adds to the inputs of the key's hash: its width, its height, and the length and the
/// bytes of its name.
pub open spec fn chip_inputs<F: Field>(name: Seq<char>, dims: Dimensions) -> Seq<F> {
    let bytes = encode_utf8(name);
    seq![
        F::from_int(dims.width as int),
        F::from_int(dims.height as int),
        F::from_int(bytes.len() as int),
    ] + Seq::new(bytes.len(), |i: int| F::from_int(bytes[i] as int))
}

/// What the first tables add to the inputs of the key's hash.
pub open spec fn chips_inputs<F: Field>(chips: Seq<(String, Dimensions)>, n: nat) -> Seq<F>
    decreases n,
{
    if n == 0 {
        seq![]
    } else {
        chips_inputs::<F>(chips, (n - 1) as nat) + chip_inputs::<F>(
            chips[n - 1].0@,
            chips[n - 1].1,
        )
    }
}

/// The inputs of a key's hash: the commitment, the start of the programs, the coordinates of the
/// initial sum, and the tables.
pub open spec fn key_inputs<F: Field>(key: SCStarkVerifyingKey<F>) -> Seq<F> {
    key.commit@.push(key.pc_start) + key.initial_global_cumulative_sum@.x
        + key.initial_global_cumulative_sum@.y + chips_inputs::<F>(
        key.chip_information@,
        key.chip_information@.len(),
    )
}

/// The sizes of the tables and of their names are residues.
pub open spec fn chips_hashable<F: Field>(chips: Seq<(String, Dimensions)>) -> bool {
    forall|i: int|
        0 <= i < chips.len() ==> {
            &&& (#[trigger] chips[i]).1.width < F::characteristic()
            &&& chips[i].1.height < F::characteristic()
            &&& encode_utf8(chips[i].0@).len() < F::characteristic()
        }
}

fn push_chip<F: PrimeField32>(inputs: &mut Vec<F>, name: &String, dims: Dimensions)
    requires
        dims.width < F::characteristic(),
        dims.height < F::characteristic(),
        encode_utf8(name@).len() < F::characteristic(),
        256 < F::characteristic(),
    ensures
        final(inputs)@ == old(inputs)@ + chip_inputs::<F>(name@, dims),
{
    proof {
        F::law_residues(F::zero_elem(), F::zero_elem());
    }
    let bytes = name.as_str().as_bytes();
    let n: usize = bytes.len();
    inputs.push(F::from_canonical_u32(dims.width as u32));
    inputs.push(F::from_canonical_u32(dims.height as u32));
    inputs.push(F::from_canonical_u32(n as u32));
    let ghost head = inputs@;
    let mut i: usize = 0;
    while i < n
        invariant
            i <= n,
            n == bytes@.len(),
            256 < F::characteristic(),
            inputs@ == head + Seq::new(i as nat, |j: int| F::from_int(bytes@[j] as int)),
        decreases n - i,
    {
        inputs.push(F::from_canonical_u32(bytes[i] as u32));
        i += 1;
        assert(inputs@ =~= head + Seq::new(i as nat, |j: int| F::from_int(bytes@[j] as int)));
    }
    assert(inputs@ =~= old(inputs)@ + chip_inputs::<F>(name@, dims));
}

impl<F: PrimeField32> SCStarkVerifyingKey<F> {
    /// The field elements that the key's hash is taken of.
    pub fn hash_inputs(&self) -> (r: Vec<F>)
        requires
            256 < F::characteristic(),
            chips_hashable::<F>(self.chip_information@),
        ensures
            r@ == key_inputs(*self),
    {
        let mut r: Vec<F> = Vec::new();
        trace::append_copies(&mut r, self.commit.as_slice());
        r.push(self.pc_start);
        trace::append_copies(&mut r, &self.initial_global_cumulative_sum.0.x.0);
        trace::append_copies(&mut r, &self.initial_global_cumulative_sum.0.y.0);
        let ghost head = r@;
        let n: usize = self.chip_information.len();
        let mut i: usize = 0;
        while i < n
            invariant
                i <= n,
                n == self.chip_information@.len(),
                256 < F::characteristic(),
                chips_hashable::<F>(self.chip_information@),
                r@ == head + chips_inputs::<F>(self.chip_information@, i as nat),
            decreases n - i,
        {
            let chip = &self.chip_information[i];
            push_chip(&mut r, &chip.0, chip.1);
            i += 1;
            assert(r@ =~= head + chips_inputs::<F>(self.chip_information@, i as nat));
        }
        assert(r@ =~= key_inputs(*self));
        r
    }
}

/// The numbers that the elements of a digest stand for.
pub fn digest_residues<F: PrimeField32>(digest: &Vec<F>) -> (r: Vec<u32>)
    ensures
        r@.len() == digest@.len(),
        forall|i: int| 0 <= i < r@.len() ==> #[trigger] r@[i] == digest@[i].to_int(),
{
    let n: usize = digest.len();
    let mut r: Vec<u32> = Vec::new();
    let mut i: usize = 0;
    while i < n
        invariant
            i <= n,
            n == digest@.len(),
            r@.len() == i,
            forall|j: int| 0 <= j < i ==> #[trigger] r@[j] == digest@[j].to_int(),
        decreases n - i,
    {
        r.push(digest[i].as_canonical_u32());
        i += 1;
    }
    r
}

/// The key's preprocessed tables, in the order of the tables' names.
pub open spec fn traces_exist<F>(key: SCStarkProvingKey<F>, names: Seq<String>) -> bool {
    forall|i: int|
        0 <= i < names.len() && key.chip_ordering@.dom().contains((#[trigger] names[i])@)
            ==> key.chip_ordering@[names[i]@] < key.traces@.len()
}

/// The table of a name, where the name has one.
pub open spec fn trace_of<F>(key: SCStarkProvingKey<F>, name: Seq<char>) -> Option<
    CompressedMatrix<F>,
> {
    if key.chip_ordering@.dom().contains(name) {
        Some(key.traces@[key.chip_ordering@[name] as int])
    } else {
        None
    }
}

impl<F: MerkleField> SCStarkProvingKey<F> {
    /// Binds the transcript to the key.
    pub fn observe_into(&self, challenger: &mut DuplexChallenger<F>)
        requires
            old(challenger)@.wf(),
            key_valid(self.commit@, self.pc_start, self.initial_global_cumulative_sum@),
        ensures
            final(challenger)@ == observed_key(
                old(challenger)@,
                self.commit@,
                self.pc_start,
                self.initial_global_cumulative_sum@,
            ),
            final(challenger)@.wf(),
    {
        observe_parts(
            &self.commit,
            self.pc_start,
            &self.initial_global_cumulative_sum,
            challenger,
        );
    }

    /// A preprocessed table with its padding written out.
    pub fn get_preprocessed_trace(&self, index: usize) -> (r: Matrix<F>)
        requires
            index < self.traces@.len(),
            trace::complete(self.traces@[index as int]),
        ensures
            r.width == self.traces@[index as int].width,
            r.values@ == trace::decompressed(self.traces@[index as int]),
    {
        self.traces[index].decompress()
    }

    /// The preprocessed tables of the given names, where they have one.
    pub fn get_preprocessed_compressed_for_chips(&self, chip_names: &Vec<String>) -> (r: Vec<
        Option<&CompressedMatrix<F>>,
    >)
        requires
            traces_exist(*self, chip_names@),
        ensures
            r@.len() == chip_names@.len(),
            forall|i: int|
                0 <= i < r@.len() ==> (match #[trigger] r@[i] {
                    Some(m) => Some(*m),
                    None => None,
                }) == trace_of(*self, chip_names@[i]@),
    {
        let n: usize = chip_names.len();
        let mut r: Vec<Option<&CompressedMatrix<F>>> = Vec::new();
        let mut i: usize = 0;
        while i < n
            invariant
                i <= n,
                n == chip_names@.len(),
                traces_exist(*self, chip_names@),
                r@.len() == i,
                forall|j: int|
                    0 <= j < r@.len() ==> (match #[trigger] r@[j] {
                        Some(m) => Some(*m),
                        None => None,
                    }) == trace_of(*self, chip_names@[j]@),
            decreases n - i,
        {
            let name = &chip_names[i];
            assert(chip_names@[i as int] == *name);
            match self.chip_ordering.get(name) {
                Some(index) => {
                    r.push(Some(&self.traces[index]));
                },
                None => {
                    r.push(None);
                },
            }
            i += 1;
        }
        r
    }

    /// Copies of the preprocessed tables of the given names, where they have one.
    pub fn get_preprocessed_traces_for_open(&self, chip_names: &Vec<String>) -> (r: Vec<
        Option<CompressedMatrix<F>>,
    >)
        requires
            traces_exist(*self, chip_names@),
        ensures
            r@.len() == chip_names@.len(),
            forall|i: int|
                0 <= i < r@.len() ==> match (#[trigger] r@[i], trace_of(*self, chip_names@[i]@)) {
                    (Some(copy), Some(m)) => trace::same_table(copy, m),
                    (None, None) => true,
                    _ => false,
                },
    {
        let found = self.get_preprocessed_compressed_for_chips(chip_names);
        let n: usize = found.len();
        let mut r: Vec<Option<CompressedMatrix<F>>> = Vec::new();
        let mut i: usize = 0;
        while i < n
            invariant
                i <= n,
                n == found@.len(),
                n == chip_names@.len(),
                forall|j: int|
                    0 <= j < found@.len() ==> (match #[trigger] found@[j] {
                        Some(m) => Some(*m),
                        None => None,
                    }) == trace_of(*self, chip_names@[j]@),
                r@.len() == i,
                forall|j: int|
                    0 <= j < r@.len() ==> match (
                        #[trigger] r@[j],
                        trace_of(*self, chip_names@[j]@),
                    ) {
                        (Some(copy), Some(m)) => trace::same_table(copy, m),
                        (None, None) => true,
                        _ => false,
                    },
            decreases n - i,
        {
            match found[i] {
                Some(m) => {
                    r.push(Some(m.duplicate()));
                },
                None => {
                    r.push(None);
                },
            }
            i += 1;
        }
        r
    }
}

/// What a prover's key tells of a machine.
pub trait SCMachineProvingKey<F: MerkleField> {
    /// The commitment to the preprocessed tables.
    spec fn commitment(&self) -> Seq<F>;

    /// Where the programs start.
    spec fn start(&self) -> F;

    /// The sum that the global sums start from.
    spec fn initial_sum(&self) -> Point<F>;

    fn preprocessed_commit(&self) -> (r: Vec<F>)
        ensures
            r@ == self.commitment(),
    ;

    fn pc_start(&self) -> (r: F)
        ensures
            r == self.start(),
    ;

    fn initial_global_cumulative_sum(&self) -> (r: SepticDigest<F>)
        ensures
            r@ == self.initial_sum(),
    ;
}

impl<F: MerkleField> SCMachineProvingKey<F> for SCStarkProvingKey<F> {
    open spec fn commitment(&self) -> Seq<F> {
        self.commit@
    }

    open spec fn start(&self) -> F {
        self.pc_start
    }

    open spec fn initial_sum(&self) -> Point<F> {
        self.initial_global_cumulative_sum@
    }

    fn preprocessed_commit(&self) -> (r: Vec<F>) {
        crate::basefold::challenger::copy_elements(&self.commit)
    }

    fn pc_start(&self) -> (r: F) {
        self.pc_start
    }

    fn initial_global_cumulative_sum(&self) -> (r: SepticDigest<F>) {
        self.initial_global_cumulative_sum
    }
}

} // verus!
