//! The Poseidon2 permutation of sixteen field elements.
use vstd::prelude::*;
use p3_field::AbstractField;
use p3_field::PrimeField32 as OuterPrimeField32;
use p3_koala_bear::DiffusionMatrixKoalaBear;
use p3_koala_bear::KoalaBear as OuterKoalaBear;
use p3_poseidon2::Poseidon2 as OuterPoseidon2;
use p3_poseidon2::Poseidon2ExternalMatrixGeneral;
use p3_symmetric::Permutation;
use crate::field;
use crate::field::koala_bear::KoalaBear;
use crate::field::{Field, PrimeField32};

verus! {

/// The number of elements that are permuted.
pub const WIDTH: usize = 16;

/// The round constants of the permutation.
#[derive(Debug, Clone)]
pub struct RoundConstants<F> {
    /// One row of sixteen constants for each external round.
    pub external: Vec<Vec<F>>,
    /// One constant for each internal round.
    pub internal: Vec<F>,
}

/// The round constants, mathematically.
#[verifier::ext_equal]
pub struct Rounds<F> {
    pub external: Seq<Seq<F>>,
    pub internal: Seq<F>,
}

impl<F> View for RoundConstants<F> {
    type V = Rounds<F>;

    open spec fn view(&self) -> Rounds<F> {
        Rounds {
            external: Seq::new(self.external@.len(), |i: int| self.external@[i]@),
            internal: self.internal@,
        }
    }
}

impl<F: Field> Rounds<F> {
    /// Every row has one constant for each element, and the constants are canonical.
    pub open spec fn wf(self) -> bool {
        &&& forall|i: int|
            0 <= i < self.external.len() ==> (#[trigger] self.external[i]).len() == WIDTH
                && field::all_valid(self.external[i])
        &&& field::all_valid(self.internal)
    }
}

/// The value where it is canonical.
pub open spec fn canonical<F: Field>(x: F) -> F {
    if x.valid() {
        x
    } else {
        F::zero_elem()
    }
}

/// A field with a permutation of sixteen elements.
pub trait PermutationField: PrimeField32 {
    /// A permutation with its round constants.
    type Permutation: Sized;

    /// The round constants of a permutation.
    spec fn rounds_of(p: Self::Permutation) -> Rounds<Self>;

    /// The permuted state.
    spec fn permuted(rounds: Rounds<Self>, state: Seq<Self>) -> Seq<Self>;

    proof fn law_permuted(rounds: Rounds<Self>, state: Seq<Self>)
        ensures
            Self::permuted(rounds, state).len() == WIDTH,
            field::all_valid(Self::permuted(rounds, state)),
    ;

    fn new_permutation(constants: &RoundConstants<Self>) -> (r: Self::Permutation)
        requires
            constants@.wf(),
        ensures
            Self::rounds_of(r) == constants@,
    ;

    fn copy_permutation(p: &Self::Permutation) -> (r: Self::Permutation)
        ensures
            Self::rounds_of(r) == Self::rounds_of(*p),
    ;

    fn permute(p: &Self::Permutation, state: &Vec<Self>) -> (r: Vec<Self>)
        requires
            state@.len() == WIDTH,
            field::all_valid(state@),
        ensures
            r@ == Self::permuted(Self::rounds_of(*p), state@),
    ;
}

#[verifier::external_type_specification]
#[verifier::external_body]
pub struct ExOuterKoalaBear(OuterKoalaBear);

#[verifier::external_type_specification]
#[verifier::external_body]
pub struct ExDiffusionMatrixKoalaBear(DiffusionMatrixKoalaBear);

#[verifier::external_type_specification]
#[verifier::external_body]
pub struct ExPoseidon2ExternalMatrixGeneral(Poseidon2ExternalMatrixGeneral);

#[verifier::external_type_specification]
#[verifier::external_body]
#[verifier::reject_recursive_types(F)]
#[verifier::reject_recursive_types(MdsLight)]
#[verifier::reject_recursive_types(Diffusion)]
pub struct ExPoseidon2<F, MdsLight, Diffusion, const N: usize, const POWER: u64>(
    OuterPoseidon2<F, MdsLight, Diffusion, N, POWER>,
);

/// The permutation over the KoalaBear field, with the cube as its power map.
pub type KoalaBearPermutation = OuterPoseidon2<
    OuterKoalaBear,
    Poseidon2ExternalMatrixGeneral,
    DiffusionMatrixKoalaBear,
    16,
    3,
>;

/// The round constants that a permutation was made with.
pub uninterp spec fn koala_bear_rounds(p: KoalaBearPermutation) -> Rounds<KoalaBear>;

/// What `permute` of `p3_poseidon2`'s `Poseidon2` returns for a permutation with the given round
/// constants.
pub uninterp spec fn koala_bear_permuted(
    rounds: Rounds<KoalaBear>,
    state: Seq<KoalaBear>,
) -> Seq<KoalaBear>;

/// `p3_poseidon2::Poseidon2::new`: the permutation with the given round constants, as many
/// external rounds as there are rows and as many internal rounds as there are single constants.
#[verifier::external_body]
fn koala_bear_new_permutation(constants: &RoundConstants<KoalaBear>) -> (r: KoalaBearPermutation)
    requires
        constants@.wf(),
    ensures
        koala_bear_rounds(r) == constants@,
{
    let outer = |x: &KoalaBear| OuterKoalaBear::from_canonical_u32(x.as_canonical_u32());
    let rows = constants.external.iter().map(|r| core::array::from_fn(|i| outer(&r[i])));
    let external: Vec<[OuterKoalaBear; 16]> = rows.collect();
    let internal: Vec<OuterKoalaBear> = constants.internal.iter().map(outer).collect();
    let (f, p) = (external.len(), internal.len());
    let light = Poseidon2ExternalMatrixGeneral;
    OuterPoseidon2::new(f, external, light, p, internal, DiffusionMatrixKoalaBear)
}

/// `clone` of `p3_poseidon2`'s `Poseidon2`, derived there: a permutation with the same round
/// constants.
#[verifier::external_body]
fn koala_bear_copy_permutation(p: &KoalaBearPermutation) -> (r: KoalaBearPermutation)
    ensures
        koala_bear_rounds(r) == koala_bear_rounds(*p),
{
    p.clone()
}

/// `permute` of `p3_poseidon2`'s `Poseidon2`. The permutation runs over the round constants and
/// the state alone; its sixteen results are canonical.
#[verifier::external_body]
fn koala_bear_permute(p: &KoalaBearPermutation, state: &Vec<KoalaBear>) -> (r: Vec<KoalaBear>)
    requires
        state@.len() == WIDTH,
        field::all_valid(state@),
    ensures
        r@ == koala_bear_permuted(koala_bear_rounds(*p), state@),
        r@.len() == WIDTH,
        field::all_valid(r@),
{
    let outer = |x: &KoalaBear| OuterKoalaBear::from_canonical_u32(x.as_canonical_u32());
    let input: [OuterKoalaBear; 16] = core::array::from_fn(|i| outer(&state[i]));
    let output = p.permute(input);
    output.iter().map(|x| KoalaBear::from_canonical_u32(x.as_canonical_u32())).collect()
}

impl PermutationField for KoalaBear {
    type Permutation = KoalaBearPermutation;

    open spec fn rounds_of(p: KoalaBearPermutation) -> Rounds<KoalaBear> {
        koala_bear_rounds(p)
    }

    open spec fn permuted(rounds: Rounds<KoalaBear>, state: Seq<KoalaBear>) -> Seq<KoalaBear> {
        Seq::new(WIDTH as nat, |i: int| canonical(koala_bear_permuted(rounds, state)[i]))
    }

    proof fn law_permuted(rounds: Rounds<KoalaBear>, state: Seq<KoalaBear>) {
        KoalaBear::law_constants();
    }

    fn new_permutation(constants: &RoundConstants<KoalaBear>) -> (r: KoalaBearPermutation) {
        koala_bear_new_permutation(constants)
    }

    fn copy_permutation(p: &KoalaBearPermutation) -> (r: KoalaBearPermutation) {
        koala_bear_copy_permutation(p)
    }

    fn permute(p: &KoalaBearPermutation, state: &Vec<KoalaBear>) -> (r: Vec<KoalaBear>) {
        let r: Vec<KoalaBear> = koala_bear_permute(p, state);
        proof {
            assert(r@ =~= Self::permuted(Self::rounds_of(*p), state@));
        }
        r
    }
}

} // verus!
