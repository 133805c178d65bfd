//! The Fiat-Shamir transcript: a duplex sponge over the Poseidon2 permutation.
use vstd::prelude::*;
use vstd::arithmetic::power2::*;
use p3_challenger::CanObserve;
use p3_challenger::CanSample;
use p3_challenger::DuplexChallenger as OuterChallenger;
use p3_field::AbstractField;
use p3_field::PrimeField32 as OuterPrimeField32;
use p3_koala_bear::KoalaBear as OuterKoalaBear;
use crate::basefold::poseidon;
use crate::basefold::poseidon::{KoalaBearPermutation, PermutationField, RoundConstants, Rounds, WIDTH};
use crate::bits;
use crate::field;
use crate::field::koala_bear::KoalaBear;
use crate::field::{ExtensionField, Field, PrimeField32};

verus! {

/// The number of elements that are absorbed by one permutation.
pub const RATE: usize = 8;

/// The state of a transcript.
#[verifier::ext_equal]
pub struct Transcript<F> {
    pub rounds: Rounds<F>,
    /// The state of the sponge.
    pub sponge: Seq<F>,
    /// What was observed since the last permutation.
    pub input: Seq<F>,
    /// What can still be sampled, the next element last.
    pub output: Seq<F>,
}

impl<F: PermutationField> Transcript<F> {
    pub open spec fn wf(self) -> bool {
        &&& self.sponge.len() == WIDTH
        &&& self.input.len() < RATE
        &&& field::all_valid(self.sponge)
        &&& field::all_valid(self.input)
        &&& field::all_valid(self.output)
    }

    /// The transcript before anything was observed.
    pub open spec fn initial(rounds: Rounds<F>) -> Self {
        Transcript {
            rounds,
            sponge: Seq::new(WIDTH as nat, |i: int| F::zero_elem()),
            input: Seq::empty(),
            output: Seq::empty(),
        }
    }

    /// The inputs overwrite the front of the sponge, the sponge is permuted, and all of it can be
    /// sampled.
    pub open spec fn duplexed(self) -> Self {
        let sponge = F::permuted(
            self.rounds,
            Seq::new(
                WIDTH as nat,
                |i: int|
                    if i < self.input.len() {
                        self.input[i]
                    } else {
                        self.sponge[i]
                    },
            ),
        );
        Transcript { rounds: self.rounds, sponge, input: Seq::empty(), output: sponge }
    }

    /// The transcript after an element was observed.
    pub open spec fn observed(self, value: F) -> Self {
        let t = Transcript { input: self.input.push(value), output: Seq::empty(), ..self };
        if t.input.len() == RATE {
            t.duplexed()
        } else {
            t
        }
    }

    /// The transcript after each element was observed in turn.
    pub open spec fn observed_all(self, values: Seq<F>) -> Self
        decreases values.len(),
    {
        if values.len() == 0 {
            self
        } else {
            self.observed_all(values.drop_last()).observed(values.last())
        }
    }

    /// The transcript with something to sample that reflects all that was observed.
    pub open spec fn ready(self) -> Self {
        if self.input.len() > 0 || self.output.len() == 0 {
            self.duplexed()
        } else {
            self
        }
    }

    /// The element that is sampled next.
    pub open spec fn next(self) -> F {
        self.ready().output.last()
    }

    /// The transcript after an element was sampled.
    pub open spec fn sampled(self) -> Self {
        Transcript { output: self.ready().output.drop_last(), ..self.ready() }
    }

    /// The transcript after `n` elements were sampled.
    pub open spec fn sampled_n(self, n: nat) -> Self
        decreases n,
    {
        if n == 0 {
            self
        } else {
            self.sampled_n((n - 1) as nat).sampled()
        }
    }

    /// The extension element that is sampled next.
    pub open spec fn next_ext<EF: ExtensionField<F>>(self) -> EF {
        EF::from_coeffs(Seq::new(EF::degree(), |i: int| self.sampled_n(i as nat).next()))
    }

    /// The transcript after an extension element was sampled.
    pub open spec fn sampled_ext<EF: ExtensionField<F>>(self) -> Self {
        self.sampled_n(EF::degree())
    }

    /// The transcript after an extension element was observed.
    pub open spec fn observed_ext<EF: ExtensionField<F>>(self, value: EF) -> Self {
        self.observed_all(value.base_coeffs())
    }

    /// The transcript after each extension element was observed in turn.
    pub open spec fn observed_exts<EF: ExtensionField<F>>(self, values: Seq<EF>) -> Self
        decreases values.len(),
    {
        if values.len() == 0 {
            self
        } else {
            self.observed_exts(values.drop_last()).observed_ext(values.last())
        }
    }

    /// The integer of the given number of bits that is sampled next.
    pub open spec fn next_bits(self, bits: nat) -> nat {
        (self.next().to_int() % pow2(bits) as int) as nat
    }

    /// The integers of the given number of bits that are sampled next.
    pub open spec fn next_bits_n(self, bits: nat, n: nat) -> Seq<usize> {
        Seq::new(n, |i: int| self.sampled_n(i as nat).next_bits(bits) as usize)
    }

    /// The proof of work `witness` is one for the transcript.
    pub open spec fn accepts_witness(self, bits: nat, witness: F) -> bool {
        self.observed(witness).next_bits(bits) == 0
    }

    /// The transcript after a proof of work was checked.
    pub open spec fn checked_witness(self, witness: F) -> Self {
        self.observed(witness).sampled()
    }
}

pub proof fn lemma_duplexed_wf<F: PermutationField>(t: Transcript<F>)
    requires
        t.sponge.len() == WIDTH,
    ensures
        t.duplexed().wf(),
        t.duplexed().output.len() == WIDTH,
{
    F::law_permuted(t.rounds, t.sponge);
    let s = Seq::new(
        WIDTH as nat,
        |i: int|
            if i < t.input.len() {
                t.input[i]
            } else {
                t.sponge[i]
            },
    );
    F::law_permuted(t.rounds, s);
}

pub proof fn lemma_observed_wf<F: PermutationField>(t: Transcript<F>, value: F)
    requires
        t.wf(),
        value.valid(),
    ensures
        t.observed(value).wf(),
        t.observed(value).rounds == t.rounds,
{
    lemma_duplexed_wf(Transcript { input: t.input.push(value), output: Seq::empty(), ..t });
}

pub proof fn lemma_sampled_wf<F: PermutationField>(t: Transcript<F>)
    requires
        t.wf(),
    ensures
        t.sampled().wf(),
        t.next().valid(),
        t.sampled().rounds == t.rounds,
{
    lemma_duplexed_wf(t);
}

pub proof fn lemma_observed_all_wf<F: PermutationField>(t: Transcript<F>, values: Seq<F>)
    requires
        t.wf(),
        field::all_valid(values),
    ensures
        t.observed_all(values).wf(),
        t.observed_all(values).rounds == t.rounds,
    decreases values.len(),
{
    if values.len() > 0 {
        lemma_observed_all_wf(t, values.drop_last());
        lemma_observed_wf(t.observed_all(values.drop_last()), values.last());
    }
}

pub proof fn lemma_sampled_n_wf<F: PermutationField>(t: Transcript<F>, n: nat)
    requires
        t.wf(),
    ensures
        t.sampled_n(n).wf(),
        t.sampled_n(n).rounds == t.rounds,
        t.sampled_n(n).next().valid(),
    decreases n,
{
    if n > 0 {
        lemma_sampled_n_wf(t, (n - 1) as nat);
        lemma_sampled_wf(t.sampled_n((n - 1) as nat));
    }
    lemma_sampled_wf(t.sampled_n(n));
}

pub proof fn lemma_observed_ext_wf<F: PermutationField, EF: ExtensionField<F>>(
    t: Transcript<F>,
    value: EF,
)
    requires
        t.wf(),
        value.valid(),
    ensures
        t.observed_ext(value).wf(),
        t.observed_ext(value).rounds == t.rounds,
{
    F::law_constants();
    EF::law_embed(value, value, F::one_elem(), F::one_elem());
    lemma_observed_all_wf(t, value.base_coeffs());
}

pub proof fn lemma_observed_exts_wf<F: PermutationField, EF: ExtensionField<F>>(
    t: Transcript<F>,
    values: Seq<EF>,
)
    requires
        t.wf(),
        field::all_valid(values),
    ensures
        t.observed_exts(values).wf(),
        t.observed_exts(values).rounds == t.rounds,
    decreases values.len(),
{
    if values.len() > 0 {
        lemma_observed_exts_wf::<F, EF>(t, values.drop_last());
        lemma_observed_ext_wf::<F, EF>(t.observed_exts(values.drop_last()), values.last());
    }
}

pub proof fn lemma_sampled_ext_wf<F: PermutationField, EF: ExtensionField<F>>(t: Transcript<F>)
    requires
        t.wf(),
    ensures
        t.sampled_ext::<EF>().wf(),
        t.sampled_ext::<EF>().rounds == t.rounds,
        t.next_ext::<EF>().valid(),
{
    lemma_sampled_n_wf(t, EF::degree());
    let s = Seq::new(EF::degree(), |i: int| t.sampled_n(i as nat).next());
    assert forall|i: int| 0 <= i < s.len() implies (#[trigger] s[i]).valid() by {
        lemma_sampled_n_wf(t, i as nat);
    }
    EF::law_from_coeffs_valid(s);
}

/// The state of a duplex sponge and its buffers.
#[derive(Debug, Clone)]
pub struct Buffers<F> {
    pub sponge: Vec<F>,
    pub input: Vec<F>,
    pub output: Vec<F>,
}

impl<F> Buffers<F> {
    /// The transcript of a sponge over the permutation with the given round constants.
    pub open spec fn transcript(self, rounds: Rounds<F>) -> Transcript<F> {
        Transcript { rounds, sponge: self.sponge@, input: self.input@, output: self.output@ }
    }
}

/// A field with a duplex sponge over its permutation.
pub trait SpongeField: PermutationField {
    /// The sponge after an element was observed.
    fn absorb(p: Self::Permutation, b: &Buffers<Self>, value: Self) -> (r: Buffers<Self>)
        requires
            b.transcript(Self::rounds_of(p)).wf(),
            value.valid(),
        ensures
            r.transcript(Self::rounds_of(p)) == b.transcript(Self::rounds_of(p)).observed(value),
    ;

    /// The element that is sampled next, and the sponge then.
    fn squeeze(p: Self::Permutation, b: &Buffers<Self>) -> (r: (Self, Buffers<Self>))
        requires
            b.transcript(Self::rounds_of(p)).wf(),
        ensures
            r.0 == b.transcript(Self::rounds_of(p)).next(),
            r.1.transcript(Self::rounds_of(p)) == b.transcript(Self::rounds_of(p)).sampled(),
    ;
}

type KoalaBearSponge = OuterChallenger<OuterKoalaBear, KoalaBearPermutation, 16, 8>;

/// `observe` of `p3_challenger`'s `DuplexChallenger` for one element: it drops the buffered outputs
/// and buffers the element; eight buffered elements overwrite the front of the state, which is
/// permuted, and all of which can then be sampled.
#[verifier::external_body]
fn koala_bear_observe(
    p: KoalaBearPermutation,
    b: &Buffers<KoalaBear>,
    value: KoalaBear,
) -> (r: Buffers<KoalaBear>)
    requires
        b.transcript(poseidon::koala_bear_rounds(p)).wf(),
        value.valid(),
    ensures
        r.transcript(poseidon::koala_bear_rounds(p)) == b.transcript(
            poseidon::koala_bear_rounds(p),
        ).observed(value),
{
    let outer = |x: &KoalaBear| OuterKoalaBear::from_canonical_u32(x.as_canonical_u32());
    let inner = |x: &OuterKoalaBear| KoalaBear::from_canonical_u32(x.as_canonical_u32());
    let mut c = KoalaBearSponge {
        sponge_state: core::array::from_fn(|i| outer(&b.sponge[i])),
        input_buffer: b.input.iter().map(outer).collect(),
        output_buffer: b.output.iter().map(outer).collect(),
        permutation: p,
    };
    c.observe(outer(&value));
    let sponge = c.sponge_state.iter().map(inner).collect();
    let input = c.input_buffer.iter().map(inner).collect();
    let output = c.output_buffer.iter().map(inner).collect();
    Buffers { sponge, input, output }
}

/// `sample` of `p3_challenger`'s `DuplexChallenger` for one element: where inputs are buffered or no
/// output is, the state takes in the inputs and is permuted, and all of it can be sampled; the last
/// buffered output is taken.
#[verifier::external_body]
fn koala_bear_sample(
    p: KoalaBearPermutation,
    b: &Buffers<KoalaBear>,
) -> (r: (KoalaBear, Buffers<KoalaBear>))
    requires
        b.transcript(poseidon::koala_bear_rounds(p)).wf(),
    ensures
        r.0 == b.transcript(poseidon::koala_bear_rounds(p)).next(),
        r.1.transcript(poseidon::koala_bear_rounds(p)) == b.transcript(
            poseidon::koala_bear_rounds(p),
        ).sampled(),
{
    let outer = |x: &KoalaBear| OuterKoalaBear::from_canonical_u32(x.as_canonical_u32());
    let inner = |x: &OuterKoalaBear| KoalaBear::from_canonical_u32(x.as_canonical_u32());
    let mut c = KoalaBearSponge {
        sponge_state: core::array::from_fn(|i| outer(&b.sponge[i])),
        input_buffer: b.input.iter().map(outer).collect(),
        output_buffer: b.output.iter().map(outer).collect(),
        permutation: p,
    };
    let x = c.sample();
    let sponge = c.sponge_state.iter().map(inner).collect();
    let input = c.input_buffer.iter().map(inner).collect();
    let output = c.output_buffer.iter().map(inner).collect();
    (inner(&x), Buffers { sponge, input, output })
}

impl SpongeField for KoalaBear {
    fn absorb(p: KoalaBearPermutation, b: &Buffers<KoalaBear>, value: KoalaBear) -> (r: Buffers<
        KoalaBear,
    >) {
        koala_bear_observe(p, b, value)
    }

    fn squeeze(p: KoalaBearPermutation, b: &Buffers<KoalaBear>) -> (r: (
        KoalaBear,
        Buffers<KoalaBear>,
    )) {
        koala_bear_sample(p, b)
    }
}

/// A transcript over the Poseidon2 permutation.
pub struct DuplexChallenger<F: SpongeField> {
    pub permutation: F::Permutation,
    pub buffers: Buffers<F>,
}

impl<F: SpongeField> View for DuplexChallenger<F> {
    type V = Transcript<F>;

    open spec fn view(&self) -> Transcript<F> {
        self.buffers.transcript(F::rounds_of(self.permutation))
    }
}

impl<F: SpongeField> DuplexChallenger<F> {
    /// The transcript before anything was observed.
    pub fn new(constants: &RoundConstants<F>) -> (r: Self)
        requires
            constants@.wf(),
        ensures
            r@ == Transcript::<F>::initial(constants@),
            r@.wf(),
    {
        let mut sponge: Vec<F> = Vec::new();
        let mut i: usize = 0;
        while i < WIDTH
            invariant
                i <= WIDTH,
                sponge@.len() == i,
                forall|j: int| 0 <= j < i ==> sponge@[j] == F::zero_elem(),
            decreases WIDTH - i,
        {
            sponge.push(F::zero());
            i += 1;
        }
        proof {
            F::law_constants();
        }
        let r = DuplexChallenger {
            permutation: F::new_permutation(constants),
            buffers: Buffers { sponge, input: Vec::new(), output: Vec::new() },
        };
        proof {
            assert(r@ =~= Transcript::<F>::initial(constants@));
        }
        r
    }

    /// A second transcript in the same state.
    pub fn duplicate(&self) -> (r: Self)
        ensures
            r@ == self@,
    {
        DuplexChallenger {
            permutation: F::copy_permutation(&self.permutation),
            buffers: Buffers {
                sponge: copy_elements(&self.buffers.sponge),
                input: copy_elements(&self.buffers.input),
                output: copy_elements(&self.buffers.output),
            },
        }
    }

    /// Observes an element.
    pub fn observe(&mut self, value: F)
        requires
            old(self)@.wf(),
            value.valid(),
        ensures
            final(self)@ == old(self)@.observed(value),
            final(self)@.wf(),
    {
        proof {
            lemma_observed_wf(self@, value);
        }
        let p = F::copy_permutation(&self.permutation);
        self.buffers = F::absorb(p, &self.buffers, value);
    }

    /// Samples an element.
    pub fn sample(&mut self) -> (r: F)
        requires
            old(self)@.wf(),
        ensures
            r == old(self)@.next(),
            r.valid(),
            final(self)@ == old(self)@.sampled(),
            final(self)@.wf(),
    {
        proof {
            lemma_sampled_wf(self@);
        }
        let p = F::copy_permutation(&self.permutation);
        let (x, buffers) = F::squeeze(p, &self.buffers);
        self.buffers = buffers;
        x
    }

    /// Observes each element of a slice in turn.
    pub fn observe_slice(&mut self, values: &[F])
        requires
            old(self)@.wf(),
            field::all_valid(values@),
        ensures
            final(self)@ == old(self)@.observed_all(values@),
            final(self)@.wf(),
    {
        let ghost before = self@;
        let mut i: usize = 0;
        proof {
            assert(values@.take(0) =~= Seq::empty());
        }
        while i < values.len()
            invariant
                i <= values@.len(),
                self@.wf(),
                field::all_valid(values@),
                self@ == before.observed_all(values@.take(i as int)),
            decreases values@.len() - i,
        {
            proof {
                assert(values@.take(i + 1).drop_last() =~= values@.take(i as int));
            }
            self.observe(values[i]);
            i += 1;
        }
        proof {
            assert(values@.take(i as int) =~= values@);
        }
    }

    /// Observes an extension element, coordinate by coordinate.
    pub fn observe_ext_element<EF: ExtensionField<F>>(&mut self, value: EF)
        requires
            old(self)@.wf(),
            value.valid(),
        ensures
            final(self)@ == old(self)@.observed_ext(value),
            final(self)@.wf(),
    {
        proof {
            F::law_constants();
            EF::law_embed(value, value, F::one_elem(), F::one_elem());
        }
        let coeffs: Vec<F> = value.as_base_slice();
        self.observe_slice(coeffs.as_slice());
    }

    /// Observes each extension element in turn.
    pub fn observe_ext_elements<EF: ExtensionField<F>>(&mut self, values: &Vec<EF>)
        requires
            old(self)@.wf(),
            field::all_valid(values@),
        ensures
            final(self)@ == old(self)@.observed_exts(values@),
            final(self)@.wf(),
    {
        let ghost before = self@;
        let mut i: usize = 0;
        proof {
            assert(values@.take(0) =~= Seq::empty());
        }
        while i < values.len()
            invariant
                i <= values@.len(),
                self@.wf(),
                field::all_valid(values@),
                self@ == before.observed_exts(values@.take(i as int)),
            decreases values@.len() - i,
        {
            proof {
                assert(values@.take(i + 1).drop_last() =~= values@.take(i as int));
            }
            self.observe_ext_element(values[i]);
            i += 1;
        }
        proof {
            assert(values@.take(i as int) =~= values@);
        }
    }

    /// Samples an extension element, coordinate by coordinate.
    pub fn sample_ext_element<EF: ExtensionField<F>>(&mut self) -> (r: EF)
        requires
            old(self)@.wf(),
        ensures
            r == old(self)@.next_ext::<EF>(),
            r.valid(),
            final(self)@ == old(self)@.sampled_ext::<EF>(),
            final(self)@.wf(),
    {
        let ghost before = self@;
        let d: usize = EF::extension_degree();
        let mut coeffs: Vec<F> = Vec::new();
        let mut i: usize = 0;
        while i < d
            invariant
                i <= d,
                coeffs@.len() == i,
                self@.wf(),
                self@ == before.sampled_n(i as nat),
                forall|j: int| 0 <= j < i ==> coeffs@[j] == before.sampled_n(j as nat).next(),
            decreases d - i,
        {
            let c: F = self.sample();
            coeffs.push(c);
            i += 1;
        }
        proof {
            lemma_sampled_ext_wf::<F, EF>(before);
            assert(coeffs@ =~= Seq::new(
                EF::degree(),
                |i: int| before.sampled_n(i as nat).next(),
            ));
        }
        EF::from_base_slice(coeffs.as_slice())
    }

    /// Samples an integer of the given number of bits.
    pub fn sample_bits(&mut self, bits: usize) -> (r: usize)
        requires
            old(self)@.wf(),
            bits < usize::BITS,
            pow2(bits as nat) < F::characteristic(),
        ensures
            r == old(self)@.next_bits(bits as nat),
            r < pow2(bits as nat),
            final(self)@ == old(self)@.sampled(),
            final(self)@.wf(),
    {
        let x: F = self.sample();
        let m: usize = bits::two_to_the(bits);
        proof {
            lemma_pow2_pos(bits as nat);
            vstd::arithmetic::div_mod::lemma_mod_bound(x.to_int(), m as int);
        }
        x.as_canonical_u32() as usize % m
    }

    /// Samples that many integers of the given number of bits.
    pub fn sample_bits_vec(&mut self, bits: usize, n: usize) -> (r: Vec<usize>)
        requires
            old(self)@.wf(),
            bits < usize::BITS,
            pow2(bits as nat) < F::characteristic(),
        ensures
            r@ == old(self)@.next_bits_n(bits as nat, n as nat),
            forall|i: int| 0 <= i < r@.len() ==> (#[trigger] r@[i]) < pow2(bits as nat),
            final(self)@ == old(self)@.sampled_n(n as nat),
            final(self)@.wf(),
    {
        let ghost before = self@;
        let mut r: Vec<usize> = Vec::new();
        let mut i: usize = 0;
        while i < n
            invariant
                i <= n,
                r@.len() == i,
                bits < usize::BITS,
                pow2(bits as nat) < F::characteristic(),
                self@.wf(),
                self@ == before.sampled_n(i as nat),
                forall|j: int|
                    0 <= j < i ==> #[trigger] r@[j] == before.sampled_n(j as nat).next_bits(
                        bits as nat,
                    ) && r@[j] < pow2(bits as nat),
            decreases n - i,
        {
            let x: usize = self.sample_bits(bits);
            r.push(x);
            i += 1;
        }
        proof {
            assert(r@ =~= before.next_bits_n(bits as nat, n as nat));
        }
        r
    }

    /// Checks a proof of work.
    pub fn check_witness(&mut self, bits: usize, witness: F) -> (r: bool)
        requires
            old(self)@.wf(),
            witness.valid(),
            bits < usize::BITS,
            pow2(bits as nat) < F::characteristic(),
        ensures
            r == old(self)@.accepts_witness(bits as nat, witness),
            final(self)@ == old(self)@.checked_witness(witness),
            final(self)@.wf(),
    {
        self.observe(witness);
        self.sample_bits(bits) == 0
    }
}

/// A copy of the elements.
pub fn copy_elements<T: Copy>(v: &Vec<T>) -> (r: Vec<T>)
    ensures
        r@ == v@,
{
    let mut r: Vec<T> = Vec::new();
    let mut i: usize = 0;
    while i < v.len()
        invariant
            i <= v@.len(),
            r@ == v@.take(i as int),
        decreases v@.len() - i,
    {
        r.push(v[i]);
        i += 1;
        proof {
            assert(v@.take(i as int) =~= v@.take(i - 1).push(v@[i - 1]));
        }
    }
    proof {
        assert(v@.take(i as int) =~= v@);
    }
    r
}

} // verus!
