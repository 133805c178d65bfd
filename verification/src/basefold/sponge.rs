//! What the transcript makes of what it is shown.
use vstd::prelude::*;
use vstd::arithmetic::div_mod::*;
use vstd::arithmetic::power2::*;
use crate::basefold::challenger;
use crate::basefold::challenger::{Transcript, RATE};
use crate::basefold::poseidon::{PermutationField, WIDTH};
use crate::field::ExtensionField;

verus! {

/// The values in the place of the first entries of a state.
pub open spec fn absorbed<F>(values: Seq<F>, state: Seq<F>) -> Seq<F> {
    values + state.skip(values.len() as int)
}

/// Law: observing one list and then another is observing both at once.
pub proof fn law_observed_in_parts<F: PermutationField>(t: Transcript<F>, a: Seq<F>, b: Seq<F>)
    ensures
        t.observed_all(a).observed_all(b) == t.observed_all(a + b),
    decreases b.len(),
{
    if b.len() == 0 {
        assert(a + b =~= a);
    } else {
        law_observed_in_parts(t, a, b.drop_last());
        assert((a + b).drop_last() =~= a + b.drop_last());
        assert((a + b).last() == b.last());
    }
}

proof fn lemma_buffered<F: PermutationField>(t: Transcript<F>, values: Seq<F>)
    requires
        t.input.len() + values.len() < RATE,
        values.len() > 0,
    ensures
        t.observed_all(values) == (Transcript {
            input: t.input + values,
            output: Seq::empty(),
            ..t
        }),
    decreases values.len(),
{
    let before = values.drop_last();
    assert(values =~= before.push(values.last()));
    assert(t.input + values =~= (t.input + before).push(values.last()));
    if before.len() > 0 {
        lemma_buffered(t, before);
    } else {
        assert(t.input + before =~= t.input);
        assert(t.observed_all(before) == t);
    }
}

/// Law: a full block of values takes the place of the first entries of the state, which is permuted and
/// is what can be drawn from then on.
pub proof fn law_block_absorbed<F: PermutationField>(t: Transcript<F>, values: Seq<F>)
    requires
        t.wf(),
        t.input.len() == 0,
        values.len() == RATE,
    ensures
        ({
            let after = t.observed_all(values);
            &&& after.sponge == F::permuted(t.rounds, absorbed(values, t.sponge))
            &&& after.output == after.sponge
            &&& after.input.len() == 0
            &&& after.rounds == t.rounds
        }),
{
    let before = values.drop_last();
    lemma_buffered(t, before);
    assert(t.input + before =~= before);
    let full = Transcript { input: values, output: Seq::empty(), ..t };
    assert(before.push(values.last()) =~= values);
    assert(Seq::new(
        WIDTH as nat,
        |i: int|
            if i < full.input.len() {
                full.input[i]
            } else {
                full.sponge[i]
            },
    ) =~= absorbed(values, t.sponge));
}

/// Law: what is drawn after part of a block is the last entry of the state, permuted with that part in
/// the place of its first entries: nothing that could be drawn before is drawn after an observation.
pub proof fn law_drawn_after_part<F: PermutationField>(t: Transcript<F>, values: Seq<F>)
    requires
        t.wf(),
        t.input.len() == 0,
        0 < values.len() < RATE,
    ensures
        ({
            let state = F::permuted(t.rounds, absorbed(values, t.sponge));
            &&& t.observed_all(values).next() == state[WIDTH - 1]
            &&& t.observed_all(values).sampled().sponge == state
            &&& t.observed_all(values).sampled().output == state.take(WIDTH - 1)
            &&& t.observed_all(values).sampled().input.len() == 0
        }),
{
    lemma_buffered(t, values);
    assert(t.input + values =~= values);
    F::law_permuted(t.rounds, absorbed(values, t.sponge));
    let part = Transcript { input: values, output: Seq::empty(), ..t };
    assert(Seq::new(
        WIDTH as nat,
        |i: int|
            if i < part.input.len() {
                part.input[i]
            } else {
                part.sponge[i]
            },
    ) =~= absorbed(values, t.sponge));
    let state = F::permuted(t.rounds, absorbed(values, t.sponge));
    assert(state.drop_last() =~= state.take(WIDTH - 1));
}

/// Law: what is drawn, one after the other with nothing observed between, are the entries that are there
/// to be drawn, from the last to the first.
pub proof fn law_drawn_in_turn<F: PermutationField>(t: Transcript<F>, n: nat)
    requires
        t.input.len() == 0,
        n < t.output.len(),
    ensures
        t.sampled_n(n).next() == t.output[t.output.len() - 1 - n],
        t.sampled_n(n).output == t.output.take(t.output.len() - n),
        t.sampled_n(n).sponge == t.sponge,
        t.sampled_n(n).input.len() == 0,
    decreases n,
{
    if n > 0 {
        let m = (n - 1) as nat;
        law_drawn_in_turn(t, m);
        assert(t.output.take(t.output.len() - m).drop_last() =~= t.output.take(
            t.output.len() - n,
        ));
    } else {
        assert(t.output.take(t.output.len() as int) =~= t.output);
    }
}

/// Law: the coefficients of an element of the extension are drawn in order, and an element of the
/// extension is observed by its coefficients, one list after the other.
pub proof fn law_extension_elements<F: PermutationField, EF: ExtensionField<F>>(
    t: Transcript<F>,
    i: int,
    values: Seq<EF>,
    value: EF,
)
    requires
        t.wf(),
        0 <= i < EF::degree(),
    ensures
        t.next_ext::<EF>().base_coeffs()[i] == t.sampled_n(i as nat).next(),
        t.sampled_ext::<EF>() == t.sampled_n(EF::degree()),
        t.observed_exts(values.push(value)) == t.observed_exts(values).observed_all(
            value.base_coeffs(),
        ),
{
    assert(values.push(value).drop_last() =~= values);
    let s = Seq::new(EF::degree(), |i: int| t.sampled_n(i as nat).next());
    assert forall|j: int| 0 <= j < s.len() implies #[trigger] s[j].valid() by {
        challenger::lemma_sampled_n_wf(t, j as nat);
    }
    EF::law_coeffs(value, s);
}

/// Law: the bits of a draw are its residue modulo the power of two, and a witness of work is accepted
/// exactly where the draw that follows it is a multiple of that power.
pub proof fn law_bits<F: PermutationField>(t: Transcript<F>, bits: nat, witness: F)
    requires
        t.wf(),
        witness.valid(),
    ensures
        t.next_bits(bits) < pow2(bits),
        exists|k: int| t.next().to_int() == t.next_bits(bits) + #[trigger] (k * pow2(bits)),
        t.accepts_witness(bits, witness) <==> exists|k: int|
            t.observed(witness).next().to_int() == #[trigger] (k * pow2(bits)),
        t.checked_witness(witness) == t.observed(witness).sampled(),
{
    lemma_pow2_pos(bits);
    let p = pow2(bits) as int;
    let x = t.next().to_int() as int;
    lemma_fundamental_div_mod(x, p);
    assert(x == t.next_bits(bits) + (x / p) * pow2(bits)) by {
        assert((x / p) * p == p * (x / p)) by (nonlinear_arith);
    }
    let y = t.observed(witness).next().to_int() as int;
    lemma_fundamental_div_mod(y, p);
    if t.accepts_witness(bits, witness) {
        assert(y == (y / p) * pow2(bits)) by {
            assert((y / p) * p == p * (y / p)) by (nonlinear_arith);
        }
    }
    if exists|k: int| y == #[trigger] (k * pow2(bits)) {
        let k = choose|k: int| y == #[trigger] (k * pow2(bits));
        lemma_mod_multiples_basic(k, p);
    }
}

} // verus!
