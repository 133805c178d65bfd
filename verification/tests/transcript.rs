use p3_challenger::{CanObserve, CanSample, CanSampleBits, DuplexChallenger as OuterChallenger};
use p3_field::{AbstractField, PrimeField32 as OuterPrimeField32};
use p3_koala_bear::{DiffusionMatrixKoalaBear, KoalaBear as OuterKoalaBear};
use p3_poseidon2::{Poseidon2, Poseidon2ExternalMatrixGeneral};
use p3_symmetric::Permutation;
use zkdtvm_stark_verifier::basefold::challenger::DuplexChallenger;
use zkdtvm_stark_verifier::basefold::poseidon::{PermutationField, RoundConstants};
use zkdtvm_stark_verifier::field::koala_bear::KoalaBear;
use zkdtvm_stark_verifier::field::PrimeField32;
use zkdtvm_stark_verifier::recursion::shape::{HeightMap, RecursionShape};
use zkdtvm_stark_verifier::stark::koalabear_poseidon2::{inner_perm, DIGEST_SIZE};

type OuterPermutation = Poseidon2<
    OuterKoalaBear,
    Poseidon2ExternalMatrixGeneral,
    DiffusionMatrixKoalaBear,
    16,
    3,
>;

fn val(n: u32) -> KoalaBear {
    KoalaBear::from_canonical_u32(n)
}

fn outer(n: u32) -> OuterKoalaBear {
    OuterKoalaBear::from_canonical_u32(n)
}

fn external(i: usize, j: usize) -> u32 {
    (1000 * i + 17 * j + 3) as u32
}

fn internal(i: usize) -> u32 {
    (77 * i + 5) as u32
}

fn constants() -> RoundConstants<KoalaBear> {
    let row = |i: usize| -> Vec<KoalaBear> { (0..16).map(|j| val(external(i, j))).collect() };
    let begin: Vec<Vec<KoalaBear>> = (0..4).map(row).collect();
    let end: Vec<Vec<KoalaBear>> = (4..8).map(row).collect();
    let partial: Vec<KoalaBear> = (0..20).map(|i| val(internal(i))).collect();
    inner_perm(&begin, &end, &partial)
}

fn outer_permutation() -> OuterPermutation {
    let rows: Vec<[OuterKoalaBear; 16]> = (0..8)
        .map(|i| {
            let mut row = [outer(0); 16];
            for (j, x) in row.iter_mut().enumerate() {
                *x = outer(external(i, j));
            }
            row
        })
        .collect();
    let single: Vec<OuterKoalaBear> = (0..20).map(|i| outer(internal(i))).collect();
    Poseidon2::new(8, rows, Poseidon2ExternalMatrixGeneral, 20, single, DiffusionMatrixKoalaBear)
}

#[test]
fn permutation_agrees_with_the_outer_one() {
    let p = KoalaBear::new_permutation(&constants());
    let q = KoalaBear::copy_permutation(&p);
    let state: Vec<KoalaBear> = (0..16).map(|i| val(100 + i)).collect();
    let mut wide = [outer(0); 16];
    for (i, x) in wide.iter_mut().enumerate() {
        *x = outer(100 + i as u32);
    }
    let expected: Vec<u32> =
        outer_permutation().permute(wide).iter().map(|x| x.as_canonical_u32()).collect();
    let residues = |v: Vec<KoalaBear>| -> Vec<u32> {
        v.iter().map(PrimeField32::as_canonical_u32).collect()
    };
    assert_eq!(residues(KoalaBear::permute(&p, &state)), expected);
    assert_eq!(residues(KoalaBear::permute(&q, &state)), expected);
}

#[test]
fn transcript_agrees_with_the_outer_one() {
    let mut inner = DuplexChallenger::<KoalaBear>::new(&constants());
    let mut wide = OuterChallenger::<OuterKoalaBear, OuterPermutation, 16, 8>::new(outer_permutation());
    for round in 0..20u32 {
        for n in 0..(round % 11) {
            inner.observe(val(13 * round + n));
            wide.observe(outer(13 * round + n));
        }
        for _ in 0..(round % 5) {
            let expected: OuterKoalaBear = wide.sample();
            assert_eq!(
                PrimeField32::as_canonical_u32(&inner.sample()),
                OuterPrimeField32::as_canonical_u32(&expected),
            );
        }
        assert_eq!(inner.sample_bits(17), wide.sample_bits(17));
    }
}

#[test]
fn samples_depend_on_what_was_observed() {
    let mut a = DuplexChallenger::<KoalaBear>::new(&constants());
    let mut b = a.duplicate();
    a.observe(val(1));
    b.observe(val(2));
    assert_ne!(a.sample(), b.sample());
}

#[test]
fn digests_have_eight_elements() {
    assert_eq!(DIGEST_SIZE, 8);
}

#[test]
fn height_map_keeps_its_entries() {
    let mut map = HeightMap::new();
    let name = |s: &str| s.to_string();
    assert_eq!(map.get(&name("a")), None);
    map.insert(name("a"), 4);
    map.insert(name("b"), 5);
    map.insert(name("a"), 6);
    assert_eq!(map.get(&name("a")), Some(6));
    let copy = map.duplicate();
    map.insert(name("b"), 9);
    assert_eq!(copy.get(&name("b")), Some(5));
    let mut keys = copy.keys();
    keys.sort();
    assert_eq!(keys, vec![name("a"), name("b")]);
    let shape = RecursionShape::from_map(copy);
    assert_eq!(shape.clone_into_hash_map().get(&name("a")), Some(6));
}
