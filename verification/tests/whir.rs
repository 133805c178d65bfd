use rand::{Rng, SeedableRng};
use rand_xoshiro::Xoroshiro128Plus;
use zkdtvm_stark_verifier::basefold::challenger::DuplexChallenger;
use zkdtvm_stark_verifier::basefold::eqpoly::EqPolynomial;
use zkdtvm_stark_verifier::basefold::mmcs::{Dimensions, Matrix, MerkleField};
use zkdtvm_stark_verifier::basefold::openings::{BaseFoldError, BasefoldProof};
use zkdtvm_stark_verifier::basefold::pcs::{BaseFoldPcs, FriConfig};
use zkdtvm_stark_verifier::basefold::poseidon::RoundConstants;
use zkdtvm_stark_verifier::basefold::mlpoly::MultilinearPolynomial;
use zkdtvm_stark_verifier::basefold::openings::SumcheckInstanceProof;
use zkdtvm_stark_verifier::field::extension::BinomialExtension;
use zkdtvm_stark_verifier::field::koala_bear::KoalaBear;
use zkdtvm_stark_verifier::field::{ExtensionField, Field, PrimeField32};
use zkdtvm_stark_verifier::stark::trace::{CompressedMatrix, PaddingRow};

type Val = KoalaBear;
type Ext = BinomialExtension<KoalaBear>;

const ORDER: u32 = 0x7f000001;

fn random(rng: &mut Xoroshiro128Plus) -> Val {
    Val::from_canonical_u32(rng.gen::<u32>() % ORDER)
}

fn random_ext(rng: &mut Xoroshiro128Plus) -> Ext {
    let coeffs: Vec<Val> = (0..4).map(|_| random(rng)).collect();
    Ext::from_base_slice(&coeffs)
}

fn constants(seed: u64) -> RoundConstants<Val> {
    let mut rng = Xoroshiro128Plus::seed_from_u64(seed);
    RoundConstants {
        external: (0..8).map(|_| (0..16).map(|_| random(&mut rng)).collect()).collect(),
        internal: (0..20).map(|_| random(&mut rng)).collect(),
    }
}

fn full(m: &Matrix<Val>) -> CompressedMatrix<Val> {
    CompressedMatrix {
        main: m.values.clone(),
        width: m.width,
        padding_row: PaddingRow::Absent,
        total_height: m.values.len() / m.width,
    }
}

fn random_matrix(rng: &mut Xoroshiro128Plus, log_height: usize, width: usize) -> Matrix<Val> {
    Matrix { values: (0..width << log_height).map(|_| random(rng)).collect(), width }
}

/// The values of the columns at the point whose equality polynomial is given.
fn base_values_with(m: &Matrix<Val>, eq: &[Ext]) -> Vec<Ext> {
    let mut sums = vec![Ext::zero(); m.width];
    for (row, e) in m.values.chunks(m.width).zip(eq) {
        for (sum, x) in sums.iter_mut().zip(row) {
            sum.c0 = Field::add(sum.c0, Field::mul(*x, e.c0));
            sum.c1 = Field::add(sum.c1, Field::mul(*x, e.c1));
            sum.c2 = Field::add(sum.c2, Field::mul(*x, e.c2));
            sum.c3 = Field::add(sum.c3, Field::mul(*x, e.c3));
        }
    }
    sums
}

/// The values of the columns of extension elements at the point whose equality polynomial is given.
fn ext_values_with(m: &Matrix<Val>, eq: &[Ext]) -> Vec<Ext> {
    let mut sums = vec![Ext::zero(); m.width / 4];
    for (row, e) in m.values.chunks(m.width).zip(eq) {
        for (sum, x) in sums.iter_mut().zip(row.chunks(4)) {
            *sum = Field::add(*sum, Field::mul(Ext::from_base_slice(x), *e));
        }
    }
    sums
}

struct Setup {
    constants: RoundConstants<Val>,
    compressed: Vec<Vec<CompressedMatrix<Val>>>,
    dims: Vec<Vec<Dimensions>>,
    point: Vec<Ext>,
    values: Vec<Vec<Vec<Ext>>>,
}

/// Random matrices, where the batches of the given numbers hold extension elements.
fn setup(seed: u64, log_heights: &[Vec<usize>], widths: &[Vec<usize>], ext: &[usize]) -> Setup {
    let mut rng = Xoroshiro128Plus::seed_from_u64(seed + 1000);
    let top = log_heights.iter().flatten().copied().max().unwrap();
    let point: Vec<Ext> = (0..top).map(|_| random_ext(&mut rng)).collect();
    let mut tables: Vec<Vec<Ext>> = vec![Vec::new(); top + 1];
    for h in log_heights.iter().flatten() {
        if tables[*h].is_empty() {
            tables[*h] = EqPolynomial::new(point[..*h].to_vec()).evals();
        }
    }
    let mut compressed = Vec::new();
    let mut dims = Vec::new();
    let mut values = Vec::new();
    for (b, (hs, ws)) in log_heights.iter().zip(widths).enumerate() {
        let mut batch = Vec::new();
        let mut sizes = Vec::new();
        let mut vals = Vec::new();
        for (h, w) in hs.iter().zip(ws) {
            let m = random_matrix(&mut rng, *h, *w);
            vals.push(if ext.contains(&b) {
                ext_values_with(&m, &tables[*h])
            } else {
                base_values_with(&m, &tables[*h])
            });
            sizes.push(Dimensions { width: *w, height: 1 << *h });
            batch.push(full(&m));
        }
        compressed.push(batch);
        dims.push(sizes);
        values.push(vals);
    }
    Setup { constants: constants(seed), compressed, dims, point, values }
}

fn fri(queries: usize, query_bits: usize, batching_bits: usize, last: usize) -> FriConfig {
    FriConfig {
        log_blowup: 1,
        num_queries: queries,
        grinding_bits_query: query_bits,
        grinding_bits_batching: batching_bits,
        log_final_poly_len: last,
    }
}

fn commit_all(
    pcs: &BaseFoldPcs<Val>,
    s: &Setup,
) -> (Vec<Vec<Val>>, Vec<<Val as MerkleField>::Tree>) {
    let mut roots = Vec::new();
    let mut trees = Vec::new();
    for batch in &s.compressed {
        let (root, tree) = pcs.commit(batch);
        roots.push(root);
        trees.push(tree);
    }
    (roots, trees)
}

/// Commits, opens and verifies.
fn open_and_verify(
    pcs: &BaseFoldPcs<Val>,
    s: &Setup,
) -> (BasefoldProof<Val, Ext>, Vec<Vec<Val>>) {
    let (roots, trees) = commit_all(pcs, s);
    let mut prover = DuplexChallenger::new(&s.constants);
    let proof = pcs.open_whir(&s.compressed, &trees, &s.point, &s.values, &mut prover).unwrap();
    let mut verifier = DuplexChallenger::new(&s.constants);
    assert_eq!(
        pcs.verify_whir(&roots, &s.dims, &s.point, &s.values, &proof, &mut verifier),
        Ok(())
    );
    assert_eq!(prover.sample(), verifier.sample());
    (proof, roots)
}

fn verdict(
    pcs: &BaseFoldPcs<Val>,
    s: &Setup,
    roots: &Vec<Vec<Val>>,
    values: &Vec<Vec<Vec<Ext>>>,
    proof: &BasefoldProof<Val, Ext>,
) -> Result<(), BaseFoldError> {
    let mut verifier = DuplexChallenger::new(&s.constants);
    pcs.verify_whir(roots, &s.dims, &s.point, values, proof, &mut verifier)
}

#[test]
fn test_open_verify() {
    let log_heights = vec![vec![19, 18, 17, 17, 16], vec![18, 16, 8], vec![12, 8, 10, 8]];
    let widths = vec![vec![1, 4, 10, 8, 9], vec![3, 2, 5], vec![12, 16, 8, 12]];
    let s = setup(1, &log_heights, &widths, &[2]);
    let pcs = BaseFoldPcs::new(&s.constants, fri(90, 10, 8, 0));
    let (proof, _) = open_and_verify(&pcs, &s);
    let num_vars = 19;
    let num_distinct_heights = 7;
    assert_eq!(proof.sumcheck_transcript.uni_polys.len(), num_vars + (num_distinct_heights - 1));
    assert_eq!(proof.iopp_oracles.len(), num_vars + 1);
    assert_eq!(proof.iopp_queries.len(), 90);
    assert_eq!(proof.query_openings.per_query.len(), 90);
    assert_eq!(proof.out_of_domain_responses.as_ref().unwrap().len(), num_vars);
    assert_eq!(proof.grinding_batching_witness.len(), 2);
    assert_eq!(proof.grinding_query_witness.len(), 2);
}

#[test]
fn small_openings_with_responses_are_accepted() {
    let s = setup(3, &[vec![6, 3], vec![5, 2]], &[vec![3, 4], vec![4, 8]], &[1]);
    for blowup in 1..4 {
        let mut config = fri(6, 4, 3, 0);
        config.log_blowup = blowup;
        let pcs = BaseFoldPcs::new(&s.constants, config);
        let (proof, _) = open_and_verify(&pcs, &s);
        assert_eq!(proof.sumcheck_transcript.uni_polys.len(), 6 + 3);
    }
}

#[test]
fn shared_answers_replace_the_queries() {
    let s = setup(4, &[vec![5, 4]], &[vec![3, 4]], &[]);
    let pcs = BaseFoldPcs::new_with_path_pruning(&s.constants, fri(6, 0, 0, 0));
    let (_, trees) = commit_all(&pcs, &s);
    let mut prover = DuplexChallenger::new(&s.constants);
    let proof = pcs.open_whir(&s.compressed, &trees, &s.point, &s.values, &mut prover).unwrap();
    assert!(proof.iopp_queries.is_empty());
    assert!(proof.query_openings.pruned.is_none());
    let shared = proof.iopp_pruned.unwrap();
    assert_eq!(shared.round_pruned_proofs.len(), 6);
    assert_eq!(shared.sibling_values.len(), 6);
}

#[test]
fn tampered_responses_are_refused() {
    let s = setup(5, &[vec![6, 4]], &[vec![4, 2]], &[]);
    let pcs = BaseFoldPcs::new(&s.constants, fri(8, 0, 0, 0));
    let (proof, roots) = open_and_verify(&pcs, &s);
    let one = Ext::one();

    let mut bad = proof.clone();
    let mut responses = bad.out_of_domain_responses.unwrap();
    responses[2] = Field::add(responses[2], one);
    bad.out_of_domain_responses = Some(responses);
    assert_eq!(
        verdict(&pcs, &s, &roots, &s.values, &bad),
        Err(BaseFoldError::SumcheckPhaseError)
    );

    let mut bad = proof.clone();
    bad.out_of_domain_responses = None;
    assert_eq!(
        verdict(&pcs, &s, &roots, &s.values, &bad),
        Err(BaseFoldError::InvalidInputError)
    );

    let mut values = s.values.clone();
    values[0][1][0] = Field::add(values[0][1][0], one);
    assert_eq!(
        verdict(&pcs, &s, &roots, &values, &proof),
        Err(BaseFoldError::SumcheckPhaseError)
    );

    let mut bad = proof.clone();
    bad.iopp_queries[0].commit_phase_openings[1].sibling_value = one;
    assert_eq!(
        verdict(&pcs, &s, &roots, &s.values, &bad),
        Err(BaseFoldError::FriFinalStepMisMatch)
    );

    let mut bad = proof.clone();
    let n = bad.iopp_oracles.len();
    bad.iopp_oracles[n - 1][0] = Field::add(bad.iopp_oracles[n - 1][0], Val::one());
    assert_eq!(
        verdict(&pcs, &s, &roots, &s.values, &bad),
        Err(BaseFoldError::CommitmentCheckFailed)
    );

    let mut bad = proof.clone();
    bad.sumcheck_transcript.uni_polys.pop();
    assert_eq!(
        verdict(&pcs, &s, &roots, &s.values, &bad),
        Err(BaseFoldError::SumcheckPhaseError)
    );
}

fn table(ns: &[u32]) -> MultilinearPolynomial<Ext> {
    MultilinearPolynomial::new(
        ns.iter().map(|n| Ext::from_base(Val::from_canonical_u32(*n))).collect(),
    )
}

fn dot(a: &[Ext], b: &[Ext]) -> Ext {
    a.iter().zip(b).fold(Ext::zero(), |s, (x, y)| Field::add(s, Field::mul(*x, *y)))
}

#[test]
fn joined_claims_lie_on_the_polynomial() {
    let (f0, e0) = (table(&[1, 2, 3, 4]), table(&[5, 6, 7, 8]));
    let (f1, e1) = (table(&[9, 10, 11, 12]), table(&[13, 14, 15, 16]));
    let claim_0 = dot(&f0.evals, &e0.evals);
    let claim_1 = dot(&f1.evals, &e1.evals);
    let mut challenger = DuplexChallenger::<Val>::new(&constants(9));
    let (poly, r, (f, e)) = SumcheckInstanceProof::sumcheck_prove_merge_two_instances(
        &claim_0,
        &claim_1,
        &f0,
        &e0,
        &f1,
        &e1,
        &mut challenger,
    );
    assert_eq!(claim_0, Ext::from_base(Val::from_canonical_u32(70)));
    assert_eq!(poly.eval_at_zero(), claim_0);
    assert_eq!(poly.eval_at_one(), claim_1);
    assert_eq!(poly.evaluate(&r), dot(&f.evals, &e.evals));
}

#[test]
fn response_is_the_value_out_of_the_domain() {
    let f = table(&[1, 2, 3, 4]);
    let mut e = table(&[0, 0, 0, 0]);
    let mut challenger = DuplexChallenger::<Val>::new(&constants(9));
    let (alpha, gamma, y) =
        SumcheckInstanceProof::sumcheck_prove_whir_round(&f, &mut e, &mut challenger);
    let weights = EqPolynomial::new(vec![alpha, Field::mul(alpha, alpha)]).evals();
    assert_eq!(y, dot(&f.evals, &weights));
    let scaled: Vec<Ext> = weights.iter().map(|w| Field::mul(gamma, *w)).collect();
    assert_eq!(e.evals, scaled);
}

#[test]
fn proofs_with_parts_missing_are_refused() {
    let s = setup(6, &[vec![6, 4]], &[vec![4, 2]], &[]);
    let pcs = BaseFoldPcs::new(&s.constants, fri(5, 0, 0, 0));
    let (proof, roots) = open_and_verify(&pcs, &s);
    let refused = Err(BaseFoldError::InvalidInputError);
    let mut bad = proof.clone();
    bad.iopp_queries.clear();
    assert_eq!(verdict(&pcs, &s, &roots, &s.values, &bad), refused);
    let mut bad = proof.clone();
    bad.query_openings.per_query.pop();
    assert_eq!(verdict(&pcs, &s, &roots, &s.values, &bad), refused);
    let mut bad = proof.clone();
    bad.iopp_oracles.clear();
    assert_eq!(verdict(&pcs, &s, &roots, &s.values, &bad), refused);
    let mut bad = proof.clone();
    let mut responses = bad.out_of_domain_responses.unwrap();
    responses.pop();
    bad.out_of_domain_responses = Some(responses);
    assert_eq!(verdict(&pcs, &s, &roots, &s.values, &bad), refused);

    let mut bad = proof.clone();
    bad.query_openings.per_query[0][0].opened_values[0].pop();
    assert_eq!(
        verdict(&pcs, &s, &roots, &s.values, &bad),
        Err(BaseFoldError::FriFinalStepMisMatch)
    );
}
