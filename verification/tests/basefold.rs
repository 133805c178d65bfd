use rand::{Rng, SeedableRng};
use rand_xoshiro::Xoroshiro128Plus;
use zkdtvm_stark_verifier::basefold::challenger::DuplexChallenger;
use zkdtvm_stark_verifier::basefold::eqpoly::EqPolynomial;
use zkdtvm_stark_verifier::basefold::fold::{fold_codeword, fold_row_cross_round};
use zkdtvm_stark_verifier::basefold::gauss::gaussian_elimination;
use zkdtvm_stark_verifier::basefold::mmcs::{Dimensions, Matrix, MerkleField};
use zkdtvm_stark_verifier::basefold::openings::{
    BaseFoldError, BasefoldInputProof, BasefoldProof, BatchOpening, CommitPhaseProofStep,
    QueryProof, SumcheckInstanceProof,
};
use zkdtvm_stark_verifier::basefold::pcs::{BaseFoldPcs, FriConfig};
use zkdtvm_stark_verifier::basefold::poseidon::RoundConstants;
use zkdtvm_stark_verifier::basefold::schedule::{
    compute_commit_schedule_cross_round_capped, CommitGroup,
};
use zkdtvm_stark_verifier::basefold::unipoly::UniPoly;
use zkdtvm_stark_verifier::field::extension::BinomialExtension;
use zkdtvm_stark_verifier::field::koala_bear::KoalaBear;
use zkdtvm_stark_verifier::field::{ExtensionField, Field, PrimeField32};
use zkdtvm_stark_verifier::stark::trace::{CompressedMatrix, PaddingRow};

type Val = KoalaBear;
type Ext = BinomialExtension<KoalaBear>;

const ORDER: u32 = 0x7f000001;

fn random(rng: &mut Xoroshiro128Plus) -> Val {
    Val::from_canonical_u32(rng.gen::<u32>() % ORDER)
}

fn random_ext(rng: &mut Xoroshiro128Plus) -> Ext {
    let coeffs: Vec<Val> = (0..4).map(|_| random(rng)).collect();
    Ext::from_base_slice(&coeffs)
}

fn constants(seed: u64) -> RoundConstants<Val> {
    let mut rng = Xoroshiro128Plus::seed_from_u64(seed);
    RoundConstants {
        external: (0..8).map(|_| (0..16).map(|_| random(&mut rng)).collect()).collect(),
        internal: (0..20).map(|_| random(&mut rng)).collect(),
    }
}

fn full(m: &Matrix<Val>) -> CompressedMatrix<Val> {
    CompressedMatrix {
        main: m.values.clone(),
        width: m.width,
        padding_row: PaddingRow::Absent,
        total_height: m.values.len() / m.width,
    }
}

fn random_matrix(rng: &mut Xoroshiro128Plus, log_height: usize, width: usize) -> Matrix<Val> {
    Matrix { values: (0..width << log_height).map(|_| random(rng)).collect(), width }
}

/// The values of the columns at the point whose equality polynomial is given.
fn base_values_with(m: &Matrix<Val>, eq: &[Ext]) -> Vec<Ext> {
    let mut sums = vec![Ext::zero(); m.width];
    for (row, e) in m.values.chunks(m.width).zip(eq) {
        for (sum, x) in sums.iter_mut().zip(row) {
            sum.c0 = Field::add(sum.c0, Field::mul(*x, e.c0));
            sum.c1 = Field::add(sum.c1, Field::mul(*x, e.c1));
            sum.c2 = Field::add(sum.c2, Field::mul(*x, e.c2));
            sum.c3 = Field::add(sum.c3, Field::mul(*x, e.c3));
        }
    }
    sums
}

fn base_values(m: &Matrix<Val>, point: &[Ext]) -> Vec<Ext> {
    base_values_with(m, &EqPolynomial::new(point.to_vec()).evals())
}

/// The values of the columns of extension elements at the point whose equality polynomial is given.
fn ext_values_with(m: &Matrix<Val>, eq: &[Ext]) -> Vec<Ext> {
    let mut sums = vec![Ext::zero(); m.width / 4];
    for (row, e) in m.values.chunks(m.width).zip(eq) {
        for (sum, x) in sums.iter_mut().zip(row.chunks(4)) {
            *sum = Field::add(*sum, Field::mul(Ext::from_base_slice(x), *e));
        }
    }
    sums
}

struct Setup {
    constants: RoundConstants<Val>,
    compressed: Vec<Vec<CompressedMatrix<Val>>>,
    dims: Vec<Vec<Dimensions>>,
    point: Vec<Ext>,
    values: Vec<Vec<Vec<Ext>>>,
}

/// Random matrices, where the batches of the given numbers hold extension elements.
fn setup(seed: u64, log_heights: &[Vec<usize>], widths: &[Vec<usize>], ext: &[usize]) -> Setup {
    let mut rng = Xoroshiro128Plus::seed_from_u64(seed + 1000);
    let top = log_heights.iter().flatten().copied().max().unwrap();
    let point: Vec<Ext> = (0..top).map(|_| random_ext(&mut rng)).collect();
    let mut tables: Vec<Vec<Ext>> = vec![Vec::new(); top + 1];
    for h in log_heights.iter().flatten() {
        if tables[*h].is_empty() {
            tables[*h] = EqPolynomial::new(point[..*h].to_vec()).evals();
        }
    }
    let mut compressed = Vec::new();
    let mut dims = Vec::new();
    let mut values = Vec::new();
    for (b, (hs, ws)) in log_heights.iter().zip(widths).enumerate() {
        let mut batch = Vec::new();
        let mut sizes = Vec::new();
        let mut vals = Vec::new();
        for (h, w) in hs.iter().zip(ws) {
            let m = random_matrix(&mut rng, *h, *w);
            vals.push(if ext.contains(&b) {
                ext_values_with(&m, &tables[*h])
            } else {
                base_values_with(&m, &tables[*h])
            });
            sizes.push(Dimensions { width: *w, height: 1 << *h });
            batch.push(full(&m));
        }
        compressed.push(batch);
        dims.push(sizes);
        values.push(vals);
    }
    Setup { constants: constants(seed), compressed, dims, point, values }
}

fn fri(queries: usize, query_bits: usize, batching_bits: usize, last: usize) -> FriConfig {
    FriConfig {
        log_blowup: 1,
        num_queries: queries,
        grinding_bits_query: query_bits,
        grinding_bits_batching: batching_bits,
        log_final_poly_len: last,
    }
}

/// Commits, opens and verifies.
fn open_and_verify(
    pcs: &BaseFoldPcs<Val>,
    s: &Setup,
) -> (BasefoldProof<Val, Ext>, Vec<Vec<Val>>) {
    let mut roots = Vec::new();
    let mut trees: Vec<<Val as MerkleField>::Tree> = Vec::new();
    for batch in &s.compressed {
        let (root, tree) = pcs.commit(batch);
        roots.push(root);
        trees.push(tree);
    }
    let mut prover = DuplexChallenger::new(&s.constants);
    let proof = pcs.open(&s.compressed, &trees, &s.point, &s.values, &mut prover).unwrap();
    let mut verifier = DuplexChallenger::new(&s.constants);
    assert_eq!(
        pcs.verify(&roots, &s.dims, &s.point, &s.values, &proof, &mut verifier),
        Ok(())
    );
    assert_eq!(prover.sample(), verifier.sample());
    (proof, roots)
}

fn verdict(
    pcs: &BaseFoldPcs<Val>,
    s: &Setup,
    roots: &Vec<Vec<Val>>,
    values: &Vec<Vec<Vec<Ext>>>,
    proof: &BasefoldProof<Val, Ext>,
) -> Result<(), BaseFoldError> {
    let mut verifier = DuplexChallenger::new(&s.constants);
    pcs.verify(roots, &s.dims, &s.point, values, proof, &mut verifier)
}

#[test]
fn test_cross_round_fold_matches_fold_codeword() {
    let mut rng = Xoroshiro128Plus::seed_from_u64(42);
    for log_len in 4..=8usize {
        let n = 1usize << log_len;
        let codeword: Vec<Ext> = (0..n)
            .map(|_| {
                let arr: Vec<Val> =
                    (0..4).map(|_| Val::from_canonical_u32(rng.gen::<u32>() % 1000)).collect();
                Ext::from_base_slice(&arr)
            })
            .collect();
        for k in 1..=(log_len - 1) {
            let challenges: Vec<Ext> = (0..k)
                .map(|_| {
                    let arr: Vec<Val> = (0..4)
                        .map(|_| Val::from_canonical_u32(rng.gen::<u32>() % 1000 + 1))
                        .collect();
                    Ext::from_base_slice(&arr)
                })
                .collect();
            let mut folded = codeword.clone();
            for r in &challenges {
                folded = fold_codeword(&folded, *r);
            }
            let row_len = 1usize << k;
            for j in 0..n {
                let pair_index_group = j >> k;
                let base = pair_index_group << k;
                let row = &codeword[base..base + row_len];
                let got = fold_row_cross_round(row, pair_index_group, log_len, &challenges);
                assert_eq!(got, folded[pair_index_group]);
            }
        }
    }
}

#[test]
fn test_basefold_open_verify() {
    let log_heights = vec![vec![19, 18, 17, 17, 16], vec![18, 16, 8], vec![12, 8, 10, 8]];
    let widths = vec![vec![1, 4, 10, 8, 9], vec![3, 2, 5], vec![12, 16, 8, 12]];
    let s = setup(1, &log_heights, &widths, &[2]);
    let pcs = BaseFoldPcs::new(&s.constants, fri(90, 10, 8, 0));
    open_and_verify(&pcs, &s);
}

#[test]
fn test_basefold_open_verify_early_stop() {
    let s = setup(7, &[vec![8, 6]], &[vec![4, 8]], &[0]);
    let pcs = BaseFoldPcs::new(&s.constants, fri(10, 0, 0, 3));
    let (proof, _) = open_and_verify(&pcs, &s);
    assert_eq!(proof.final_poly.len(), 1 << 3);
    assert_eq!(proof.iopp_oracles.len(), 8 - 3);
    assert!(proof.iopp_pruned.is_none());
}

fn group(start_log_height: usize, log_folding: usize) -> CommitGroup {
    CommitGroup { start_log_height, log_folding }
}

#[test]
fn test_cross_round_schedule() {
    let present: Vec<usize> = vec![4, 17, 18, 19];
    let greedy = compute_commit_schedule_cross_round_capped(&present, 19, 0, true, 0);
    assert_eq!(greedy, vec![group(19, 1), group(18, 1), group(17, 13), group(4, 4)]);
    let capped = compute_commit_schedule_cross_round_capped(&present, 19, 0, true, 4);
    assert_eq!(
        capped,
        vec![
            group(19, 1),
            group(18, 1),
            group(17, 4),
            group(13, 4),
            group(9, 4),
            group(5, 1),
            group(4, 4),
        ]
    );
    let baseline = compute_commit_schedule_cross_round_capped(&present, 19, 0, false, 4);
    assert_eq!(baseline.len(), 19);
    assert!(baseline.iter().all(|g| g.log_folding == 1));
    let sched_k4 = compute_commit_schedule_cross_round_capped(&present, 19, 4, true, 4);
    assert_eq!(
        sched_k4,
        vec![group(19, 1), group(18, 1), group(17, 4), group(13, 4), group(9, 4), group(5, 1)]
    );
    assert!(sched_k4.iter().all(|g| g.log_folding <= 4));
}

#[test]
fn test_cross_round_vs_baseline() {
    let s = setup(123, &[vec![10, 6, 4]], &[vec![8, 12, 4]], &[0]);
    let baseline = BaseFoldPcs::new(&s.constants, fri(20, 0, 0, 0));
    let cross = BaseFoldPcs::new_with_cross_round(&s.constants, fri(20, 0, 0, 0));
    let (baseline_proof, _) = open_and_verify(&baseline, &s);
    let (cross_proof, _) = open_and_verify(&cross, &s);
    assert_eq!(baseline_proof.iopp_oracles.len(), 11);
    assert_eq!(cross_proof.iopp_oracles.len(), 4);
    assert!(cross_proof.iopp_oracles.len() < baseline_proof.iopp_oracles.len());
    assert!(baseline_proof.iopp_cross_round.is_empty());
    assert!(cross_proof.iopp_queries.is_empty());
    assert!(!cross_proof.iopp_cross_round.is_empty());
}

#[test]
fn test_cross_round_early_stop() {
    let s = setup(77, &[vec![10, 4]], &[vec![8, 4]], &[0]);
    let pcs = BaseFoldPcs::new_with_cross_round(&s.constants, fri(20, 0, 0, 3));
    let (proof, _) = open_and_verify(&pcs, &s);
    assert_eq!(proof.final_poly.len(), 1 << 3);
    assert!(!proof.iopp_cross_round.is_empty());
}

#[test]
fn test_cross_round_capped_split() {
    let sched = compute_commit_schedule_cross_round_capped(&vec![2, 16], 16, 0, true, 4);
    assert!(sched.iter().all(|g| g.log_folding <= 4));
    assert!(sched.len() >= 4);
    let s = setup(2024, &[vec![16, 2]], &[vec![4, 4]], &[0]);
    let pcs = BaseFoldPcs::new_with_cross_round(&s.constants, fri(20, 0, 0, 0));
    let (proof, _) = open_and_verify(&pcs, &s);
    assert!(!proof.iopp_cross_round.is_empty());
    for q in &proof.iopp_cross_round {
        for step in &q.group_openings {
            assert!(step.row_values.len() <= 1 << 4);
        }
    }
}

#[test]
fn test_cross_round_with_path_pruning() {
    let s = setup(9, &[vec![10, 4]], &[vec![4, 4]], &[0]);
    let mut pcs = BaseFoldPcs::new(&s.constants, fri(20, 0, 0, 0));
    pcs.use_path_pruning = true;
    pcs.use_cross_round = true;
    let (proof, _) = open_and_verify(&pcs, &s);
    assert!(proof.iopp_cross_round_pruned.is_some());
    assert!(proof.query_openings.pruned.is_some());
    assert!(proof.iopp_cross_round.is_empty());
    assert!(proof.iopp_pruned.is_none());
    assert!(proof.iopp_queries.is_empty());
}

#[test]
fn test_basefold_compressed_with_padding() {
    let mut rng = Xoroshiro128Plus::seed_from_u64(4242);
    let total_log_heights = [12usize, 10];
    let stored_heights = [3000usize, 800];
    let widths = [3usize, 5];
    let batch: Vec<CompressedMatrix<Val>> = (0..2)
        .map(|m| CompressedMatrix {
            main: (0..stored_heights[m] * widths[m]).map(|_| random(&mut rng)).collect(),
            width: widths[m],
            padding_row: PaddingRow::Zero { width: widths[m] },
            total_height: 1 << total_log_heights[m],
        })
        .collect();
    let point: Vec<Ext> = (0..12).map(|_| random_ext(&mut rng)).collect();
    let values = batch
        .iter()
        .zip(total_log_heights)
        .map(|(m, h)| base_values(&m.decompress(), &point[..h]))
        .collect();
    let dims = (0..2)
        .map(|m| Dimensions { width: widths[m], height: 1 << total_log_heights[m] })
        .collect();
    let s = Setup {
        constants: constants(42),
        compressed: vec![batch],
        dims: vec![dims],
        point,
        values: vec![values],
    };
    let pcs = BaseFoldPcs::new(&s.constants, fri(90, 10, 8, 0));
    open_and_verify(&pcs, &s);
}

#[test]
fn basefold_pcs_test_dummy_proof_size() {
    let log_heights =
        vec![vec![19, 18, 17, 17, 16], vec![18, 16, 8], vec![12, 8, 10, 8]];
    let widths = vec![vec![1, 4, 10, 8, 9], vec![3, 2, 5], vec![12, 16, 8, 12]];
    let num_vars = 19;
    let zero_digest = vec![Val::zero(); 8];
    let proof = BasefoldProof::<Val, Ext> {
        sumcheck_transcript: SumcheckInstanceProof::new(
            (0..num_vars).map(|_| UniPoly::from_coeff(vec![Ext::zero(); 3])).collect(),
        ),
        iopp_oracles: vec![zero_digest.clone(); num_vars + 1],
        iopp_queries: (0..90)
            .map(|_| QueryProof {
                commit_phase_openings: (0..num_vars)
                    .map(|round| CommitPhaseProofStep {
                        sibling_value: Ext::zero(),
                        opening_proof: vec![zero_digest.clone(); num_vars - round],
                    })
                    .collect(),
            })
            .collect(),
        query_openings: BasefoldInputProof::from_per_query(
            (0..90)
                .map(|_| {
                    widths
                        .iter()
                        .zip(&log_heights)
                        .map(|(ws, hs): (&Vec<usize>, &Vec<usize>)| BatchOpening {
                            opened_values: ws.iter().map(|w| vec![Val::zero(); *w]).collect(),
                            opening_proof: vec![
                                zero_digest.clone();
                                hs.iter().copied().max().unwrap() + 1
                            ],
                        })
                        .collect()
                })
                .collect(),
        ),
        grinding_batching_witness: vec![Val::zero(); 2],
        grinding_query_witness: vec![Val::zero(); 2],
        out_of_domain_responses: None,
        final_poly: vec![],
        iopp_pruned: None,
        iopp_cross_round: Vec::new(),
        iopp_cross_round_pruned: None,
    };
    assert_eq!(proof.sumcheck_transcript.uni_polys.len(), num_vars);
    assert_eq!(proof.iopp_oracles.len(), num_vars + 1);
    assert_eq!(proof.iopp_queries.len(), 90);
    assert_eq!(proof.query_openings.per_query.len(), 90);
    assert!(proof.out_of_domain_responses.is_none());
    assert_eq!(proof.grinding_batching_witness.len(), 2);
    assert_eq!(proof.grinding_query_witness.len(), 2);
}

#[test]
fn pruned_paths_open_and_verify() {
    let s = setup(31, &[vec![7, 5], vec![6]], &[vec![3, 8], vec![2]], &[]);
    let pcs = BaseFoldPcs::new_with_path_pruning(&s.constants, fri(12, 3, 3, 0));
    let (proof, _) = open_and_verify(&pcs, &s);
    assert!(proof.iopp_pruned.is_some());
    assert!(proof.query_openings.per_query.is_empty());
    let pcs = BaseFoldPcs::new_with_path_pruning(&s.constants, fri(12, 0, 0, 2));
    let (proof, _) = open_and_verify(&pcs, &s);
    assert_eq!(proof.final_poly.len(), 4);
}

#[test]
fn tampered_openings_are_refused() {
    let s = setup(5, &[vec![6, 4]], &[vec![4, 2]], &[]);
    let pcs = BaseFoldPcs::new(&s.constants, fri(8, 0, 0, 0));
    let (proof, roots) = open_and_verify(&pcs, &s);
    let one = Ext::one();

    let mut values = s.values.clone();
    values[0][0][0] = Field::add(values[0][0][0], one);
    assert_eq!(
        verdict(&pcs, &s, &roots, &values, &proof),
        Err(BaseFoldError::SumcheckPhaseError)
    );

    let mut values = s.values.clone();
    values[0].pop();
    assert_eq!(
        verdict(&pcs, &s, &roots, &values, &proof),
        Err(BaseFoldError::InvalidInputError)
    );

    let mut bad = proof.clone();
    bad.iopp_queries[0].commit_phase_openings[1].sibling_value = one;
    assert_eq!(
        verdict(&pcs, &s, &roots, &s.values, &bad),
        Err(BaseFoldError::FriFinalStepMisMatch)
    );

    let mut bad = proof.clone();
    let n = bad.iopp_oracles.len();
    bad.iopp_oracles[n - 1][0] = Field::add(bad.iopp_oracles[n - 1][0], Val::one());
    assert_eq!(
        verdict(&pcs, &s, &roots, &s.values, &bad),
        Err(BaseFoldError::CommitmentCheckFailed)
    );

    let mut bad = proof.clone();
    bad.query_openings.per_query[0][0].opened_values[0][0] =
        Field::add(bad.query_openings.per_query[0][0].opened_values[0][0], Val::one());
    assert_eq!(
        verdict(&pcs, &s, &roots, &s.values, &bad),
        Err(BaseFoldError::FriFinalStepMisMatch)
    );

    let mut bad = proof.clone();
    bad.grinding_query_witness.pop();
    assert_eq!(
        verdict(&pcs, &s, &roots, &s.values, &bad),
        Err(BaseFoldError::InvalidInputError)
    );
}

#[test]
fn missing_work_is_refused() {
    let s = setup(6, &[vec![5]], &[vec![2]], &[]);
    let pcs = BaseFoldPcs::new(&s.constants, fri(4, 0, 6, 0));
    let (proof, roots) = open_and_verify(&pcs, &s);
    let mut refused = 0;
    for i in 0..8u32 {
        let mut bad = proof.clone();
        bad.grinding_batching_witness[1] = Val::from_canonical_u32(i + 1000);
        if verdict(&pcs, &s, &roots, &s.values, &bad) == Err(BaseFoldError::InvalidPowWitness) {
            refused += 1;
        }
    }
    assert!(refused > 0);
}

#[test]
fn mismatched_openings_are_not_made() {
    let s = setup(8, &[vec![5]], &[vec![2]], &[]);
    let pcs = BaseFoldPcs::new(&s.constants, fri(4, 0, 0, 0));
    let (_, tree) = pcs.commit(&s.compressed[0]);
    let mut challenger = DuplexChallenger::new(&s.constants);
    let values = vec![vec![vec![Ext::zero(); 3]]];
    let r = pcs.open(&s.compressed, &vec![tree], &s.point, &values, &mut challenger);
    assert!(matches!(r, Err(BaseFoldError::InvalidInputError)));
}

#[test]
fn proofs_that_skip_queries_are_refused() {
    let s = setup(6, &[vec![6, 4]], &[vec![4, 2]], &[]);
    let refused = Err(BaseFoldError::InvalidInputError);
    let pcs = BaseFoldPcs::new(&s.constants, fri(5, 0, 0, 0));
    let (proof, roots) = open_and_verify(&pcs, &s);
    let mut bad = proof.clone();
    bad.iopp_queries.clear();
    assert_eq!(verdict(&pcs, &s, &roots, &s.values, &bad), refused);
    let mut bad = proof.clone();
    bad.iopp_queries.pop();
    assert_eq!(verdict(&pcs, &s, &roots, &s.values, &bad), refused);
    let mut bad = proof.clone();
    bad.query_openings.per_query.pop();
    assert_eq!(verdict(&pcs, &s, &roots, &s.values, &bad), refused);

    let cross = BaseFoldPcs::new_with_cross_round(&s.constants, fri(5, 0, 0, 0));
    let (proof, roots) = open_and_verify(&cross, &s);
    let mut bad = proof.clone();
    bad.iopp_cross_round.pop();
    assert_eq!(verdict(&cross, &s, &roots, &s.values, &bad), refused);
    let mut bad = proof.clone();
    bad.iopp_cross_round.clear();
    assert_eq!(verdict(&cross, &s, &roots, &s.values, &bad), refused);
}

#[test]
fn rows_of_another_width_are_refused() {
    let s = setup(8, &[vec![6, 4]], &[vec![4, 2]], &[]);
    let refused = Err(BaseFoldError::FriFinalStepMisMatch);
    let pcs = BaseFoldPcs::new(&s.constants, fri(5, 0, 0, 0));
    let (proof, roots) = open_and_verify(&pcs, &s);
    let mut bad = proof.clone();
    bad.query_openings.per_query[0][0].opened_values[0].pop();
    assert_eq!(verdict(&pcs, &s, &roots, &s.values, &bad), refused);
    let mut bad = proof.clone();
    bad.query_openings.per_query[0][0].opened_values.pop();
    assert_eq!(verdict(&pcs, &s, &roots, &s.values, &bad), refused);
    let mut bad = proof.clone();
    bad.query_openings.per_query[0].clear();
    assert_eq!(verdict(&pcs, &s, &roots, &s.values, &bad), refused);
    let mut bad = proof.clone();
    bad.iopp_queries[0].commit_phase_openings.clear();
    assert_eq!(verdict(&pcs, &s, &roots, &s.values, &bad), refused);

    let pruned = BaseFoldPcs::new_with_path_pruning(&s.constants, fri(5, 0, 0, 0));
    let (proof, roots) = open_and_verify(&pruned, &s);
    let mut bad = proof.clone();
    let mut opened = bad.query_openings.pruned.unwrap();
    opened.round_opened_values[0][0][0].pop();
    bad.query_openings.pruned = Some(opened);
    assert_eq!(verdict(&pruned, &s, &roots, &s.values, &bad), refused);
    let mut bad = proof.clone();
    let mut opened = bad.query_openings.pruned.unwrap();
    opened.round_pruned.clear();
    bad.query_openings.pruned = Some(opened);
    assert_eq!(
        verdict(&pruned, &s, &roots, &s.values, &bad),
        Err(BaseFoldError::InvalidInputError)
    );
}

#[test]
fn another_form_of_proof_leaves_the_transcript() {
    let s = setup(10, &[vec![5, 4]], &[vec![3, 2]], &[]);
    let pcs = BaseFoldPcs::new(&s.constants, fri(4, 0, 0, 0));
    let cross = BaseFoldPcs::new_with_cross_round(&s.constants, fri(4, 0, 0, 0));
    let (mut proof, roots) = open_and_verify(&pcs, &s);
    let (cross_proof, _) = open_and_verify(&cross, &s);
    proof.query_openings.per_query[0][0].opened_values[0].clear();
    let mut verifier = DuplexChallenger::new(&s.constants);
    let mut other = DuplexChallenger::new(&s.constants);
    assert_eq!(
        cross.verify(&roots, &s.dims, &s.point, &s.values, &proof, &mut verifier),
        Err(BaseFoldError::InvalidInputError)
    );
    assert_eq!(
        pcs.verify(&roots, &s.dims, &s.point, &s.values, &cross_proof, &mut verifier),
        Err(BaseFoldError::InvalidInputError)
    );
    assert_eq!(verifier.sample(), other.sample());
}

#[test]
fn slots_of_the_folded_rows_are_not_read() {
    let s = setup(12, &[vec![6, 4]], &[vec![4, 2]], &[]);
    let mut pcs = BaseFoldPcs::new_with_path_pruning(&s.constants, fri(5, 0, 0, 0));
    let (mut proof, roots) = open_and_verify(&pcs, &s);
    let mut shared = proof.iopp_pruned.unwrap();
    shared.query_to_unique_slot.clear();
    proof.iopp_pruned = Some(shared);
    assert_eq!(verdict(&pcs, &s, &roots, &s.values, &proof), Ok(()));
    pcs.use_cross_round = true;
    let (mut proof, roots) = open_and_verify(&pcs, &s);
    let mut shared = proof.iopp_cross_round_pruned.unwrap();
    for slots in &mut shared.query_to_unique_slot {
        slots.clear();
    }
    proof.iopp_cross_round_pruned = Some(shared);
    assert_eq!(verdict(&pcs, &s, &roots, &s.values, &proof), Ok(()));
}

fn small(n: u32) -> Ext {
    Ext::from_base(Val::from_canonical_u32(n))
}

#[test]
fn elimination_exchanges_rows() {
    let row = |ns: [u32; 3]| -> Vec<Ext> { ns.iter().map(|n| small(*n)).collect() };
    let mut matrix = vec![row([0, 1, 2]), row([1, 0, 3])];
    assert_eq!(gaussian_elimination(&mut matrix), vec![small(3), small(2)]);
    let mut matrix = vec![row([2, 1, 7]), row([4, 1, 11])];
    assert_eq!(gaussian_elimination(&mut matrix), vec![small(2), small(3)]);
}

#[test]
fn one_value_gives_the_constant() {
    let poly = UniPoly::from_evals(&[small(7)]);
    assert_eq!(poly.coeffs, vec![small(7)]);
    let poly = UniPoly::from_evals(&[small(3), small(5), small(11)]);
    assert_eq!(poly.evaluate(&small(2)), small(11));
    assert_eq!(poly.evaluate(&small(3)), small(21));
}

#[test]
fn groups_of_one_round_open_the_same_pairs() {
    let s = setup(14, &[vec![6, 4]], &[vec![4, 2]], &[]);
    let baseline = BaseFoldPcs::new(&s.constants, fri(5, 0, 0, 0));
    let mut single = BaseFoldPcs::new_with_cross_round(&s.constants, fri(5, 0, 0, 0));
    single.max_fold_override = Some(1);
    let (by_round, _) = open_and_verify(&baseline, &s);
    let (by_group, _) = open_and_verify(&single, &s);
    assert_eq!(by_round.iopp_oracles, by_group.iopp_oracles);
    assert_eq!(by_round.iopp_queries.len(), by_group.iopp_cross_round.len());
    for (pairs, rows) in by_round.iopp_queries.iter().zip(&by_group.iopp_cross_round) {
        for (pair, row) in pairs.commit_phase_openings.iter().zip(&rows.group_openings) {
            assert_eq!(row.row_values.len(), 2);
            assert!(row.row_values.contains(&pair.sibling_value));
            assert_eq!(row.opening_proof, pair.opening_proof);
        }
    }
}
