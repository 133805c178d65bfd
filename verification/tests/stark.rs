use zkdtvm_stark_verifier::basefold::challenger::DuplexChallenger;
use zkdtvm_stark_verifier::basefold::mmcs::Matrix;
use zkdtvm_stark_verifier::basefold::poseidon::RoundConstants;
use zkdtvm_stark_verifier::field::extension::BinomialExtension;
use zkdtvm_stark_verifier::field::koala_bear::KoalaBear;
use zkdtvm_stark_verifier::field::{ExtensionField, Field, PrimeField32};
use zkdtvm_stark_verifier::recursion::machine::decimal_text;
use zkdtvm_stark_verifier::recursion::shape::HeightMap;
use zkdtvm_stark_verifier::stark::interpolation::{
    barycentric_weights, interpolate_univariate_polynomial,
};
use zkdtvm_stark_verifier::stark::keys::{
    digest_residues, Dimensions, SCStarkProvingKey, SCStarkVerifyingKey,
};
use zkdtvm_stark_verifier::stark::koalabear_poseidon2::{
    compressed_fri_config, default_fri_config, inner_fri_config, root_shrink_fri_config,
    shrink_fri_config, ultra_compressed_fri_config, Overrides,
};
use zkdtvm_stark_verifier::stark::lookup::{
    Interaction, InteractionScope, PairCol, VirtualPairCol,
};
use zkdtvm_stark_verifier::stark::machine::{
    ordered_chips, MachineVerificationError, SCStarkMachine,
};
use zkdtvm_stark_verifier::stark::permutation::{
    count_permutation_constraints, generate_compressed_permutation_trace,
    generate_permutation_trace, local_permutation_trace_width,
    random_combination,
};
use zkdtvm_stark_verifier::stark::proof_types::SCMachineProof;
use zkdtvm_stark_verifier::stark::septic_digest::SepticDigest;
use zkdtvm_stark_verifier::stark::sumcheck_utils::{
    compute_num_chips_each_round, compute_powers_of_alpha, deinterleave, get_first_sel_packed,
    get_last_sel_packed, linear_combination_slices, products_all_but_one,
};
use zkdtvm_stark_verifier::stark::trace::{CompressedMatrix, PaddingRow};

type Val = KoalaBear;
type Ext = BinomialExtension<KoalaBear>;

fn val(n: u32) -> Val {
    Val::from_canonical_u32(n)
}

fn vals(ns: &[u32]) -> Vec<Val> {
    ns.iter().map(|n| val(*n)).collect()
}

fn ext(n: u32) -> Ext {
    Ext::from_base(val(n))
}

fn column(i: usize) -> VirtualPairCol<Val> {
    VirtualPairCol { column_weights: vec![(PairCol::Main(i), val(1))], constant: val(0) }
}

fn message(i: usize, mult: u32) -> Interaction<Val> {
    Interaction {
        values: vec![column(i)],
        multiplicity: VirtualPairCol { column_weights: vec![], constant: val(mult) },
        argument_index: 3,
        scope: InteractionScope::Local,
    }
}

#[test]
fn affine_column_is_weighted_sum() {
    let v = VirtualPairCol {
        column_weights: vec![(PairCol::Main(1), val(10)), (PairCol::Preprocessed(0), val(100))],
        constant: val(7),
    };
    assert_eq!(v.apply(&vals(&[2]), &vals(&[5, 3])), val(237));
    assert_eq!(v.apply_ext::<Ext>(&vec![ext(2)], &vec![ext(5), ext(3)]), ext(237));
}

#[test]
fn matching_messages_cancel() {
    let main = Matrix { values: vals(&[4, 9, 9, 4]), width: 2 };
    let random = vec![ext(1000), ext(17)];
    let sends = vec![message(0, 1)];
    let receives = vec![message(1, 1)];
    let (trace, sum) =
        generate_permutation_trace(&sends, &receives, None, &main, &random, 1).unwrap();
    assert_eq!(trace.width, 2);
    assert_eq!(trace.values.len(), 4);
    assert_eq!(sum, Ext::zero());
    let (_, unbalanced) =
        generate_permutation_trace(&sends, &vec![], None, &main, &random, 1).unwrap();
    assert_ne!(unbalanced, Ext::zero());
    assert_eq!(local_permutation_trace_width(7, 3), 3);
    assert_eq!(local_permutation_trace_width(0, 0), 0);
    let count = count_permutation_constraints(&sends, &receives, 2, InteractionScope::Local);
    assert_eq!(count, 2);
}

#[test]
fn vanishing_combination_has_no_trace() {
    let main = Matrix { values: vals(&[4]), width: 1 };
    let sends = vec![message(0, 1)];
    let beta = ext(2);
    let zero = random_combination::<Val, Ext>(Ext::zero(), beta, 3, &vec![ext(4)]);
    let alpha = Field::sub(Ext::zero(), zero);
    let random = vec![alpha, beta];
    assert!(generate_permutation_trace(&sends, &vec![], None, &main, &random, 1).is_none());
}

#[test]
fn digest_sums_start_from_the_same_point() {
    let none: Vec<SepticDigest<Val>> = vec![];
    assert!(SepticDigest::sum(&none).unwrap().is_zero());
    assert!(SepticDigest::<Val>::zero_for_field().is_zero());
    assert!(!SepticDigest::<Val>::starting_digest_for_field().is_zero());
}

#[test]
fn empty_proof_is_refused() {
    let machine = SCStarkMachine::new((), vec![], vec![], 0, false);
    let constants = RoundConstants {
        external: (0..8).map(|i| vals(&[i; 16])).collect(),
        internal: vals(&[9; 20]),
    };
    let mut challenger = DuplexChallenger::<Val>::new(&constants);
    let mut fresh = challenger.duplicate();
    let vk = SCStarkVerifyingKey {
        commit: vals(&[1, 2, 3, 4, 5, 6, 7, 8]),
        pc_start: val(0),
        initial_global_cumulative_sum: SepticDigest::zero_for_field(),
        chip_information: vec![],
        chip_ordering: HeightMap::new(),
        constraints_map: HeightMap::new(),
    };
    let proofs: SCMachineProof<Val, Ext> = SCMachineProof { shard_proofs: vec![] };
    let outcome = machine.verify::<Val, Ext, u8>(&vk, &proofs, &mut challenger, vec![]);
    assert!(matches!(outcome, Err(MachineVerificationError::EmptyProof)));
    assert_ne!(challenger.sample(), fresh.sample());
}

#[test]
fn errors_say_what_failed() {
    let say = |e: MachineVerificationError<u8>| e.message("why");
    assert_eq!(say(MachineVerificationError::InvalidShardProof(1)), "Invalid shard proof: why");
    assert_eq!(say(MachineVerificationError::InvalidGlobalProof(1)), "Invalid global proof: why");
    assert_eq!(
        say(MachineVerificationError::NonZeroCumulativeSum(InteractionScope::Global, 12)),
        "Non-zero cumulative sum.  Scope: Global, Shard: 12",
    );
    assert_eq!(say(MachineVerificationError::EmptyProof), "Empty proof");
    assert_eq!(say(MachineVerificationError::TooManyShards), "Too many shards");
    assert_eq!(
        say(MachineVerificationError::CpuLogDegreeTooLarge(30)),
        "CPU log degree too large: 30",
    );
    assert_eq!(
        say(MachineVerificationError::InvalidVerificationKey),
        "Invalid verification key",
    );
    assert_eq!(decimal_text(0), "0");
    assert_eq!(decimal_text(90210), "90210");
}

#[test]
fn tables_stand_in_the_order_of_their_places() {
    let names: Vec<String> = ["a", "b", "c", "d"].iter().map(|s| s.to_string()).collect();
    let mut order = HeightMap::new();
    order.insert("d".to_string(), 0);
    order.insert("a".to_string(), 1);
    order.insert("c".to_string(), 2);
    assert_eq!(ordered_chips(&names, &order), vec![3, 0, 2]);
}

#[test]
fn smaller_tables_join_later() {
    assert_eq!(compute_num_chips_each_round(&[6, 4, 4, 2], 2, 2), vec![1, 1, 3, 3, 4]);
    assert_eq!(compute_num_chips_each_round(&[3], 1, 0), vec![1, 1, 1]);
}

#[test]
fn powers_descend_for_each_table() {
    let powers = compute_powers_of_alpha(val(2), &vec![3, 1]);
    assert_eq!(powers, vec![vals(&[4, 2, 1]), vals(&[8])]);
}

#[test]
fn products_leave_one_factor_out() {
    assert_eq!(products_all_but_one(&vals(&[2, 3, 5, 7])), vals(&[105, 70, 42, 30]));
    assert_eq!(products_all_but_one(&vals(&[9])), vals(&[1]));
    assert_eq!(deinterleave(&[1, 2, 3, 4]), (vec![1, 3], vec![2, 4]));
    let (a, b) = (vals(&[1, 2]), vals(&[3, 4]));
    assert_eq!(linear_combination_slices(&vals(&[10, 100]), &[&a, &b]), vals(&[310, 420]));
}

#[test]
fn selectors_mark_the_first_and_last_rows() {
    assert_eq!(get_first_sel_packed(0, val(5), 8, 8, 4), vals(&[5, 0, 0, 0]));
    assert_eq!(get_first_sel_packed(4, val(5), 8, 8, 4), vals(&[0, 0, 0, 0]));
    assert_eq!(get_last_sel_packed(4, val(5), 8, 8, 4), vals(&[0, 0, 0, 5]));
    assert_eq!(get_last_sel_packed(0, val(5), 8, 8, 4), vals(&[0, 0, 0, 0]));
}

#[test]
fn interpolation_takes_the_given_values() {
    let p = interpolate_univariate_polynomial(&vals(&[1, 2, 3]), &vals(&[6, 11, 18]));
    assert_eq!(p.coefficients, vals(&[3, 2, 1]));
    let weights = barycentric_weights(&vals(&[1, 2, 3]), &val(10));
    let ys = vals(&[6, 11, 18]);
    let at_ten = weights.iter().zip(&ys).fold(val(0), |s, (w, y)| Field::add(s, Field::mul(*w, *y)));
    assert_eq!(at_ten, val(123));
}

#[test]
fn padding_rows_are_filled_in() {
    let matrix = CompressedMatrix {
        main: vals(&[1, 2]),
        width: 2,
        padding_row: PaddingRow::Zero { width: 2 },
        total_height: 4,
    };
    assert_eq!(matrix.decompress().values, vals(&[1, 2, 0, 0, 0, 0, 0, 0]));
}

fn overrides() -> Overrides {
    Overrides {
        fri_queries: None,
        log_final_poly_len: None,
        cross_round_shrink: None,
        cross_round_root: None,
        path_pruning: None,
    }
}

#[test]
fn configurations_have_their_defaults() {
    let o = overrides();
    for config in [
        default_fri_config(&o),
        inner_fri_config(&o),
        compressed_fri_config(&o),
        shrink_fri_config(&o),
        root_shrink_fri_config(&o),
        ultra_compressed_fri_config(&o),
    ] {
        assert_eq!(config.grinding_bits_query, 20);
        assert_eq!(config.grinding_bits_batching, 10);
        assert!(config.num_queries > 0 && config.log_blowup > 0);
    }
    assert_eq!(root_shrink_fri_config(&o).log_final_poly_len, 6);
    assert_eq!(shrink_fri_config(&o).log_final_poly_len, 4);
    let mut set = overrides();
    set.fri_queries = Some(3);
    assert_eq!(default_fri_config(&set).num_queries, 3);
}

#[test]
fn key_is_hashed_with_its_tables() {
    let key = SCStarkVerifyingKey {
        commit: vals(&[1, 2, 3, 4, 5, 6, 7, 8]),
        pc_start: val(9),
        initial_global_cumulative_sum: SepticDigest::zero(),
        chip_information: vec![
            ("Ab".to_string(), Dimensions { width: 10, height: 32 }),
            ("\u{e9}".to_string(), Dimensions { width: 11, height: 64 }),
        ],
        chip_ordering: HeightMap::new(),
        constraints_map: HeightMap::new(),
    };
    let sum = key.initial_global_cumulative_sum;
    let inputs = key.hash_inputs();
    assert_eq!(inputs.len(), 8 + 1 + 14 + 5 + 5);
    assert_eq!(digest_residues(&inputs[..9].to_vec()), vec![1, 2, 3, 4, 5, 6, 7, 8, 9]);
    assert_eq!(inputs[9..16], sum.0.x.0);
    assert_eq!(inputs[16..23], sum.0.y.0);
    assert_eq!(
        digest_residues(&inputs[23..].to_vec()),
        vec![10, 32, 2, 65, 98, 11, 64, 2, 0xc3, 0xa9]
    );
}

#[test]
fn preprocessed_tables_are_found_by_name() {
    let mut chip_ordering = HeightMap::new();
    chip_ordering.insert("a".to_string(), 1);
    chip_ordering.insert("b".to_string(), 0);
    let plain = CompressedMatrix::new(vals(&[1, 2]), 2, 4);
    let general = CompressedMatrix {
        main: vals(&[3]),
        width: 1,
        padding_row: PaddingRow::General(vals(&[7])),
        total_height: 2,
    };
    let key = SCStarkProvingKey {
        commit: vals(&[0; 8]),
        pc_start: val(0),
        initial_global_cumulative_sum: SepticDigest::zero(),
        traces: vec![plain.clone(), general.clone()],
        chip_ordering,
        local_only: vec![true, true],
        constraints_map: HeightMap::new(),
    };
    let names = vec!["b".to_string(), "c".to_string(), "a".to_string()];
    let copies = key.get_preprocessed_traces_for_open(&names);
    assert_eq!(copies, vec![Some(plain.clone()), None, Some(general.clone())]);
    let found = key.get_preprocessed_compressed_for_chips(&names);
    assert_eq!(found, vec![Some(&plain), None, Some(&general)]);
}

#[test]
fn weights_give_every_polynomial_of_low_degree() {
    let xs = vals(&[2, 5, 11, 7]);
    let coefficients = vals(&[4, 0, 3, 9]);
    let at = |x: KoalaBear| {
        coefficients.iter().rev().fold(val(0), |s, c| Field::add(Field::mul(s, x), *c))
    };
    for target in [val(100), val(11), val(0)] {
        let weights = barycentric_weights(&xs, &target);
        let sum =
            weights.iter().zip(&xs).fold(val(0), |s, (w, x)| Field::add(s, Field::mul(*w, at(*x))));
        assert_eq!(sum, at(target));
    }
    let ys: Vec<KoalaBear> = xs.iter().map(|x| at(*x)).collect();
    assert_eq!(interpolate_univariate_polynomial(&xs, &ys).coefficients, coefficients);
}

#[test]
fn padded_trace_written_out_is_the_full_one() {
    let main = CompressedMatrix {
        main: vals(&[4, 9, 7, 2, 5, 5]),
        width: 2,
        padding_row: PaddingRow::Constant { value: val(3), width: 2 },
        total_height: 8,
    };
    let random = vec![ext(1000), ext(17)];
    let sends = vec![message(0, 1), message(1, 2)];
    let receives = vec![message(1, 1)];
    let (padded, padded_sum) =
        generate_compressed_permutation_trace(&sends, &receives, None, &main, &random, 2).unwrap();
    let (full, sum) =
        generate_permutation_trace(&sends, &receives, None, &main.decompress(), &random, 2)
            .unwrap();
    assert_eq!(padded.main.len(), 6);
    assert_eq!(padded.decompress().values, full.values);
    assert_eq!(padded_sum, sum);
}

#[test]
fn digests_add_up_in_either_order() {
    let zero = SepticDigest::<Val>::zero_for_field();
    let start = SepticDigest::<Val>::starting_digest_for_field();
    let a = SepticDigest(start.0.add_incomplete(&zero.0).unwrap());
    let b = SepticDigest(a.0.add_incomplete(&zero.0).unwrap());
    let forth = SepticDigest::sum(&vec![a.clone(), b.clone()]).unwrap();
    let back = SepticDigest::sum(&vec![b.clone(), a.clone()]).unwrap();
    assert_eq!(forth, back);
    assert!(SepticDigest::sum(&vec![start.clone(), b.clone()]).is_none());
}
