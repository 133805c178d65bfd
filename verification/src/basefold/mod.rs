//! The BaseFold multilinear polynomial commitment scheme.
pub mod answers;
pub mod agreement;
pub mod batch;
pub mod batching;
pub mod challenger;
pub mod completeness;
pub mod encode;
pub mod eqpoly;
pub mod ext_mmcs;
pub mod fold;
pub mod gauss;
pub mod groups;
pub mod honest;
pub mod honest_pruned;
pub mod honest_queries;
pub mod input_openings;
pub mod linear;
pub mod math;
pub mod mlpoly;
pub mod mmcs;
pub mod pcs;
pub mod poseidon;
pub mod opening;
pub mod openings;
pub mod polynomials;
pub mod prove_rounds;
pub mod prover;
pub mod pruned;
pub mod pruned_groups;
pub mod pruned_soundness;
pub mod query;
pub mod query_soundness;
pub mod rounds;
pub mod schedule;
pub mod soundness;
pub mod sponge;
pub mod sumcheck;
pub mod unipoly;
pub mod verdict;
pub mod verification;
pub mod whir;
pub mod whir_query;
pub mod whir_rounds;
pub mod whir_soundness;
pub mod whir_sumcheck;
pub mod whir_honest;
pub mod whir_honest_queries;
pub mod word_answers;
pub mod whir_prover;
pub mod whir_opening;
pub mod whir_completeness;
