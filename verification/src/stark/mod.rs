pub mod chords;
pub mod folder;
pub mod interpolation;
pub mod lagrange;
pub mod keys;
pub mod koalabear_poseidon2;
pub mod layouts;
pub mod lookup;
pub mod machine;
pub mod messages;
pub mod open_ends;
pub mod permutation;
pub mod proof_types;
pub mod septic_curve;
pub mod septic_curve_params;
pub mod septic_digest;
pub mod sumcheck_utils;
pub mod trace;
pub mod written_out;
