//! The tables of the machine: their rows, their constraints and their accesses to memory.
pub mod alu_base;
pub mod alu_ext;
pub mod chains;
pub mod columns;
pub mod ext_exp_reverse_bits;
pub mod mem;
pub mod poseidon2_skinny;
pub mod poseidon2_skinny_kb;
pub mod poseidon2_wide_kb;
pub mod prefix_sum_checks;
pub mod rows;
pub mod select;
pub mod sumcheck_round;
