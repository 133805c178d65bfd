//! Verified building blocks of the zkdtvm STARK verifier.
pub mod basefold;
pub mod bits;
pub mod field;
pub mod recursion;
pub mod stark;
pub mod verify;
