//! The machine that runs recursion programs, and its tables.
pub mod block;
pub mod builder;
pub mod chips;
pub mod effects;
pub mod event_count;
pub mod execution;
pub mod instruction;
pub mod machine;
pub mod order;
pub mod program;
pub mod record;
pub mod refusals;
pub mod runtime;
pub mod semantics;
pub mod shape;
pub mod shape_config;
pub mod sizes;
pub mod types;
pub mod utils;
