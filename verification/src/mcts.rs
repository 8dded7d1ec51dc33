//! The tree search: its bookkeeping, its root schedules, its policy net's
//! shapes and encodings.

pub mod action_id;
pub mod budget;
pub mod flow;
pub mod gumbel;
pub mod mirror;
pub mod moves;
pub mod net;
pub mod parallel;
pub mod pool;
pub mod rebase;
pub mod rng;
pub mod search;
pub mod tree;
