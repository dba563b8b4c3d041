//! Pseudo-random blocks for comparing concurrency strategies: a shared
//! lock-free linear congruential generator, private per-task generators
//! seeded from it, and the block operations that the strategies share.

pub mod block;
pub mod frandom;
pub mod period;
pub mod pipeline;
