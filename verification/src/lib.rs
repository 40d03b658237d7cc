//! Key recovery for classical substitution ciphers: statistical scoring of
//! candidate decryptions (n-gram log-likelihood plus dictionary coverage),
//! per-cipher key-space strategies, a staged-temperature annealing optimizer,
//! and the aggregation logic of the concurrent search coordinator.
//!
//! Scores are carried as fixed-point integers in micro-log10 units (one
//! millionth of a log10 unit), so that every comparison and blend the search
//! relies on is exact integer arithmetic. Coverage fractions are carried as
//! exact rationals.

pub mod coord;
pub mod freq;
pub mod keyspace;
pub mod perm;
pub mod score;
pub mod simann;
