//! A testbed for studying how coverage-guided mutation fuzzing scales with
//! worker count and corpus-sharing policy. A synthetic target with an exactly
//! known coverage and crash surface is generated at random, and a simulated
//! multi-worker engine fuzzes it until full coverage or a time budget expires.

pub mod bitalloc;
pub mod engine;
pub mod rng;
pub mod target;
