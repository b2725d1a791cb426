//! The end-to-end bench: its sources, its yardsticks and its protocol.

pub mod coder;
pub mod haystack;
pub mod markov;
pub mod needles;
pub mod plan;
pub mod trails;
