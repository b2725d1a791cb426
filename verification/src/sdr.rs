//! Continual learning of relational facts over a stream of domains.

pub mod bank;
pub mod collision;
pub mod facts;
pub mod graph;
pub mod schedule;
pub mod source;
pub mod tally;
pub mod walk;
