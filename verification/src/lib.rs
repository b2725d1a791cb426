//! Verified core of the associative-network experiments.

pub mod activity;
pub mod baseline;
pub mod corpus;
pub mod cycle;
pub mod e0;
pub mod edge;
pub mod grid;
pub mod grow;
pub mod head;
pub mod load;
pub mod next;
pub mod probe;
pub mod rank;
pub mod ring;
pub mod routing;
pub mod run;
pub mod sdr;
pub mod sorted;
pub mod topo;
pub mod topology;
pub mod window;
