//! Static analysis of swarm protocols: composition, subscriptions and projections.

pub mod order;
pub mod names;
pub mod ordset;
pub mod ordmap;
pub mod topology;
pub mod graph;
pub mod growth;
pub mod seqs;
pub mod bounds;
pub mod text;
pub mod types;
pub mod swarm;
pub mod machine;
pub mod composition;
