//! A generic evolutionary search engine.
//!
//! A host supplies a gene type and a fitness function; the engine keeps a
//! ranked population of candidate genomes and improves it by mutation,
//! crossover and culling.

pub mod agent;
pub mod evolution;
pub mod fitness;
pub mod hierarchy;
pub mod manager;
pub mod operations;
pub mod population;
pub mod random;
pub mod ranking;
