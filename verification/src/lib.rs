//! A verified core for a proof-of-work / proof-of-reflection blockchain simulator.
pub mod types;
pub mod collections;
pub mod hash;
pub mod rng;
pub mod transactions;
pub mod block;
pub mod block_metadata;
pub mod chain;
pub mod msg;
pub mod cryptosystem;
pub mod node;
pub mod strategies;
pub mod message_manager;
pub mod cli;
pub mod state;
