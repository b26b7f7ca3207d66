//! The logic of an in-process e-cash federation benchmark.

pub mod client;
pub mod coins;
pub mod consensus;
pub mod engine;
pub mod events;
pub mod federation;
pub mod items;
pub mod metrics;
pub mod network;
pub mod node;
pub mod plan;
pub mod report;
mod sequences;
