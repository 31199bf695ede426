//! A fleet of service deployment manifests, with two engines over them:
//! a dependency graph builder (transitive from one entry point, or flat
//! over a whole fleet) and a resource / rollout estimator that aggregates
//! compute demand and predicts rolling-update duration.

pub mod errors;
pub mod manifest;
pub mod math;
pub mod graph;
pub mod render;
pub mod slack;
