//! Discrete-event simulator for a self-organizing, prefix-routed
//! peer-to-peer network with node ageing and dynamic section split/merge.
//!
//! The 64-bit name space is partitioned into sections identified by binary
//! prefixes. Sections host nodes, split when they grow, merge when they
//! shrink, and relocate nodes between each other as churn accumulates.

pub mod churn;
pub mod network;
pub mod node;
pub mod params;
pub mod pending;
pub mod prefix;
pub mod rng;
pub mod section;
