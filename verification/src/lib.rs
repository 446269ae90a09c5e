//! Verified core of the Orionis runtime-intelligence engine and its Rust agent.

pub mod agent;
pub mod aggregate;
pub mod analysis;
pub mod auth;
pub mod cluster;
pub mod graph;
pub mod hashing;
pub mod ingest;
pub mod models;
pub mod sorting;
pub mod store;
pub mod text;
pub mod timeline;
pub mod wal;
