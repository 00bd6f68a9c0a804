//! Verified core of a seismic / environmental sensor network: reading
//! classification, ingest planning, edge-packet framing, and the decisions
//! of the replication worker and the replication endpoint.
//!
//! Floating-point sensor values never enter this crate as floats: they are
//! carried as their IEEE-754 bit patterns, and every comparison the service
//! makes on them is stated and proved over those bit patterns.

pub mod ieee;
pub mod metrics;
pub mod text;
pub mod ingest;
pub mod frame;
pub mod sync;
pub mod service;
pub mod round;
