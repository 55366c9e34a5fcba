//! Native sector format helpers for DiskANN sidecars.

pub mod codec;
pub mod layout;
pub mod node;
pub mod reader;
pub mod sidecar;
