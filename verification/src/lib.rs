//! Discovery and query of the host machine's CPU topology: logical cores,
//! physical cores, packages (sockets) and NUMA nodes, reconstructed from the
//! per-core enumeration data that the operating system exposes as text files,
//! and served as an immutable in-memory model.
//!
//! The library holds the logic: parsing the enumeration text, folding the
//! per-core probe results into the three keyed collections, and the lookup
//! surface with its guarantees. Reading the files, identifying the hardware
//! and caching the one process-wide instance are left to the embedding
//! program, which hands plain values in and out.

pub mod bitmap;
pub mod parse;
pub mod topology;
