//! Cover relation (Hasse-diagram edges) of the set-inclusion partial order
//! over a family of finite sets drawn from a bounded universe.
//!
//! Sets are packed bit vectors bucketed by cardinality; the engine scans, for
//! each element, only the buckets of strictly greater cardinality and keeps
//! exactly the minimal strict supersets as edge targets.

pub mod bitset;
pub mod graph;
pub mod engine;
pub mod laws;
pub mod ingest;
pub mod solcheck;
