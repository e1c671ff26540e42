//! Best-match resolution for reads aligned to a reference genome.
//!
//! A read may overlap several annotated genomic regions; for each such read
//! exactly one region must be chosen, by how much of the read's aligned
//! footprint falls inside each candidate region.  The crate decodes CIGAR
//! strings into reference intervals, merges them, scores region overlap,
//! partitions candidate rows into unambiguous and ambiguous groups, selects
//! the best candidate per ambiguous read, and assembles a deterministically
//! ordered result table.

pub mod assemble;
pub mod cigar;
pub mod coverage;
pub mod intervals;
pub mod partition;
pub mod pipeline;
pub mod records;
pub mod select;
