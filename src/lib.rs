//! Streaming quality-control statistics for sequencing reads.
//!
//! Each accumulator consumes one read at a time, keeps per-position
//! tallies that grow with the longest read seen, and derives its
//! distributions when the run is finished.

pub mod adapter;
pub mod arith;
pub mod base_group;
pub mod basic_stats;
pub mod bytes;
pub mod content;
pub mod dup;
pub mod fastqc;
pub mod gc;
pub mod kmer;
pub mod contaminant;
pub mod per_base;
pub mod per_seq;
pub mod quality;
pub mod record;
pub mod seq_len;
pub mod text;
pub mod tile;
