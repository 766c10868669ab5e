//! Origin-attribution and CIDR-aggregation engine for BGP routing-table
//! snapshots.
//!
//! The library turns a stream of announcement records (prefix, origin ASNs,
//! AS path) into a canonical, non-overlapping partition of address space and,
//! per autonomous system, the minimal union of CIDR blocks it originates.
//! Reading MRT files, command-line handling and cache persistence live
//! outside the library; everything here is verified.

pub mod aggregate;
pub mod arith;
pub mod asn;
pub mod block;
pub mod convert;
pub mod exclude;
pub mod ingest;
pub mod origins;
pub mod paths;
pub mod ranges;
pub mod splits;
