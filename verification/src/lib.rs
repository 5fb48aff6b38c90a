//! A verified core for a streaming address-record ingestion pipeline.
//!
//! The library models the full path a record takes from a stream of
//! structural events to a keyed store: a record builder that reconstructs
//! address records from flat events, a batch accumulator with a round-robin
//! dispatcher over bounded per-worker queues, an upsert store keyed by record
//! id, and a post-ingestion deduplication pass that collapses groups of rows
//! sharing a postcode. Every function that decides or computes is verified;
//! the binary around it performs the actual file reading and database writes
//! and feeds this library plain values.

pub mod builder;
pub mod dedup;
pub mod ingest;
pub mod pool;
pub mod record;
pub mod store;
pub mod text;
