//! Privacy-preserving contact matching: dictionary and query structures,
//! exact-token and windowed geotemporal intersection, chunked ingestion,
//! and the fixed-width per-client response format.
pub mod primitives;
pub mod sorted;
pub mod table;
pub mod response;
pub mod query;
pub mod dictionary;
pub mod boundary;
pub mod encoded;
