//! summdb: an embedded index for OCI container registry metadata.
//!
//! The library holds the verified core: the binary key schema, the record
//! types and their encodings, the repository interner, tag reconciliation and
//! the queries over stored records.
pub mod api;
pub mod bytes;
pub mod codec;
pub mod engine;
pub mod error;
pub mod import;
pub mod interner;
pub mod keys;
pub mod layers;
pub mod link;
pub mod ops;
pub mod registry;
pub mod sorting;
pub mod text;
pub mod types;
pub mod views;
