//! A local-first, schema-migrating document store.
//!
//! Two engines make up the core: a lens/migration engine that evolves record
//! schemas through reversible transformations, and a CRDT document model that
//! reconstructs JSON-shaped documents from a causal operation log.  A thin
//! store facade validates incoming values against a schema version and records
//! rows and fields through a transactional storage backend.

pub mod clock;
pub mod document;
pub mod hlc;
pub mod jtd;
pub mod lens;
pub mod migrator;
pub mod node;
pub mod op;
pub mod pointer;
pub mod schema;
pub mod storage;
pub mod store;
pub mod strmap;
pub mod subscriptions;
pub mod timestamp;
pub mod tsmap;
pub mod type_;
pub mod value;
