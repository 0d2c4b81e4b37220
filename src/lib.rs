//! An embedded triple store kept in an ordered key-value tree.
//!
//! Statements (entity, attribute, value) are interned to fixed-width ids and
//! stored as seven index keys, one per field order, so that a plain ordered
//! map can answer a lookup on any combination of bound fields by a prefix
//! scan.

pub mod error;
pub mod codec;
pub mod model;
pub mod store;
pub mod layout;
pub mod write_tx;
pub mod query_tx;

pub use error::LigatureSledError;
