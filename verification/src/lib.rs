//! Client-facing core of a schema-driven document database: an
//! order-preserving key codec, typed query descriptions, atomic
//! multi-operation transactions with views kept exactly in step, a
//! multi-database server surface, and a key-value sidestore.

pub mod codec;
pub mod connection;
pub mod document;
pub mod engine;
pub mod error;
pub mod index;
pub mod key;
pub mod kv;
pub mod model;
pub mod names;
pub mod query;
pub mod reduce;
pub mod storage;
pub mod transaction;
pub mod view;
