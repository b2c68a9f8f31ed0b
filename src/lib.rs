//! Storage gateway logic for a searchable symmetric encryption scheme: index
//! catalog, signed request checking, key schema and compare-and-swap storage.
pub mod catalog;
pub mod codec;
pub mod counter;
pub mod error;
pub mod index;
pub mod keys;
pub mod kv;
pub mod remote;
pub mod service;
pub mod signature;
pub mod storage;
