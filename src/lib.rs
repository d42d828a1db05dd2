//! A typed, schema-aware configuration store.
//!
//! Settings are typed values that are read from and rendered to text, kept in
//! a store that pairs a schema of known keys (with defaults and descriptions)
//! with persisted overrides.
pub mod backend;
pub mod document;
pub mod keyed;
pub mod setting;
pub mod store;
pub mod text;
