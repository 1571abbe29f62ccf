//! A small manager for a personal collection of academic papers: it parses
//! bibliographic records out of a document, derives a deterministic file name
//! for an imported paper, and keeps the resulting entries in a persisted,
//! queryable library.

pub mod codec;
pub mod configuration;
pub mod import;
pub mod library;
pub mod model;
pub mod strutil;
