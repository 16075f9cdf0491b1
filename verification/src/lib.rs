//! Documentation indexing and retrieval for an assistant.
//!
//! Providers fetch and parse the documentation of packages; the coordinator
//! takes a request through resolving, cache look-up, fetching, parsing and
//! committing; the store caches the indexed packages by identity, persists
//! them in a byte layout of its own, and answers ranked searches. Beside the
//! index stand the small decisions that the assistant makes at start and
//! when its settings change: which parts to set up, which language models to
//! select, which slash commands to register, which file a sound is kept in.

pub mod text;
pub mod lexical;
pub mod identity;
pub mod entry;
pub mod digest;
pub mod package;
pub mod error;
pub mod search;
pub mod codec;
pub mod naming;
pub mod store;
pub mod provider;
pub mod registry;
pub mod inflight;
pub mod coordinator;
pub mod actions;
pub mod commands;
pub mod models;
pub mod sound;
pub mod startup;
