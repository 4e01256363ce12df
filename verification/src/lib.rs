//! Twinz: a small key-value server built around a Bitcask-style log store.
//!
//! The verified library holds the logic of the server: the on-disk entry
//! format, the in-memory key directory of the log store and its replay and
//! compaction rules, the length-prefixed frame codec, the configuration file
//! grammar, address resolution and plugin selection.
pub mod wire;
pub mod format;
pub mod keydir;
pub mod log;
pub mod text;
pub mod engine;
pub mod laws;
pub mod codec;
pub mod plugin;
pub mod address;
pub mod config;
pub mod kv;
pub mod wasm;
pub mod client;
