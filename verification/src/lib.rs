//! A local-first versioning engine for a tree of text files.
//!
//! Every real change to a watched file becomes an immutable snapshot: the
//! full content is filed in a content-addressed object store, and a row
//! with its hash, a unified diff against the previous version and the line
//! counts goes into the metadata store. Earlier content is restored from
//! the object store by hash; old snapshots are pruned, and with them the
//! objects that nothing refers to any more.
//!
//! - [`history`] holds the engine and the model in which its behaviour is
//!   stated; [`laws`] proves what holds of that model.
//! - [`db`] and [`object_store`] are the two stores; [`table_laws`] proves
//!   what holds of the table of snapshots.
//! - [`diff`] and [`hash`] call the diff and hash libraries.
//! - [`daemon`] decides which events of a file watch lead to a recording,
//!   and [`search`] what the semantic index is asked to do.
//! - [`paths`], [`report`] and [`text`] work on paths and text.
//! - [`ambient`] obtains the time and fresh identifiers.
//!
//! The engine keeps both stores in memory. Reading files, writing the
//! stores to disk, embedding texts and watching the tree are left to the
//! program around it.

pub mod ambient;
pub mod daemon;
pub mod db;
pub mod diff;
pub mod error;
pub mod hash;
pub mod history;
pub mod laws;
pub mod object_store;
pub mod paths;
pub mod report;
pub mod search;
pub mod table_laws;
pub mod text;
