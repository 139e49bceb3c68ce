//! Anwesen: a read-only view of a markdown vault.
//!
//! The library holds everything that decides: the query language and its
//! evaluation, the note store, frontmatter coercion, the watcher's event
//! model, and the answers of the HTTP surface. Reading files, listening on
//! sockets and exporting telemetry belong to the program built around it.

pub mod app;
pub mod cli;
pub mod dates;
pub mod documents;
pub mod doctor;
pub mod drift;
pub mod fragments;
pub mod headers;
pub mod health;
pub mod http;
pub mod json;
pub mod lists;
pub mod merge;
pub mod names;
pub mod numbers;
pub mod oneshot;
pub mod outside;
pub mod paths;
pub mod percent;
pub mod query;
pub mod sorted;
pub mod store;
pub mod telemetry;
pub mod text;
pub mod value;
pub mod vault;
pub mod watcher;
pub mod yaml;
