//! The logic of a semantic code indexer for ChromaDB.
//!
//! A repository is cut into chunks, each with an id made of its place and its text,
//! and the collection of the repository is kept in step with its files. The library
//! decides; it makes no request, reads no file and watches nothing.
//!
//! From text to records:
//! - `text`, `splitlines`, `paths`: text, lines and POSIX paths as values.
//! - `digest`, `config`: digests, tables, settings and the names of collections.
//! - `grammar`, `syntax`, `chunk`, `chunkfile`: syntax trees, chunks and records.
//! - `places`: where chunks stand in their file.
//! - `walk`: which files are indexed and which directories are watched.
//!
//! From records to the database:
//! - `store`, `ids`: what is stored, and sets of ids.
//! - `oneshot`: a scan of a repository.
//! - `daemon`: live updates.
//! - `manifest`: which chunks each root refers to.
//! - `chroma`: addresses and answers of the database.
//!
//! The service for many roots:
//! - `registry`: which roots are active.
//! - `service`: routing of events, starting and stopping, garbage collection.
//! - `report`: the steps of a run, and what the program says.
//!
//! What holds of every run of steps is stated with `steps`.
pub mod chroma;
pub mod chunk;
pub mod chunkfile;
pub mod config;
pub mod daemon;
pub mod digest;
pub mod grammar;
pub mod ids;
pub mod manifest;
pub mod oneshot;
pub mod paths;
pub mod places;
pub mod registry;
pub mod report;
pub mod service;
pub mod splitlines;
pub mod steps;
pub mod store;
pub mod syntax;
pub mod text;
pub mod walk;
