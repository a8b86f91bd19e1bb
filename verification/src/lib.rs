//! An in-memory catalog of structured log files: line discovery, escape
//! sequence removal, record reconstruction, field extraction, filtering,
//! column resolution and incremental updates.
//!
//! The way from bytes to rows leads through [`scan`] (where the lines
//! stand), [`sanitize`] (what text they show), [`record`] (which lines make
//! a record), [`json`] and [`extract`] (what a record holds) to [`indexer`],
//! which makes a [`catalog`] of many files. [`filter`], [`columns`] and
//! [`visible`] answer queries over a catalog; [`watch`] and [`batch`] say
//! what changed on disk, and [`engine`] keeps a catalog, its filters and its
//! selection in step with those changes.
//!
//! The library reads no file and starts no thread: a caller hands it bytes
//! and listings, and acts on the events and reports it gets back.

pub mod batch;
pub mod catalog;
pub mod columns;
pub mod display;
pub mod distance;
pub mod engine;
pub mod extract;
pub mod filter;
pub mod flat;
pub mod indexer;
pub mod json;
pub mod keys;
pub mod model;
pub mod number;
pub mod order;
pub mod producer;
pub mod record;
pub mod sanitize;
pub mod scan;
pub mod text;
pub mod visible;
pub mod watch;
