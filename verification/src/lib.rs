//! Local filesystem intelligence: a trigram index over file names, a duplicate
//! finder, search filters and directory statistics.
//!
//! The library works on plain values. A front end walks the directory tree, reads
//! file contents, clocks and caches, and hands what it found to the library; the
//! library decides what is recorded, indexed, matched, grouped, ranked and moved.
//!
//! - `scanner`: the walker's rules, from walk entries to file records.
//! - `trigram`, `index`, `frame`, `index_cache`: the trigram index of file names,
//!   its stored form and its cache tiers.
//! - `duplicates`: size bucketing and content fingerprints.
//! - `search`: the search planner, the size and date filters and content matching.
//! - `stats`, `organize`: statistics and the organizing of files into folders.
//! - `mcp`, `cli`: the rules of the JSON-RPC server and of the command line.
//! - `glob`, `paths`, `text`, `time`, `order`, `grouping`, `output`: patterns, paths,
//!   texts, points in time, ranking, grouping and units.

pub mod cli;
pub mod duplicates;
pub mod frame;
pub mod glob;
pub mod grouping;
pub mod index;
pub mod index_cache;
pub mod mcp;
pub mod order;
pub mod organize;
pub mod output;
pub mod paths;
pub mod scanner;
pub mod search;
pub mod stats;
pub mod text;
pub mod time;
pub mod trigram;
