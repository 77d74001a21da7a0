//! Incremental build engine core: the product graph and its renderings,
//! scheduling, cache keys and cache decisions, exit codes, file discovery,
//! configuration loading, defaults and hashing, and text helpers.

pub mod exit_code;
pub mod text;
pub mod checksum;
pub mod cache_key;
pub mod glob_match;
pub mod graph;
pub mod order;
pub mod display;
pub mod lexical;
pub mod config;
pub mod executor;
pub mod file_index;
pub mod download;
pub mod deps_cache;
pub mod graph_render;
pub mod object_store;
pub mod json_text;
pub mod json_output;
pub mod config_diff;
pub mod ignore;
