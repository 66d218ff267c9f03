use vstd::prelude::*;

pub mod text;
pub mod command_gate;
pub mod digest;
pub mod keyed;
pub mod dedup;
pub mod detective;
pub mod diagnostics;
pub mod dir_cache;
pub mod embeddings;
pub mod file_diff;
pub mod file_ops;
pub mod file_search;
pub mod fork_advisor;
pub mod grounding;
pub mod hash_chain;
pub mod hosts;
pub mod incident;
pub mod indexer;
pub mod inventory_drift;
pub mod keys;
pub mod knowledge_graph;
pub mod local;
pub mod log_analysis;
pub mod memory;
pub mod memory_graph;
pub mod regexes;
pub mod remote_files;
pub mod mcp;
pub mod sentinels;
pub mod snapshots;
pub mod web_search;

verus! {
} // verus!
