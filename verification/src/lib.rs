//! The logic of a moon toolchain plugin for .NET.
//!
//! Everything that touches the host (files, processes, the network) is left to the
//! caller: the functions here take what was read or printed as plain values, and give
//! back what to do with it.

pub mod config;
pub mod discovery;
pub mod eval_cache;
pub mod global_json;
pub mod infer_tasks;
pub mod json;
pub mod msbuild;
pub mod nuget;
pub mod project_graph;
pub mod str_map;
pub mod text;
pub mod tier1;
pub mod tier2;
pub mod tier3;
