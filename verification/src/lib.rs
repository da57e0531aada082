//! Verified core of the fyrer monorepo task runner.
pub mod strings;
pub mod task_id;
pub mod env_map;
pub mod config;
pub mod tasks;
pub mod error;
pub mod graph;
pub mod env;
pub mod env_parser;
pub mod paths;
pub mod sort;
pub mod runner;
pub mod workspace;
pub mod hash;
pub mod orchestrator;
pub mod scheduler;
pub mod cache;
pub mod global;
pub mod logs;
pub mod types;
pub mod cli;
pub mod pipeline;
pub mod kill_process;
pub mod monitor;
