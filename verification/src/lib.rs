//! License consumption for Elasticsearch clusters: configuration checks,
//! per-cluster consumption rules, and the YAML report model with its merge
//! rules.

pub mod text;
pub mod calculation;
pub mod config;
pub mod client;
pub mod report;
pub mod merge;
pub mod cli;
