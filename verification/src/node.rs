//! What every provider reports about its nodes.
use vstd::prelude::*;

verus! {

/// A node as listings show it.
#[derive(Debug, Clone)]
pub struct NodeSummary {
    pub name: String,
    pub provider: String,
    pub host: String,
    pub user: String,
    pub port: u16,
    pub labels: Vec<(String, String)>,
}

/// What an inspection found out about a node's host.
#[derive(Debug, Clone)]
pub struct NodeInspection {
    pub name: String,
    pub hostname: Option<String>,
    pub os: Option<String>,
    pub arch: Option<String>,
    pub cpu_cores: Option<u32>,
    pub memory_total_mb: Option<u64>,
    pub disk_total_mb: Option<u64>,
    pub uptime: Option<String>,
}

} // verus!
