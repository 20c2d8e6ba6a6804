//! Forge: a compute broker for coding agents. This library holds the logic of
//! its SSH provider: node records and their validation, the node store,
//! command construction for the system `ssh` client, host inspection and
//! the tables the command line prints.
pub mod text;
pub mod error;
pub mod paths;
pub mod config;
pub mod store;
pub mod client;
pub mod node;
pub mod inspect;
pub mod provider;
pub mod table;
pub mod cli;
