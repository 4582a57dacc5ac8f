//! A port-knocking suite: a daemon-side sequence detector that watches a
//! stream of (source IP, destination port) SYN events, tracks per-client
//! progress, matches completed knock sequences against configured rules, and
//! schedules activation and deactivation commands; plus the client-side rule
//! executor that plans a knock run against a host.

pub mod client_config;
pub mod config;
pub mod knock;
pub mod knock_cli;
pub mod laws;
pub mod lifetime;
pub mod model;
pub mod parser;
pub mod port_sequence;
pub mod sequence;
pub mod sequence_api;
pub mod server;
pub mod strings;
