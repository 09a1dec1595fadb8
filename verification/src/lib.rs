//! NebulaDNS: an authoritative DNS server's core logic, verified with Verus.
//!
//! The crate holds the RFC 1035 wire codec, the in-memory zone model with its
//! mutation rules, the authoritative answer path, and the control-plane logic
//! (bearer-token authentication, the hash-chained audit log, the record API
//! request pipeline and the MCP tool planner).

pub mod wire;
pub mod text;
pub mod zone;
pub mod addr;
pub mod metrics;
pub mod server;
pub mod api;
pub mod http;
pub mod mcp;
pub mod cli;
pub mod config;
