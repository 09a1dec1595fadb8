//! The Model Context Protocol server's logic: its protocol values, the tool
//! catalogue, the planning of each tool call, and the routing of requests.
pub mod protocol;
pub mod tools;
pub mod catalogue;
pub mod server;
