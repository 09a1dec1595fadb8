//! The control-plane API logic: bearer-token authentication, the
//! hash-chained audit log and the record write pipeline.

pub mod auth;
pub mod audit;
pub mod records;
pub mod limits;
pub mod write;
pub mod health;
pub mod handlers;
