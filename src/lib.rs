//! A static-file engine for virtual hosts: site lookup by host and mount
//! prefix, contained path resolution, cache validators and conditional GET,
//! and a per-request dispatcher that hands filesystem work to its caller.

pub mod bytes;
pub mod cache;
pub mod dispatch;
pub mod laws;
pub mod registry;
pub mod resolve;
