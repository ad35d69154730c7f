//! The decision logic of the kitaebot agent daemon: configuration rules,
//! context management, duty scheduling and the bounded error log. Everything
//! here is computed from plain values; the daemon around it does the I/O.

pub mod config;
pub mod confine;
pub mod context;
pub mod conventions;
pub mod daemon;
pub mod digest;
pub mod dispatch;
pub mod distill;
pub mod duty;
pub mod engine;
pub mod errlog;
pub mod json;
pub mod patterns;
pub mod session;
pub mod table;
pub mod text;
pub mod types;
