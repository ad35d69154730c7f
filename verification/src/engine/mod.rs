//! The first context engines: smaller than those of [`crate::context`], with
//! which they share the shape of requests and statistics.
//!
//! They do not watch what the provider reports, do not limit tool output, and
//! accept any summary that is shorter than what it stands for.

pub mod ephemeral;
pub mod explore;
pub mod flat;
pub mod lcm;
pub mod summarize;

pub use crate::context::{AssembledContext, CompactionEvent, ContextStats, SessionInfo};
