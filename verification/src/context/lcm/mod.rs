//! Lossless context management: raw messages stay in the store, and a graph
//! of summaries over them stands in their place in the context.

pub mod assemble;
pub mod chunks;
pub mod compaction;
pub mod counts;
pub mod engine;
pub mod explore;
pub mod framing;
pub mod ingest;
pub mod report;
pub mod rows;
pub mod store;
pub mod summarize;
pub mod tools;
pub mod survey;
