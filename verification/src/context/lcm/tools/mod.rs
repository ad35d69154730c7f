//! What the retrieval tools answer.

pub mod describe;
pub mod expand;
pub mod grep;
