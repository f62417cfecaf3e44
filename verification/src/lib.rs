//! Vocabulary flashcard library: a progress store of word/answer pairs
//! grouped by category, split into a "learn" pool and a "complete" pool,
//! with a session controller and a persistence codec.

pub mod codec;
mod ext;
pub mod rng;
pub mod session;
pub mod store;
