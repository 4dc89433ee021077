//! A small column-oriented database engine, its query evaluation, its on-disk
//! column codec, and the framing and reply rules of its network protocol.

pub mod text;
pub mod model;
pub mod codec;
pub mod query;
pub mod messages;
pub mod engine;
pub mod semantics;
pub mod protocol;
pub mod laws;
pub mod pool;
pub mod meaning;
