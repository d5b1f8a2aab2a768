//! A content-addressed, chunked, optionally encrypted overlay stored in a plain
//! git branch: the state graph, its canonical byte schema, the chunking codec,
//! the inner-hash ratchet and the per-ref push rules.

pub mod bytes;
pub mod config;
pub mod wire;
pub mod model;
pub mod table;
pub mod codec;
pub mod embed;
pub mod history;
pub mod push;
pub mod protocol;
pub mod store;
