//! Streaming extraction of identifier/number records from a row-oriented tag
//! document, and the batching and bookkeeping around their bulk insertion.

pub mod record;
pub mod xml;
pub mod parser;
pub mod batch;
pub mod summary;
