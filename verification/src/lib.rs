//! Kafka client logic: batching and encoding of produced records, tolerant
//! reading of fetched ones, and the reports a live check prints.

pub mod compression;
pub mod error;
pub mod keyed;
pub mod livetest;
pub mod produce;
pub mod read;
pub mod testkit;
pub mod text;
pub mod text_laws;
pub mod view_laws;
pub mod wire;
