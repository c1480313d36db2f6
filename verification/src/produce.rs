//! Producing: choosing partitions, encoding batches, numbering them, and
//! deciding what to send and re-send.

pub mod accumulator;
pub mod accumulator_laws;
pub mod actor_laws;
pub mod config;
pub mod dispatch;
pub mod dispatch_laws;
pub mod encode;
pub mod encode_laws;
pub mod idempotence;
pub mod partition;
pub mod partition_laws;
pub mod producer;
pub mod record;
pub mod run;
pub mod send;
pub mod send_laws;
pub mod transactions;
