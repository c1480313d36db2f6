//! Reading a partition: tolerant decoding of fetched batches, forward scans
//! and backward tails.

pub mod backward;
pub mod batch;
pub mod batch_laws;
pub mod cursor_laws;
pub mod decode_laws;
pub mod decompress;
pub mod event_laws;
pub mod fetch;
pub mod filter;
pub mod log;
pub mod offsets;
pub mod plan_laws;
pub mod record;
pub mod scan;
pub mod scan_laws;
pub mod scan_state;
pub mod tail;
pub mod tail_laws;
pub mod tail_step_laws;
