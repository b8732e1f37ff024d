//! Lambo's write path: receipts, lanes and durable intents, and the rules of the store
//! behind them.

pub mod answers;
pub mod boundary;
pub mod calendar;
pub mod calibration;
pub mod counters;
pub mod job;
pub mod lanes;
pub mod laws;
pub mod limits;
pub mod pipeline;
pub mod probe;
pub mod queue_laws;
pub mod receipt;
pub mod receipts;
pub mod seqs;
pub mod store;
pub mod text;
pub mod time;
pub mod told;
pub mod types;
