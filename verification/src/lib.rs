//! Capture of timing beacon messages from race-timing hardware: frame
//! reassembly from a raw byte stream, parsing of lap records, an ordered
//! handoff queue, and reconciliation of each record against a store of
//! pending lap slots.

pub mod commands;
pub mod db;
pub mod queue;
pub mod serial;
pub mod timer;
