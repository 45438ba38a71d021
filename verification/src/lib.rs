//! Per-station temperature aggregation over delimited text.
//!
//! The input is a run of records `name ";" temperature "\n"`: a station
//! name of up to a hundred bytes and a fixed-point reading with one
//! fractional digit, scaled to an integer throughout the pipeline. The
//! crate provides the three hot subsystems and the driver around them:
//!
//! * [`byte_buffer`] — SWAR byte scanning: 32-byte window delimiter masks
//!   and first-occurrence search;
//! * [`temperature`] — the decimal reading parsed to, and written from, a
//!   signed integer scaled by ten;
//! * [`hash_table`] — the fixed-capacity open-addressed aggregation table
//!   with a five-slot probe window;
//! * [`driver`] — the streaming drivers that cut records out of windows
//!   and fold every reading into the table;
//! * [`report`] — the sorted `{name=min/mean/max, ...}` report;
//! * [`records`] — the input grammar and the fold the drivers promise;
//! * [`properties`] — the laws: split-independence and the guarantee that
//!   a successful fold leaves exactly the per-station reductions.

pub mod byte_buffer;
pub mod driver;
pub mod hash_table;
pub mod properties;
pub mod records;
pub mod report;
pub mod temperature;
