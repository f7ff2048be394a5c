//! A recurring time-of-day scheduler core.
//!
//! The library holds the verified heart of a daily scheduler: a 24-hour
//! clock ring with wraparound arithmetic, a sorted event table of commands
//! keyed by time of day, the pass that derives advance-notice entries from
//! commands that ask for them, and the dispatch bookkeeping that always
//! knows the next due slot and how long to wait for it. All effects
//! (running programs, playing audio, raising notifications, reading the
//! wall clock) stay outside; callers hand in plain values and receive
//! plain values back.

pub mod config;
pub mod error;
pub mod item;
pub mod parse;
pub mod table;
pub mod time;
