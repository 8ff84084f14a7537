//! Tick-based timers: a hierarchical timing wheel.
//!
//! A timing wheel schedules deferred work items ("timers") to fire after a
//! given number of discrete logical ticks. Four wheels of 64 slots each are
//! composed into levels of increasing granularity, so that delays from 0 up
//! to 64^4 - 1 ticks are supported with O(1) amortized cost per operation.

pub mod scheduler;
pub mod wheel;
