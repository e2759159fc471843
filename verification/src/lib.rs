//! Partitioned columnar storage core: change-deduplicated merges of
//! time-series readings, date-partition layout, retention decisions, and the
//! dirty-file ledger that feeds the remote upload cycle.
//!
//! - [`readings`] models a source's observations and splits a batch by
//!   payload kind; [`grouping`] partitions each kind by its
//!   reference-timezone calendar date.
//! - [`values`] and [`bids`] hold the two merge engines: latest-state
//!   compaction for metric values, an append-only change log for bids.
//! - [`numeric`] is the near-zero tolerance test on 64-bit float bit
//!   patterns; [`laws`] proves the merge laws (re-merge idempotence,
//!   append-only history, one row per interval).
//! - [`layout`], [`fmtnum`], [`serialize`] and [`storage`] lay partitions
//!   out on disk: paths, column order and row order.
//! - [`dirty`] is the changed-file ledger; [`retention`] decides which day
//!   partitions are expired; [`pool`] and [`config`] hold the scheduler's
//!   and configuration's decisions; [`tz`] binds the reference timezone.
pub mod bids;
pub mod config;
pub mod dirty;
pub mod fmtnum;
pub mod grouping;
pub mod laws;
pub mod layout;
pub mod numeric;
pub mod pool;
pub mod readings;
pub mod retention;
pub mod serialize;
pub mod storage;
pub mod tz;
pub mod values;
