//! yuzu — the verified structural core of a panel-based equity backtesting
//! engine: packed trading-day codes and the calendar, series naming, the
//! per-symbol and combined CSV files, panel reshaping and alignment, boolean
//! signals, rebalance schedules, delisting detection, deterministic
//! resampling, the warm panel cache, the load plans of a run, strategy spec
//! trees and parameter grids, and the research window schedules.

pub mod error;
pub mod fields;
pub mod text;
pub mod date;
pub mod resample;
pub mod calendar;
pub mod rebalance;
pub mod panel;
pub mod align;
pub mod assemble;
pub mod rebuild;
pub mod cache;
pub mod research;
pub mod execution;
pub mod csv;
pub mod combined;
pub mod archive;
pub mod plans;
pub mod signals;
pub mod spec_tree;
