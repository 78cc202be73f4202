//! Time tracking on a plain list of activities: starting, stopping, changing
//! and cancelling activities, and grouping them into duration reports.
use vstd::prelude::*;

pub mod activity;
pub mod bartib_file;
pub mod format_util;
pub mod getter;
pub mod manipulation;
pub mod report;
pub mod report_lines;
pub mod text;
pub mod time;

verus! {
} // verus!
