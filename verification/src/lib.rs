//! The logic of a bridge between HDFS and a blocking caller.
//!
//! * [`pattern`], [`component`], [`braces`] and [`glob`] compile glob patterns
//!   and match names against them; [`meaning`], [`groups`], [`selection`] and
//!   [`choice`] say what a pattern means and what it selects.
//! * [`walk`] schedules directory walks; [`coverage`], [`reach`], [`names`],
//!   [`once`] and [`guarantees`] say what a walk hands out, and [`listings`] and
//!   [`candidates`] what it lists.
//! * [`stream`] drains a walk in batches; [`drain`] says what the caller gets.
//! * [`error`], [`report`] and [`entry`] hold what the caller is told: error
//!   categories, messages and file metadata.

pub mod braces;
pub mod candidates;
pub mod choice;
pub mod component;
pub mod coverage;
pub mod drain;
pub mod entry;
pub mod error;
pub mod glob;
pub mod groups;
pub mod guarantees;
pub mod listings;
pub mod meaning;
pub mod names;
pub mod once;
pub mod pattern;
pub mod reach;
pub mod report;
pub mod selection;
pub mod stream;
pub mod text;
pub mod walk;
