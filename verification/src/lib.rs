//! Augments a per-file source-metrics report with derived columns: for each
//! configured pattern group, every data row gains a count of the lines in
//! that row's file matching at least one pattern in the group.

pub mod insight;
pub mod report;
pub mod text;
