//! Chunk-level comparison of two lines of text.
//!
//! A line is split into chunks on a set of separator characters, optionally
//! case-folded and sorted; the two chunk sequences are aligned by a line diff
//! and the alignment is turned into a three-column report.

pub mod chunks;
pub mod compare;
pub mod config;
pub mod line;
pub mod report;

pub use chunks::{chars_of, join_chunks, split, split_text};
pub use compare::{compare, diff, Comparison};
pub use config::{Config, InputSource, LineSource};
pub use line::{two_lines, LineData, TwoLines};
pub use report::{render, render_rows, MergeState, Report, ReportRow, Segment, SummaryRow};
