//! Grid layout for ancestry graphs.
//!
//! Turns a linear, newest-first walk of a directed ancestry graph (for
//! example a commit history) into a row-by-row grid: one row per node,
//! one column per branch alive at that row, plus the connector links
//! needed to draw merge and fork diagonals between adjacent rows.
//! A small renderer derives fixed-width text lines from each row, and a
//! one-shot promise state machine backs the event plumbing that callers
//! may build around the engine.

pub mod dag_layout;
pub mod promise;
pub mod render;
