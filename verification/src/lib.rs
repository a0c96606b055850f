//! Text merging and diff rendering on raw bytes.
//!
//! `merge` combines any number of base and side versions of a text into one
//! buffer, or localises the regions on which they disagree. `diff` cuts a
//! two-way comparison into per-line records with independent line numbers on
//! each side. Both work on a stream of hunks produced by a line aligner.

pub mod align;
pub mod describe;
pub mod hunk;
pub mod lines;
pub mod merge;
pub mod settings;
pub mod ui;
