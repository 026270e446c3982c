//! Comparison of two directory trees by file name.
//!
//! Files found under two roots are grouped by their file name; every group
//! records where the name occurs on each side and with what size, and is
//! classified as a match, a size mismatch, or present on one side only.

pub mod group;
pub mod labels;
pub mod laws;
pub mod listing;
pub mod session;
pub mod size;
pub mod text;
