//! Locates bit-level byte patterns in an image and patches bytes after
//! checking them against a recorded baseline.
pub mod pattern;
pub mod scan;
pub mod resolve;
pub mod patch;
