//! Splits a large line-oriented text file into smaller chunk files, each
//! bounded (best effort) by a maximum on-disk byte size, while repeating a
//! fixed set of leading header lines at the top of every chunk after the
//! first.
//!
//! The splitting decision is made against an in-memory estimate of line
//! size (each line's byte length plus one newline byte), calibrated once
//! against the source file's true on-disk size.  A safety-net correction
//! path re-splits any chunk that is discovered, after writing, to exceed
//! the true maximum.
//!
//! This crate holds the calibration, accumulation and correction logic on
//! plain values (lines as byte vectors).  Reading the source file, writing
//! the chunk files and measuring their on-disk size are left to the caller,
//! who feeds the measured sizes back into the correction state machine.

pub mod measure;
pub mod paths;
pub mod chunker;
pub mod writer;
