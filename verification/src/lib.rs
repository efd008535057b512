//! Parallel segmentation of delimiter-separated (CSV) byte buffers.
//!
//! A CSV file can be processed in parallel once it is split into byte
//! ranges that each begin at a true record boundary.  The hard part is
//! resynchronization: given an arbitrary byte offset, find the start of
//! the next genuine record, telling boundaries inside quoted fields
//! apart from real record terminators.  This crate provides the sample
//! scanner that bounds record sizes, the segment planner, the resync
//! oracle, and the per-segment counting driver, all verified against
//! a model of the underlying CSV tokenizer.

pub mod driver;
pub mod oracle;
pub mod planner;
pub mod sample;
pub mod tokenizer;
pub mod verdict;
pub mod window;
