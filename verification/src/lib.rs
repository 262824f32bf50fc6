//! A status-bar feed: system readings become coloured display segments, the
//! segments of one sampling cycle become a snapshot, and each snapshot becomes
//! one line of a never-closed JSON array.

pub mod binary;
pub mod collect;
pub mod decimal;
pub mod fixed;
pub mod grammar;
pub mod readings;
pub mod schedule;
pub mod segment;
pub mod snapshot;
pub mod stream;
