//! Counting the distinct values of a field, exactly within each segment.
//!
//! The result is the sum over segments of the number of distinct values among the matching
//! documents. Identity is local to a segment: a value that occurs in two segments counts twice.
//! A segment may be collected in parts; the parts are merged by union, so that a value in several
//! parts counts once.

pub mod collector;
pub mod column;
mod fx;
pub mod laws;
pub mod limits;
pub mod ord_set;
pub mod results;
pub mod segment_distinct;
pub mod term_ord_set;
