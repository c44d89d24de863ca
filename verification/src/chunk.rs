//! A contiguous group of samples covering a time range.

use vstd::prelude::*;

use crate::metric::Metric;

verus! {

/// A named group of samples between two timestamps.
pub struct Chunk {
    pub id: String,
    pub start_time: u64,
    pub end_time: u64,
    pub metrics: Vec<Metric>,
}

} // verus!
