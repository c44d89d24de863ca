//! An embedded time-series metrics storage engine.
//!
//! Samples arrive as timestamped, labeled metrics.  They are held in memory
//! keyed by series name, appended to an append-only durability log, and
//! periodically flushed to per-series segment files.  The binary record
//! format is shared by the on-disk log, the segment files and the wire
//! protocol.  All file and socket handling lives outside this crate; the
//! functions here compute the bytes to write and interpret the bytes read.

use vstd::prelude::*;

pub mod arena;
pub mod chunk;
pub mod codec;
pub mod db;
pub mod filename;
pub mod metric;
pub mod protocol;
pub mod serializable;
pub mod skip_list;
pub mod sorted_list;
pub mod store;
pub mod trie;
pub mod wal;

verus! {

/// The failure taxonomy of the engine: a record or field that does not
/// decode, a query for a series never inserted into, a filesystem failure
/// (reported by the surrounding process, never produced here), and a wire
/// request with an unknown control byte or malformed framing.
#[derive(Debug, Clone, Copy, PartialEq, Eq, Structural)]
pub enum StoreError {
    Decode,
    NotFound,
    Io,
    Protocol,
}

} // verus!
