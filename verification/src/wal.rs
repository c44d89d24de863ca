//! The append-only durability log's write path.
//!
//! Records are buffered as they arrive; every `flush_interval`-th write
//! hands the buffered bytes back to the caller to append to the log file,
//! and on shutdown the caller drains whatever remains.  Nothing is ever
//! reordered or dropped: the bytes flushed so far followed by the bytes
//! still buffered are exactly the bytes written, in order.  The log file
//! itself is created and appended to by the surrounding process; this type
//! only decides what to write and when.

use vstd::prelude::*;

verus! {

/// The buffered writer of the durability log.
pub struct WalWriter {
    buffer: Vec<u8>,
    counter: u64,
    flush_interval: u64,
}

impl WalWriter {
    /// The bytes written but not yet handed back for appending.
    pub closed spec fn buffered(self) -> Seq<u8> {
        self.buffer@
    }

    /// How many records have been written since the log was opened.
    pub closed spec fn writes(self) -> u64 {
        self.counter
    }

    /// The flush cadence: every `interval()`-th write flushes.
    pub closed spec fn interval(self) -> u64 {
        self.flush_interval
    }

    pub closed spec fn wf(self) -> bool {
        self.flush_interval > 0
    }

    /// A writer for a log file the caller newly created; flushes every
    /// 10th write.
    pub fn new() -> (r: WalWriter)
        ensures
            r.wf(),
            r.buffered() == Seq::<u8>::empty(),
            r.writes() == 0,
            r.interval() == 10,
    {
        WalWriter { buffer: Vec::new(), counter: 0, flush_interval: 10 }
    }

    /// A writer wrapping a log file the caller reopened; flushes every
    /// 100th write.
    pub fn open() -> (r: WalWriter)
        ensures
            r.wf(),
            r.buffered() == Seq::<u8>::empty(),
            r.writes() == 0,
            r.interval() == 100,
    {
        WalWriter { buffer: Vec::new(), counter: 0, flush_interval: 100 }
    }

    /// Append one record to the buffer.  Exactly on every `interval()`-th
    /// write the full buffer — every byte written since the last flush,
    /// in order — is handed back for the caller to append to the log file.
    pub fn write(&mut self, bin: &[u8]) -> (flush: Option<Vec<u8>>)
        requires
            old(self).wf(),
            old(self).writes() < u64::MAX,
        ensures
            final(self).wf(),
            final(self).interval() == old(self).interval(),
            final(self).writes() == old(self).writes() + 1,
            (old(self).writes() + 1) % (old(self).interval() as int) == 0 ==> (flush matches Some(b)
                && b@ == old(self).buffered() + bin@ && final(self).buffered()
                == Seq::<u8>::empty()),
            (old(self).writes() + 1) % (old(self).interval() as int) != 0 ==> flush is None
                && final(self).buffered() == old(self).buffered() + bin@,
    {
        let mut bytes = vstd::slice::slice_to_vec(bin);
        self.buffer.append(&mut bytes);
        self.counter = self.counter + 1;
        if self.counter % self.flush_interval == 0 {
            let mut out: Vec<u8> = Vec::new();
            core::mem::swap(&mut out, &mut self.buffer);
            Some(out)
        } else {
            None
        }
    }

    /// How many records have been written since the log was opened.
    pub fn write_count(&self) -> (r: u64)
        ensures
            r == self.writes(),
    {
        self.counter
    }

    /// Drain the buffer without counting a write: the shutdown flush.
    pub fn take_buffered(&mut self) -> (r: Vec<u8>)
        requires
            old(self).wf(),
        ensures
            final(self).wf(),
            final(self).interval() == old(self).interval(),
            final(self).writes() == old(self).writes(),
            r@ == old(self).buffered(),
            final(self).buffered() == Seq::<u8>::empty(),
    {
        let mut out: Vec<u8> = Vec::new();
        core::mem::swap(&mut out, &mut self.buffer);
        out
    }
}

} // verus!
