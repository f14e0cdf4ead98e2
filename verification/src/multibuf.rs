//! The shared-output buffer: each aggregation task batches its output
//! lines and hands them over in bounded batches, so that the one lock on
//! the shared output stream is taken once per batch instead of once per
//! line. No line is lost and none is handed over twice: every write either
//! keeps the line buffered or returns the previous batch whole.

use vstd::prelude::*;

verus! {

/// How many lines a buffer holds before a write hands the batch over.
pub const BUF_CAPACITY: usize = 1024;

/// A bounded buffer of output lines for one aggregation task.
pub struct MultiBuf {
    pub buffer: Vec<String>,
}

impl MultiBuf {
    /// An empty buffer.
    pub fn new() -> (b: MultiBuf)
        ensures
            b.buffer@.len() == 0,
    {
        MultiBuf { buffer: Vec::with_capacity(BUF_CAPACITY) }
    }

    /// Drains the buffer and returns every buffered line, in order, for
    /// the caller to write under the output lock.
    pub fn flush(&mut self) -> (r: Vec<String>)
        ensures
            r@ == old(self).buffer@,
            final(self).buffer@.len() == 0,
    {
        let mut drained: Vec<String> = Vec::new();
        core::mem::swap(&mut drained, &mut self.buffer);
        drained
    }

    /// Buffers one line. When the buffer is already full, the previous
    /// batch is returned whole (to be written under the output lock) and
    /// the new line opens the next batch; so every line written here is
    /// handed over exactly once, by a later write or a final flush.
    pub fn write(&mut self, data: String) -> (r: Option<Vec<String>>)
        ensures
            old(self).buffer@.len() < BUF_CAPACITY ==> r is None && final(self).buffer@ == old(
                self,
            ).buffer@.push(data),
            old(self).buffer@.len() >= BUF_CAPACITY ==> (match r {
                Option::Some(b) => b@ == old(self).buffer@ && final(self).buffer@ == seq![data],
                Option::None => false,
            }),
    {
        let mut flushed: Option<Vec<String>> = None;
        if self.buffer.len() >= BUF_CAPACITY {
            flushed = Some(self.flush());
        }
        self.buffer.push(data);
        proof {
            if old(self).buffer@.len() >= BUF_CAPACITY {
                assert(self.buffer@ =~= seq![data]);
            }
        }
        flushed
    }
}

} // verus!
