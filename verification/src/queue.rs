//! The update queue for the live-serve workflow: append-only and
//! monotonically numbered. A patch pushed as the `n`-th entry carries cursor
//! `n`; an observer holding cursor `c` is owed exactly the entries with
//! cursors `c + 1 ..= len`, in cursor order — exactly-once, in-order
//! delivery however delivery is timed.

use vstd::prelude::*;
use crate::patch::PatchSet;

verus! {

/// An append-only queue of patches with one-based cursors: the entry at
/// index `i` has cursor `i + 1`.
pub struct MessageQueue {
    /// The patches, in push order.
    pub entries: Vec<PatchSet>,
}

impl MessageQueue {
    /// An empty queue; the first pushed patch gets cursor 1.
    pub fn new() -> (q: MessageQueue)
        ensures
            q.entries@.len() == 0,
    {
        MessageQueue { entries: Vec::new() }
    }

    /// The highest cursor handed out so far.
    pub fn latest_cursor(&self) -> (r: usize)
        ensures
            r as int == self.entries@.len(),
    {
        self.entries.len()
    }

    /// Appends a patch and returns its cursor. Cursors grow by exactly one
    /// per push and are never reused.
    pub fn push(&mut self, patch: PatchSet) -> (cursor: usize)
        requires
            old(self).entries@.len() < usize::MAX,
        ensures
            final(self).entries@ == old(self).entries@.push(patch),
            cursor as int == old(self).entries@.len() + 1,
    {
        self.entries.push(patch);
        self.entries.len()
    }

    /// Everything after cursor `cursor`, in cursor order: exactly the
    /// entries with a higher cursor, each delivered once. An observer that
    /// reconnects with the cursor it last saw therefore receives every patch
    /// it missed, in order, exactly once.
    pub fn since<'a>(&'a self, cursor: usize) -> (r: Vec<&'a PatchSet>)
        ensures
            cursor as int <= self.entries@.len() ==> r@.len() == self.entries@.len() - cursor
                as int,
            cursor as int > self.entries@.len() ==> r@.len() == 0,
            forall|i: int|
                0 <= i < r@.len() ==> *(#[trigger] r@[i]) == self.entries@[cursor as int + i],
    {
        let mut out: Vec<&PatchSet> = Vec::new();
        if cursor >= self.entries.len() {
            return out;
        }
        let mut i: usize = cursor;
        while i < self.entries.len()
            invariant
                cursor <= i <= self.entries@.len(),
                out@.len() == i - cursor,
                forall|j: int|
                    0 <= j < out@.len() ==> *(#[trigger] out@[j]) == self.entries@[cursor as int
                        + j],
            decreases self.entries@.len() - i,
        {
            out.push(&self.entries[i]);
            i = i + 1;
        }
        out
    }
}

} // verus!
