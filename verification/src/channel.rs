//! The fan-out core of a channel: a single transmitter appends chunks to a
//! bounded log, and each listener follows the log with its own cursor.
//!
//! A listener that falls behind farther than the channel's capacity misses
//! chunks: its cursor is pulled forward to the oldest retained chunk. It
//! never sees a chunk out of order, and the transmitter never waits for it.
//! Locking and wake-ups live outside; this type holds the lossy-ordering
//! logic itself.

use vstd::prelude::*;
use crate::chunk::{Chunk, ChunkModel};

verus! {

pub struct Channel {
    buffer: Vec<Chunk>,
    base: usize,
    capacity: usize,
    closed: bool,
    history: Ghost<Seq<ChunkModel>>,
}

impl Channel {
    /// Every chunk ever sent on this channel, in order.
    pub closed spec fn log(&self) -> Seq<ChunkModel> {
        self.history@
    }

    /// The position of the oldest chunk still retained.
    pub closed spec fn base_spec(&self) -> int {
        self.base as int
    }

    /// How many chunks the channel retains for slow listeners.
    pub closed spec fn capacity_spec(&self) -> int {
        self.capacity as int
    }

    /// Whether the transmitter is gone.
    pub closed spec fn is_closed(&self) -> bool {
        self.closed
    }

    /// The retained suffix mirrors the tail of the log; constructors
    /// establish this and every method preserves it.
    pub closed spec fn wf(&self) -> bool {
        self.history@.len() == self.base + self.buffer@.len() && self.history@.len()
            <= usize::MAX && self.capacity >= 1
            && self.buffer@.len() <= self.capacity && forall|i: int|
            0 <= i < self.buffer@.len() ==> (#[trigger] self.buffer@[i])@ == self.history@[
                self.base + i
            ]
    }

    pub fn new(capacity: usize) -> (r: Channel)
        requires
            capacity >= 1,
        ensures
            r.wf(),
            r.log() == Seq::<ChunkModel>::empty(),
            !r.is_closed(),
            r.capacity_spec() == capacity,
    {
        Channel {
            buffer: Vec::new(),
            base: 0,
            capacity,
            closed: false,
            history: Ghost(Seq::empty()),
        }
    }

    /// The transmitter appends one chunk. When the channel is full the
    /// oldest retained chunk is dropped; nothing ever blocks on a listener.
    pub fn send(&mut self, chunk: Chunk)
        requires
            old(self).wf(),
            old(self).log().len() < usize::MAX,
        ensures
            final(self).wf(),
            final(self).log() == old(self).log().push(chunk@),
            final(self).is_closed() == old(self).is_closed(),
            final(self).capacity_spec() == old(self).capacity_spec(),
    {
        if self.buffer.len() >= self.capacity {
            self.buffer.remove(0);
            self.base = self.base + 1;
        }
        let ghost c = chunk@;
        self.buffer.push(chunk);
        proof {
            self.history@ = self.history@.push(c);
        }
    }

    /// The transmitter is gone; once the retained chunks are delivered,
    /// listeners see end of stream.
    pub fn close(&mut self)
        requires
            old(self).wf(),
        ensures
            final(self).wf(),
            final(self).log() == old(self).log(),
            final(self).is_closed(),
            final(self).capacity_spec() == old(self).capacity_spec(),
    {
        self.closed = true;
    }

    /// Whether the transmitter is gone, for a listener deciding between
    /// waiting and ending.
    pub fn closed_now(&self) -> (r: bool)
        ensures
            r == self.is_closed(),
    {
        self.closed
    }

    /// One pull by a listener whose cursor stands at `pos`: the chunk at
    /// `pos`, or at the oldest retained position if the listener has fallen
    /// behind the channel's capacity, together with the cursor for the next
    /// pull. Positions only ever move forward, so a listener receives a
    /// subsequence of the log, in order, and never anything twice.
    pub fn read_at(&self, pos: usize) -> (r: (Option<&Chunk>, usize))
        requires
            self.wf(),
        ensures
            ({
                let start = if pos >= self.base_spec() {
                    pos as int
                } else {
                    self.base_spec()
                };
                match r.0 {
                    Option::Some(c) => start < self.log().len() && c@ == self.log()[start] && r.1
                        == start + 1 && r.1 > pos,
                    Option::None => start >= self.log().len() && r.1 == start && r.1 >= pos,
                }
            }),
    {
        let start = if pos >= self.base {
            pos
        } else {
            self.base
        };
        if start - self.base < self.buffer.len() {
            let c = &self.buffer[start - self.base];
            (Option::Some(c), start + 1)
        } else {
            (Option::None, start)
        }
    }
}

} // verus!
