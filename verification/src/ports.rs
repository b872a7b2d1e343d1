//! Byte-level input and output ports for the execution engine.
//!
//! The engine does no input or output of its own: it is handed a sink that
//! consumes one byte per call and a source that produces one byte per call.
//! Each port carries the history of the bytes that have passed through it, so
//! the engine's contracts can say exactly what was written and read.

use vstd::prelude::*;

verus! {

/// An output port: consumes one byte per call.
pub trait ByteSink {
    /// The history of every byte consumed so far, oldest first.
    spec fn bytes(&self) -> Seq<u8>;

    /// Consume one byte.
    fn put_byte(&mut self, b: u8)
        ensures
            final(self).bytes() == old(self).bytes().push(b),
    ;
}

/// An input port: produces one byte per call, possibly blocking. Nothing is
/// promised of the bytes themselves, only that each call hands out exactly
/// one and records it.
pub trait ByteSource {
    /// The history of every byte produced so far, oldest first.
    spec fn reads(&self) -> Seq<u8>;

    /// Produce one byte.
    fn get_byte(&mut self) -> (b: u8)
        ensures
            final(self).reads() == old(self).reads().push(b),
    ;
}

/// A sink that collects every byte it is handed into a vector.
pub struct VecSink {
    /// The bytes consumed so far, oldest first.
    pub data: Vec<u8>,
}

impl VecSink {
    /// An empty sink.
    pub fn new() -> (s: VecSink)
        ensures
            s.bytes() == Seq::<u8>::empty(),
    {
        VecSink { data: Vec::new() }
    }
}

impl ByteSink for VecSink {
    open spec fn bytes(&self) -> Seq<u8> {
        self.data@
    }

    fn put_byte(&mut self, b: u8) {
        self.data.push(b);
    }
}

/// A source that hands out a fixed queue of bytes in order and zeroes once
/// the queue is exhausted, recording every byte handed out.
pub struct QueueSource {
    /// The bytes to hand out, in order.
    pub queue: Vec<u8>,
    /// How many bytes of the queue have been handed out.
    pub cursor: usize,
    /// The bytes produced so far, oldest first.
    pub history: Vec<u8>,
}

impl QueueSource {
    /// A source that will hand out the bytes of `queue` in order.
    pub fn new(queue: Vec<u8>) -> (s: QueueSource)
        ensures
            s.reads() == Seq::<u8>::empty(),
            s.queue@ == queue@,
            s.cursor == 0,
    {
        QueueSource { queue, cursor: 0, history: Vec::new() }
    }
}

impl ByteSource for QueueSource {
    open spec fn reads(&self) -> Seq<u8> {
        self.history@
    }

    fn get_byte(&mut self) -> (b: u8)
        ensures
            final(self).queue == old(self).queue,
            old(self).cursor < old(self).queue.len() ==> b == old(self).queue[old(self).cursor as int]
                && final(self).cursor == old(self).cursor + 1,
            old(self).cursor >= old(self).queue.len() ==> b == 0 && final(self).cursor == old(
                self,
            ).cursor,
    {
        let b: u8 = if self.cursor < self.queue.len() {
            let x = self.queue[self.cursor];
            self.cursor = self.cursor + 1;
            x
        } else {
            0
        };
        self.history.push(b);
        b
    }
}

} // verus!
