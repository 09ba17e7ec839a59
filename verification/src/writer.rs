//! The buffered writer behind the encoder: bytes gather in a buffer that
//! goes to the sink in one piece when it has grown to the high-water mark.

use vstd::prelude::*;

verus! {

/// The length at which the buffer is handed to the sink.
pub const MAX_BUFFER_SIZE: usize = 4096;

/// A sink of bytes, as the encoder uses a file. Its model is everything
/// written to it so far.
pub trait ByteSink {
    /// Everything written so far. A sink that is not verified leaves
    /// this open.
    open spec fn written(&self) -> Seq<u8> {
        vstd::pervasive::arbitrary()
    }

    /// How often the sink was written to. A sink that is not verified
    /// leaves this open.
    open spec fn calls(&self) -> nat {
        vstd::pervasive::arbitrary()
    }

    /// Appends the bytes; this is one more write.
    fn write(&mut self, data: &[u8])
        ensures
            final(self).written() == old(self).written() + data@,
            final(self).calls() == old(self).calls() + 1,
    ;
}

/// A sink that keeps what is written in memory.
pub struct VecSink {
    pub data: Vec<u8>,
    /// The length of each piece that the sink was handed, in the order in
    /// which the pieces came.
    pub pieces: Vec<usize>,
}

impl VecSink {
    /// An empty sink.
    pub fn new() -> (s: VecSink)
        ensures
            s.written() == Seq::<u8>::empty(),
            s.calls() == 0,
    {
        VecSink { data: Vec::new(), pieces: Vec::new() }
    }

    /// How often the sink was written to.
    pub fn writes(&self) -> (n: usize)
        ensures
            n == self.calls(),
    {
        self.pieces.len()
    }
}

impl ByteSink for VecSink {
    open spec fn written(&self) -> Seq<u8> {
        self.data@
    }

    open spec fn calls(&self) -> nat {
        self.pieces@.len()
    }

    fn write(&mut self, data: &[u8]) {
        let mut i: usize = 0;
        while i < data.len()
            invariant
                i <= data@.len(),
                self.pieces == old(self).pieces,
                self.data@ == old(self).data@ + data@.take(i as int),
            decreases data@.len() - i,
        {
            self.data.push(data[i]);
            proof {
                assert(data@.take(i + 1) =~= data@.take(i as int).push(data@[i as int]));
                assert(old(self).data@ + data@.take(i + 1) =~= (old(self).data@ + data@.take(
                    i as int,
                )).push(data@[i as int]));
            }
            i += 1;
        }
        proof {
            assert(data@.take(i as int) =~= data@);
        }
        self.pieces.push(data.len());
    }
}

/// The buffered writer.
pub struct Writer<W: ByteSink> {
    pub sink: Option<W>,
    pub buffer: Vec<u8>,
}

impl<W: ByteSink> Writer<W> {
    /// Everything written through this writer that is still in its reach:
    /// what the sink has, then what the buffer holds.
    pub open spec fn output(&self) -> Seq<u8> {
        match self.sink {
            Some(s) => s.written() + self.buffer@,
            None => self.buffer@,
        }
    }

    /// How often the sink was written to; 0 without a sink.
    pub open spec fn handed_over(&self) -> nat {
        match self.sink {
            Some(s) => s.calls(),
            None => 0,
        }
    }

    /// With a sink, the buffer is below the high-water mark between calls.
    pub open spec fn wf(&self) -> bool {
        self.sink is Some ==> self.buffer@.len() < MAX_BUFFER_SIZE
    }

    /// A writer that gathers everything in its buffer.
    pub fn to_memory() -> (w: Self)
        ensures
            w.wf(),
            w.sink is None,
            w.output() == Seq::<u8>::empty(),
    {
        Writer { sink: None, buffer: Vec::new() }
    }

    /// A writer in front of a sink.
    pub fn to_sink(sink: W) -> (w: Self)
        ensures
            w.wf(),
            w.sink == Some(sink),
            w.output() == sink.written(),
    {
        let w = Writer { sink: Some(sink), buffer: Vec::new() };
        assert(w.output() =~= sink.written());
        w
    }

    /// Hands the buffer to the sink in one write and empties it. Without a
    /// sink the buffer stays.
    pub fn flush(&mut self)
        ensures
            final(self).output() == old(self).output(),
            final(self).sink is Some == old(self).sink is Some,
            final(self).sink is Some ==> final(self).buffer@.len() == 0,
            final(self).sink is Some ==> final(self).handed_over() == old(self).handed_over() + 1,
            final(self).sink is None ==> final(self).buffer == old(self).buffer,
            final(self).wf(),
    {
        match &mut self.sink {
            None => {},
            Some(sink) => {
                sink.write(self.buffer.as_slice());
                self.buffer.clear();
                proof {
                    assert(self.output() =~= old(self).output());
                }
            },
        }
    }

    /// Hands the buffer to the sink if it has reached the high-water mark.
    fn maybe_flush(&mut self)
        ensures
            final(self).output() == old(self).output(),
            final(self).sink is Some == old(self).sink is Some,
            final(self).sink is None ==> final(self).buffer == old(self).buffer,
            final(self).sink is Some ==> if old(self).buffer@.len() >= MAX_BUFFER_SIZE {
                final(self).buffer@.len() == 0 && final(self).handed_over() == old(self).handed_over() + 1
            } else {
                *final(self) == *old(self)
            },
            final(self).wf(),
    {
        if self.sink.is_some() && self.buffer.len() >= MAX_BUFFER_SIZE {
            self.flush();
        }
    }

    /// Appends one byte. With a sink, the buffer is handed over and
    /// emptied when it has reached the high-water mark.
    pub fn write_byte(&mut self, byte: u8)
        ensures
            final(self).output() == old(self).output().push(byte),
            final(self).sink is Some == old(self).sink is Some,
            final(self).sink is None ==> final(self).buffer@ == old(self).buffer@.push(byte),
            final(self).sink is Some ==> if old(self).buffer@.len() + 1 >= MAX_BUFFER_SIZE {
                final(self).buffer@.len() == 0 && final(self).handed_over() == old(self).handed_over() + 1
            } else {
                final(self).sink == old(self).sink && final(self).buffer@ == old(self).buffer@.push(
                    byte,
                )
            },
            final(self).wf(),
    {
        self.buffer.push(byte);
        proof {
            assert(self.output() =~= old(self).output().push(byte));
        }
        self.maybe_flush();
    }

    /// Appends bytes. With a sink, the buffer is handed over in one write
    /// and emptied when it has reached the high-water mark.
    pub fn write(&mut self, bytes: &[u8])
        ensures
            final(self).output() == old(self).output() + bytes@,
            final(self).sink is Some == old(self).sink is Some,
            final(self).sink is None ==> final(self).buffer@ == old(self).buffer@ + bytes@,
            final(self).sink is Some ==> if old(self).buffer@.len() + bytes@.len()
                >= MAX_BUFFER_SIZE {
                final(self).buffer@.len() == 0 && final(self).handed_over() == old(self).handed_over() + 1
            } else {
                final(self).sink == old(self).sink && final(self).buffer@ == old(self).buffer@
                    + bytes@
            },
            final(self).wf(),
    {
        let mut i: usize = 0;
        while i < bytes.len()
            invariant
                i <= bytes@.len(),
                self.sink == old(self).sink,
                self.buffer@ == old(self).buffer@ + bytes@.take(i as int),
            decreases bytes@.len() - i,
        {
            self.buffer.push(bytes[i]);
            proof {
                assert(bytes@.take(i + 1) =~= bytes@.take(i as int).push(bytes@[i as int]));
                assert(old(self).buffer@ + bytes@.take(i + 1) =~= (old(self).buffer@
                    + bytes@.take(i as int)).push(bytes@[i as int]));
            }
            i += 1;
        }
        proof {
            assert(bytes@.take(i as int) =~= bytes@);
            assert(self.output() =~= old(self).output() + bytes@);
        }
        self.maybe_flush();
    }
}

} // verus!
