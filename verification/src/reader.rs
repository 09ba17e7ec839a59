//! The buffered reader behind the decoder: a window of bytes over a source
//! that is asked for more when the window runs out, and that is moved back
//! over what was read ahead when an item is complete.

use crate::errors::DecodeError;
use vstd::prelude::*;
use vstd::slice::slice_subrange;
use vstd::slice::slice_to_vec;

verus! {

/// A source of bytes, as the decoder uses a file: it hands out its content
/// from front to back, and may be able to step back.
///
/// The model of a source is its whole content and the number of bytes
/// handed out so far.
pub trait ByteSource {
    /// Everything that the source holds, handed out or not. A source
    /// that is not verified leaves this open.
    open spec fn content(&self) -> Seq<u8> {
        vstd::pervasive::arbitrary()
    }

    /// Number of bytes handed out so far.
    open spec fn position(&self) -> nat {
        vstd::pervasive::arbitrary()
    }

    /// Whether the source can step back.
    open spec fn can_seek(&self) -> bool {
        vstd::pervasive::arbitrary()
    }

    /// Hands out the next bytes, `amount` of them unless the content ends
    /// before.
    fn read(&mut self, amount: usize) -> (bytes: Vec<u8>)
        requires
            old(self).position() <= old(self).content().len(),
        ensures
            final(self).position() <= final(self).content().len(),
            final(self).content() == old(self).content(),
            final(self).can_seek() == old(self).can_seek(),
            final(self).position() == old(self).position() + bytes@.len(),
            bytes@ == old(self).content().subrange(
                old(self).position() as int,
                old(self).position() as int + bytes@.len() as int,
            ),
            bytes@.len() <= amount,
            bytes@.len() < amount ==> final(self).position() == old(self).content().len(),
    ;

    /// Whether the source can step back.
    fn seekable(&self) -> (r: bool)
        ensures
            r == self.can_seek(),
    ;

    /// Steps back over the last `count` bytes handed out.
    fn unread(&mut self, count: usize)
        requires
            old(self).position() <= old(self).content().len(),
            old(self).can_seek(),
            count <= old(self).position(),
        ensures
            final(self).content() == old(self).content(),
            final(self).can_seek(),
            final(self).position() == old(self).position() - count,
    ;
}

/// A source over bytes in memory.
pub struct SliceSource {
    data: Vec<u8>,
    cursor: usize,
    seekable: bool,
}

impl SliceSource {
    /// A source that hands out `data` and can step back.
    pub fn new(data: Vec<u8>) -> (s: SliceSource)
        ensures
            s.content() == data@,
            s.position() == 0,
            s.can_seek(),
    {
        SliceSource { data, cursor: 0, seekable: true }
    }

    /// A source that hands out `data` and cannot step back.
    pub fn one_way(data: Vec<u8>) -> (s: SliceSource)
        ensures
            s.content() == data@,
            s.position() == 0,
            !s.can_seek(),
    {
        SliceSource { data, cursor: 0, seekable: false }
    }

    /// Number of bytes handed out and not stepped back over.
    pub fn tell(&self) -> (n: usize)
        ensures
            n == self.position(),
    {
        self.cursor
    }
}

impl ByteSource for SliceSource {
    closed spec fn content(&self) -> Seq<u8> {
        self.data@
    }

    closed spec fn position(&self) -> nat {
        self.cursor as nat
    }

    closed spec fn can_seek(&self) -> bool {
        self.seekable
    }

    fn read(&mut self, amount: usize) -> (bytes: Vec<u8>) {
        let left = self.data.len() - self.cursor;
        let n = if amount < left {
            amount
        } else {
            left
        };
        let bytes = slice_to_vec(slice_subrange(self.data.as_slice(), self.cursor, self.cursor + n));
        self.cursor = self.cursor + n;
        bytes
    }

    fn seekable(&self) -> (r: bool) {
        self.seekable
    }

    fn unread(&mut self, count: usize) {
        self.cursor = self.cursor - count;
    }
}

/// The buffered reader.
pub struct Reader<S: ByteSource> {
    pub source: Option<S>,
    /// Least number of bytes asked of a source that can step back.
    pub read_size: usize,
    pub buffer: Vec<u8>,
    pub read_position: usize,
    pub available: usize,
}

impl<S: ByteSource> Reader<S> {
    /// The bytes in the window that have not been consumed.
    pub open spec fn buffered(&self) -> Seq<u8> {
        self.buffer@.subrange(
            self.read_position as int,
            self.read_position as int + self.available as int,
        )
    }

    /// The window lies within the buffer. With a source, the window holds
    /// the bytes that the source handed out last, and a source that cannot
    /// step back has an empty window.
    pub open spec fn wf(&self) -> bool {
        &&& self.read_position + self.available <= self.buffer.len()
        &&& match self.source {
            Some(s) => {
                &&& s.position() <= s.content().len()
                &&& self.available <= s.position()
                &&& self.buffered() =~= s.content().subrange(
                    s.position() - self.available,
                    s.position() as int,
                )
                &&& !s.can_seek() ==> self.available == 0
            },
            None => true,
        }
    }

    /// The bytes ahead: the window, then what the source has yet to hand
    /// out.
    pub open spec fn stream(&self) -> Seq<u8> {
        match self.source {
            Some(s) => self.buffered() + s.content().skip(s.position() as int),
            None => self.buffered(),
        }
    }

    /// Whether the reader stands where `before` stood or further on: the
    /// source holds what it held and has not stepped back.
    pub open spec fn went_on_from(&self, before: &Self) -> bool {
        match (self.source, before.source) {
            (Some(now), Some(then)) => now.content() == then.content() && now.position()
                >= then.position(),
            (None, None) => true,
            _ => false,
        }
    }

    /// A reader over bytes in memory, with no source behind it.
    pub fn from_bytes(data: Vec<u8>) -> (r: Self)
        ensures
            r.wf(),
            r.stream() == data@,
            r.source is None,
    {
        let available = data.len();
        let r = Reader { source: None, read_size: 1, buffer: data, read_position: 0, available };
        assert(r.buffered() =~= data@);
        r
    }

    /// A reader over a source.
    pub fn from_source(source: S, read_size: usize) -> (r: Self)
        requires
            source.position() <= source.content().len(),
        ensures
            r.wf(),
            r.stream() == source.content().skip(source.position() as int),
            r.source == Some(source),
    {
        let r = Reader {
            source: Some(source),
            read_size,
            buffer: Vec::new(),
            read_position: 0,
            available: 0,
        };
        assert(r.buffered() =~= Seq::<u8>::empty());
        assert(r.stream() =~= source.content().skip(source.position() as int));
        r
    }

    /// Reads exactly `amount` bytes.
    ///
    /// Where the window holds fewer, the source is asked for what is
    /// missing, and for no less than `read_size` if it can step back. The
    /// read fails exactly where fewer than `amount` bytes are ahead; the
    /// failure names the bytes that the window lacked and the bytes that
    /// the source still had.
    pub fn read(&mut self, amount: usize) -> (r: Result<Vec<u8>, DecodeError>)
        requires
            old(self).wf(),
        ensures
            final(self).wf(),
            final(self).read_size == old(self).read_size,
            final(self).source is Some == old(self).source is Some,
            final(self).went_on_from(old(self)),
            r is Ok <==> amount <= old(self).stream().len(),
            r matches Ok(bytes) ==> bytes@ == old(self).stream().take(amount as int)
                && final(self).stream() == old(self).stream().skip(amount as int),
            r matches Err(e) ==> e == (DecodeError::PrematureEof {
                expected: (amount - old(self).available) as usize,
                received: (old(self).stream().len() - old(self).available) as usize,
            }),
    {
        if amount <= self.available {
            let bytes = slice_to_vec(
                slice_subrange(
                    self.buffer.as_slice(),
                    self.read_position,
                    self.read_position + amount,
                ),
            );
            proof {
                let b = self.buffered();
                assert(bytes@ =~= b.take(amount as int));
                assert(bytes@ =~= self.stream().take(amount as int));
            }
            let ghost before = *self;
            self.read_position = self.read_position + amount;
            self.available = self.available - amount;
            proof {
                assert(self.buffered() =~= before.buffered().skip(amount as int));
                assert(self.stream() =~= before.stream().skip(amount as int));
            }
            return Ok(bytes);
        }
        let needed = amount - self.available;
        let mut head = slice_to_vec(
            slice_subrange(
                self.buffer.as_slice(),
                self.read_position,
                self.read_position + self.available,
            ),
        );
        let ghost before = *self;
        assert(head@ =~= before.buffered());
        match &mut self.source {
            None => Err(DecodeError::PrematureEof { expected: needed, received: 0 }),
            Some(source) => {
                let floor = if source.seekable() {
                    self.read_size
                } else {
                    1
                };
                let asking = if needed > floor {
                    needed
                } else {
                    floor
                };
                let ghost s0 = *source;
                let fresh = source.read(asking);
                let got = fresh.len();
                if got < needed {
                    self.buffer = Vec::new();
                    self.read_position = 0;
                    self.available = 0;
                    proof {
                        assert(self.buffered() =~= Seq::<u8>::empty());
                        assert(before.stream().len() == before.available + (s0.content().len()
                            - s0.position()));
                    }
                    return Err(DecodeError::PrematureEof { expected: needed, received: got });
                }
                let mut i: usize = 0;
                while i < needed
                    invariant
                        i <= needed <= fresh@.len(),
                        head@ == before.buffered() + fresh@.take(i as int),
                    decreases needed - i,
                {
                    head.push(fresh[i]);
                    proof {
                        assert(fresh@.take(i + 1) =~= fresh@.take(i as int).push(fresh@[i as int]));
                        assert(before.buffered() + fresh@.take(i + 1) =~= (before.buffered()
                            + fresh@.take(i as int)).push(fresh@[i as int]));
                    }
                    i += 1;
                }
                self.buffer = fresh;
                self.read_position = needed;
                self.available = got - needed;
                proof {
                    let s1 = self.source->0;
                    let c = s0.content();
                    let started = s0.position() as int;
                    assert(self.buffered() =~= c.subrange(started + needed, started + got));
                    assert(before.stream() =~= before.buffered() + c.skip(started));
                    assert(head@ =~= before.stream().take(amount as int));
                    assert(self.stream() =~= before.stream().skip(amount as int));
                    assert(got <= asking);
                }
                Ok(head)
            },
        }
    }

    /// Steps the source back over the bytes that were read ahead and not
    /// consumed, and empties the window. Without a source the window stays.
    pub fn rewind_excess(&mut self)
        requires
            old(self).wf(),
        ensures
            final(self).wf(),
            final(self).stream() == old(self).stream(),
            final(self).read_size == old(self).read_size,
            final(self).source is Some == old(self).source is Some,
            final(self).source is Some ==> final(self).available == 0,
    {
        let ghost before = *self;
        let excess = self.available;
        match &mut self.source {
            None => {},
            Some(source) => {
                if excess > 0 {
                    let ghost s0 = *source;
                    source.unread(excess);
                    self.buffer = Vec::new();
                    self.read_position = 0;
                    self.available = 0;
                    proof {
                        assert(self.buffered() =~= Seq::<u8>::empty());
                        let c = s0.content();
                        assert(self.stream() =~= c.skip(s0.position() - excess));
                        assert(before.stream() =~= c.subrange(
                            s0.position() - excess,
                            s0.position() as int,
                        ) + c.skip(s0.position() as int));
                        assert(self.stream() =~= before.stream());
                    }
                }
            },
        }
    }
}

} // verus!
