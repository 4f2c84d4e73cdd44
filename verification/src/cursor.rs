//! A reader and a writer over the bytes of a log, each of which knows the
//! position at which it stands.

use vstd::prelude::*;
use vstd::slice::slice_subrange;

verus! {

/// A writer that appends to the bytes of a log.
#[derive(Debug)]
pub struct BufWriterWithPos {
    writer: Vec<u8>,
    pos: u64,
}

impl BufWriterWithPos {
    /// The bytes written so far, with those that the log had.
    pub closed spec fn bytes(&self) -> Seq<u8> {
        self.writer@
    }

    /// The position of the next byte to be written.
    pub closed spec fn position(&self) -> u64 {
        self.pos
    }

    /// The writer stands at the end of its bytes.
    pub open spec fn wf(&self) -> bool {
        self.position() == self.bytes().len()
    }

    /// A writer on the log `inner`, at its end.
    pub fn new(inner: Vec<u8>) -> (writer: BufWriterWithPos)
        ensures
            writer.wf(),
            writer.bytes() == inner@,
    {
        let pos = inner.len() as u64;
        BufWriterWithPos { writer: inner, pos }
    }

    /// The position of the next byte to be written.
    pub fn pos(&self) -> (pos: u64)
        ensures
            pos == self.position(),
    {
        self.pos
    }

    /// Appends `buf` and returns the number of bytes written, which is all
    /// of them.
    pub fn write(&mut self, buf: &[u8]) -> (length: usize)
        requires
            old(self).wf(),
        ensures
            final(self).wf(),
            final(self).bytes() == old(self).bytes() + buf@,
            length == buf@.len(),
    {
        self.writer.extend_from_slice(buf);
        self.pos = self.writer.len() as u64;
        buf.len()
    }

    /// Hands the written bytes on to the log. The log is the writer's own,
    /// so nothing is left to do.
    pub fn flush(&mut self)
        ensures
            *final(self) == *old(self),
    {
    }

    /// The log, with what was written to it.
    pub fn into_inner(self) -> (inner: Vec<u8>)
        ensures
            inner@ == self.bytes(),
    {
        self.writer
    }
}

/// A reader over the bytes of a log.
#[derive(Debug)]
pub struct BufReaderWithPos<'a> {
    reader: &'a [u8],
    pos: u64,
}

impl<'a> BufReaderWithPos<'a> {
    /// The bytes of the log.
    pub closed spec fn bytes(&self) -> Seq<u8> {
        self.reader@
    }

    /// The position of the next byte to be read.
    pub closed spec fn position(&self) -> u64 {
        self.pos
    }

    /// A reader on the log `inner`, at its first byte.
    pub fn new(inner: &'a [u8]) -> (reader: BufReaderWithPos<'a>)
        ensures
            reader.bytes() == inner@,
            reader.position() == 0,
    {
        BufReaderWithPos { reader: inner, pos: 0 }
    }

    /// The position of the next byte to be read.
    pub fn pos(&self) -> (pos: u64)
        ensures
            pos == self.position(),
    {
        self.pos
    }

    /// Moves to the position `pos`, counted from the first byte, and
    /// returns it. A position past the end is one at which nothing is
    /// read.
    pub fn seek(&mut self, pos: u64) -> (now: u64)
        ensures
            final(self).bytes() == old(self).bytes(),
            final(self).position() == pos,
            now == pos,
    {
        self.pos = pos;
        pos
    }

    /// Reads `len` bytes from the position on, or as many as the log has
    /// from there, and moves past them.
    pub fn read(&mut self, len: u64) -> (buf: &'a [u8])
        ensures
            final(self).bytes() == old(self).bytes(),
            old(self).bytes().len() <= usize::MAX,
            buf@ == read_from(old(self).bytes(), old(self).position() as int, len as int),
            final(self).position() == old(self).position() + buf@.len(),
    {
        let end = self.reader.len();
        if self.pos >= end as u64 {
            return slice_subrange(self.reader, end, end);
        }
        let start = self.pos as usize;
        let stop = if len > (end - start) as u64 {
            end
        } else {
            start + len as usize
        };
        self.pos = stop as u64;
        slice_subrange(self.reader, start, stop)
    }
}

/// The bytes that a read of `len` bytes at `pos` yields.
pub open spec fn read_from(bytes: Seq<u8>, pos: int, len: int) -> Seq<u8> {
    if pos >= bytes.len() {
        Seq::empty()
    } else if pos + len > bytes.len() {
        bytes.subrange(pos, bytes.len() as int)
    } else {
        bytes.subrange(pos, pos + len)
    }
}

} // verus!
