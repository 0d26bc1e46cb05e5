//! A reader and a writer over the bytes of one log segment, each with a
//! running position, so that offsets are known without asking anyone.

use vstd::prelude::*;
use vstd::slice::slice_subrange;
use vstd::string::StringExecFns;
use crate::error::KvsError;

verus! {

/// Reads the bytes of a segment front to back and knows where it stands.
pub struct BufReaderWithPos<'a> {
    pub data: &'a [u8],
    pub pos: u64,
}

impl<'a> BufReaderWithPos<'a> {
    /// The bytes between the position and the end.
    pub open spec fn rest(&self) -> Seq<u8> {
        if self.pos <= self.data@.len() {
            self.data@.subrange(self.pos as int, self.data@.len() as int)
        } else {
            Seq::empty()
        }
    }

    /// A reader at the start of the bytes.
    pub fn new(data: &'a [u8]) -> (reader: Self)
        ensures
            reader.data@ == data@,
            reader.pos == 0,
    {
        BufReaderWithPos { data, pos: 0 }
    }

    /// How many bytes are left to read.
    pub fn remaining(&self) -> (n: usize)
        ensures
            n == self.rest().len(),
    {
        let len = self.data.len();
        if self.pos <= len as u64 {
            len - self.pos as usize
        } else {
            0
        }
    }

    /// Whether the reader stands at or behind the end.
    pub fn is_empty(&self) -> (empty: bool)
        ensures
            empty == (self.rest().len() == 0),
    {
        self.remaining() == 0
    }

    /// Reads up to `n` bytes, fewer only where the end comes first, and
    /// moves past them.
    pub fn read(&mut self, n: usize) -> (bytes: &'a [u8])
        ensures
            final(self).data == old(self).data,
            bytes@.len() == if n <= old(self).rest().len() {
                n as nat
            } else {
                old(self).rest().len()
            },
            bytes@ == old(self).rest().subrange(0, bytes@.len() as int),
            final(self).pos == old(self).pos + bytes@.len(),
    {
        let left = self.remaining();
        if left == 0 {
            return slice_subrange(self.data, 0, 0);
        }
        let len = self.data.len();
        assert(self.pos < len && left == len - self.pos);
        let take = if n <= left {
            n
        } else {
            left
        };
        let start = self.pos as usize;
        let bytes = slice_subrange(self.data, start, start + take);
        self.pos = self.pos + take as u64;
        assert(bytes@ =~= old(self).rest().subrange(0, take as int));
        bytes
    }

    /// Reads exactly `n` bytes and moves past them. Where fewer are left it
    /// reports an I/O error and stays where it was.
    pub fn read_exact(&mut self, n: usize) -> (r: Result<&'a [u8], KvsError>)
        ensures
            final(self).data == old(self).data,
            match r {
                Ok(bytes) => {
                    &&& n <= old(self).rest().len()
                    &&& bytes@ == old(self).rest().subrange(0, n as int)
                    &&& final(self).pos == old(self).pos + n
                },
                Err(err) => {
                    &&& n > old(self).rest().len()
                    &&& err is Io
                    &&& final(self).pos == old(self).pos
                },
            },
    {
        if n > self.remaining() {
            return Err(KvsError::Io(String::from_str("failed to fill whole buffer")));
        }
        Ok(self.read(n))
    }

    /// Moves to an offset from the start and returns it. The offset may lie
    /// behind the end; nothing can be read there.
    pub fn seek(&mut self, pos: u64) -> (now: u64)
        ensures
            final(self).data == old(self).data,
            final(self).pos == pos,
            now == pos,
    {
        self.pos = pos;
        pos
    }
}

/// Appends to the bytes of the active segment and knows how long they are.
pub struct BufWriterWithPos {
    data: Vec<u8>,
    pos: u64,
}

impl View for BufWriterWithPos {
    type V = Seq<u8>;

    /// Everything written so far.
    closed spec fn view(&self) -> Seq<u8> {
        self.data@
    }
}

impl BufWriterWithPos {
    /// The offset at which the next byte will land.
    pub closed spec fn pos(&self) -> u64 {
        self.pos
    }

    /// The position is the length of what was written.
    pub closed spec fn wf(&self) -> bool {
        self.pos == self.data@.len()
    }

    /// A writer that continues after `data`.
    pub fn new(data: Vec<u8>) -> (writer: Self)
        ensures
            writer.wf(),
            writer@ == data@,
            writer.pos() == data@.len(),
    {
        let pos = data.len() as u64;
        BufWriterWithPos { data, pos }
    }

    /// The offset at which the next byte will land.
    pub fn position(&self) -> (pos: u64)
        requires
            self.wf(),
        ensures
            pos == self.pos(),
            pos == self@.len(),
    {
        self.pos
    }

    /// Everything written so far.
    pub fn bytes(&self) -> (bytes: &[u8])
        ensures
            bytes@ == self@,
    {
        self.data.as_slice()
    }

    /// Gives up the writer for the bytes it wrote.
    pub fn into_bytes(self) -> (bytes: Vec<u8>)
        ensures
            bytes@ == self@,
    {
        self.data
    }

    /// Appends the bytes and returns how many were written: all of them.
    pub fn write(&mut self, buf: &[u8]) -> (written: usize)
        requires
            old(self).wf(),
        ensures
            final(self).wf(),
            final(self)@ == old(self)@ + buf@,
            final(self).pos() == old(self).pos() + buf@.len(),
            written == buf@.len(),
    {
        self.data.extend_from_slice(buf);
        self.pos = self.data.len() as u64;
        buf.len()
    }
}

} // verus!
