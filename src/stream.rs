use std::io;
use vstd::prelude::*;

verus! {

#[verifier::external_type_specification]
#[verifier::external_body]
pub struct ExIoError(std::io::Error);

/// `c` after writing `b` at offset `pos`; a gap between the old end and
/// `pos` reads as zeros.
pub open spec fn overwrite(c: Seq<u8>, pos: int, b: Seq<u8>) -> Seq<u8> {
    let n = if c.len() >= pos + b.len() { c.len() as int } else { pos + b.len() };
    Seq::new(
        n as nat,
        |i: int|
            if pos <= i < pos + b.len() {
                b[i - pos]
            } else if i < c.len() {
                c[i]
            } else {
                0u8
            },
    )
}

/// A seekable byte stream that can be read, written and shortened.
///
/// `content` is every byte of the stream, `cursor` the position the next
/// read or write starts at. When `infallible` holds (an in-memory stream),
/// every operation whose preconditions hold succeeds.
pub trait RandomAccess: Sized {
    spec fn content(&self) -> Seq<u8>;

    spec fn cursor(&self) -> int;

    spec fn infallible(&self) -> bool;

    fn stream_position(&mut self) -> (r: Result<u64, io::Error>)
        ensures
            final(self).content() == old(self).content(),
            final(self).cursor() == old(self).cursor(),
            final(self).infallible() == old(self).infallible(),
            0 <= final(self).cursor(),
            r is Ok ==> r->Ok_0 == old(self).cursor(),
            old(self).infallible() ==> r is Ok,
    ;

    fn seek_start(&mut self, pos: u64) -> (r: Result<u64, io::Error>)
        ensures
            final(self).content() == old(self).content(),
            final(self).infallible() == old(self).infallible(),
            0 <= final(self).cursor(),
            r is Ok ==> r->Ok_0 == pos && final(self).cursor() == pos,
            old(self).infallible() ==> r is Ok,
    ;

    fn seek_end(&mut self) -> (r: Result<u64, io::Error>)
        ensures
            final(self).content() == old(self).content(),
            final(self).infallible() == old(self).infallible(),
            0 <= final(self).cursor(),
            r is Ok ==> r->Ok_0 == old(self).content().len() && final(self).cursor()
                == old(self).content().len(),
            old(self).infallible() ==> r is Ok,
    ;

    fn read_exact(&mut self, n: usize) -> (r: Result<Vec<u8>, io::Error>)
        ensures
            final(self).content() == old(self).content(),
            final(self).infallible() == old(self).infallible(),
            0 <= final(self).cursor(),
            r is Ok ==> {
                &&& old(self).cursor() + n <= old(self).content().len()
                &&& r->Ok_0@ == old(self).content().subrange(
                    old(self).cursor(),
                    old(self).cursor() + n,
                )
                &&& final(self).cursor() == old(self).cursor() + n
            },
            old(self).infallible() && 0 <= old(self).cursor() && old(self).cursor() + n
                <= old(self).content().len() ==> r is Ok,
    ;

    fn write_all(&mut self, buf: &[u8]) -> (r: Result<(), io::Error>)
        ensures
            final(self).infallible() == old(self).infallible(),
            0 <= final(self).cursor(),
            r is Ok ==> {
                &&& final(self).content() == overwrite(
                    old(self).content(),
                    old(self).cursor(),
                    buf@,
                )
                &&& final(self).cursor() == old(self).cursor() + buf@.len()
            },
            old(self).infallible() && 0 <= old(self).cursor() && old(self).cursor() + buf@.len()
                <= usize::MAX ==> r is Ok,
    ;

    fn set_len(&mut self, len: u64) -> (r: Result<(), io::Error>)
        requires
            len <= old(self).content().len(),
        ensures
            final(self).infallible() == old(self).infallible(),
            0 <= final(self).cursor(),
            r is Ok ==> final(self).content() == old(self).content().subrange(0, len as int),
            old(self).infallible() ==> r is Ok,
    ;

    fn flush(&mut self) -> (r: Result<(), io::Error>)
        ensures
            final(self).content() == old(self).content(),
            final(self).infallible() == old(self).infallible(),
            0 <= final(self).cursor(),
            old(self).infallible() ==> r is Ok,
    ;
}


/// Relies on std's `io::Error::from(ErrorKind::UnexpectedEof)`: the error a
/// read past the end reports.
#[verifier::external_body]
fn unexpected_eof() -> io::Error {
    io::Error::from(io::ErrorKind::UnexpectedEof)
}

/// Relies on std's `io::Error::from(ErrorKind::OutOfMemory)`: the error for
/// a span or a position that does not fit in this machine's memory.
#[verifier::external_body]
pub(crate) fn out_of_memory() -> io::Error {
    io::Error::from(io::ErrorKind::OutOfMemory)
}

/// A stream held in memory: a growable byte buffer and a position in it.
pub struct MemStream {
    data: Vec<u8>,
    pos: u64,
}

impl MemStream {
    pub fn new() -> (r: MemStream)
        ensures
            r.content() == Seq::<u8>::empty(),
            r.cursor() == 0,
            r.infallible(),
    {
        MemStream { data: Vec::new(), pos: 0 }
    }

    /// A stream over the given bytes, positioned at the start.
    pub fn from_bytes(data: Vec<u8>) -> (r: MemStream)
        ensures
            r.content() == data@,
            r.cursor() == 0,
            r.infallible(),
    {
        MemStream { data, pos: 0 }
    }

    pub fn bytes(&self) -> (r: &[u8])
        ensures
            r@ == self.content(),
    {
        self.data.as_slice()
    }

    pub fn into_bytes(self) -> (r: Vec<u8>)
        ensures
            r@ == self.content(),
    {
        self.data
    }
}

impl RandomAccess for MemStream {
    closed spec fn content(&self) -> Seq<u8> {
        self.data@
    }

    closed spec fn cursor(&self) -> int {
        self.pos as int
    }

    open spec fn infallible(&self) -> bool {
        true
    }

    fn stream_position(&mut self) -> (r: Result<u64, io::Error>) {
        Ok(self.pos)
    }

    fn seek_start(&mut self, pos: u64) -> (r: Result<u64, io::Error>) {
        self.pos = pos;
        Ok(pos)
    }

    fn seek_end(&mut self) -> (r: Result<u64, io::Error>) {
        self.pos = self.data.len() as u64;
        Ok(self.pos)
    }

    fn read_exact(&mut self, n: usize) -> (r: Result<Vec<u8>, io::Error>) {
        let len = self.data.len();
        if self.pos > len as u64 || n > len - self.pos as usize {
            return Err(unexpected_eof());
        }
        let start = self.pos as usize;
        let mut out: Vec<u8> = Vec::with_capacity(n);
        let mut i: usize = 0;
        while i < n
            invariant
                start + n <= len == self.data@.len(),
                self.data@ == old(self).data@,
                start == self.pos,
                0 <= i <= n,
                out@ == self.data@.subrange(start as int, start + i),
            decreases n - i,
        {
            out.push(self.data[start + i]);
            i = i + 1;
            assert(out@ =~= self.data@.subrange(start as int, start + i));
        }
        self.pos = (start + n) as u64;
        Ok(out)
    }

    fn write_all(&mut self, buf: &[u8]) -> (r: Result<(), io::Error>) {
        let ghost c = self.data@;
        if self.pos > (usize::MAX - buf.len()) as u64 {
            return Err(out_of_memory());
        }
        let start = self.pos as usize;
        while self.data.len() < start
            invariant
                start == self.pos,
                c.len() <= self.data@.len() <= start || self.data@.len() == c.len(),
                forall|j: int| 0 <= j < self.data@.len() ==> self.data@[j] == if j < c.len() {
                    c[j]
                } else {
                    0u8
                },
            decreases start - self.data@.len(),
        {
            self.data.push(0u8);
        }
        let mut i: usize = 0;
        while i < buf.len()
            invariant
                start == self.pos,
                0 <= i <= buf@.len(),
                start as int + buf@.len() <= usize::MAX,
                self.data@.len() == if c.len() >= start + i { c.len() as int } else { start + i },
                forall|j: int|
                    0 <= j < self.data@.len() ==> self.data@[j] == if start <= j < start + i {
                        buf@[j - start]
                    } else if j < c.len() {
                        c[j]
                    } else {
                        0u8
                    },
            decreases buf@.len() - i,
        {
            if start + i < self.data.len() {
                self.data.set(start + i, buf[i]);
            } else {
                self.data.push(buf[i]);
            }
            i = i + 1;
        }
        assert(self.data@ =~= overwrite(c, start as int, buf@));
        self.pos = (start + buf.len()) as u64;
        Ok(())
    }

    fn set_len(&mut self, len: u64) -> (r: Result<(), io::Error>) {
        self.data.truncate(len as usize);
        assert(self.data@ =~= old(self).data@.subrange(0, len as int));
        Ok(())
    }

    fn flush(&mut self) -> (r: Result<(), io::Error>) {
        Ok(())
    }
}

} // verus!
