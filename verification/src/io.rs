use vstd::prelude::*;

verus! {

/// A source of bytes read in order: the bytes `spec_data()`, the next read
/// starting at `spec_pos()`.
pub trait AsyncRead {
    type ReadError;

    /// The bytes of the source.
    spec fn spec_data(&self) -> Seq<u8>;

    /// Where the next read starts.
    spec fn spec_pos(&self) -> int;

    /// Reads up to `len` bytes from the position on, and moves the position
    /// past them; an empty result means the end of the data.
    fn read(&mut self, len: u64) -> (r: Result<Vec<u8>, Self::ReadError>)
        ensures
            final(self).spec_data() == old(self).spec_data(),
            r matches Ok(v) ==> {
                &&& v@.len() <= len
                &&& final(self).spec_pos() == old(self).spec_pos() + v@.len()
                &&& v@.len() > 0 ==> 0 <= old(self).spec_pos() && old(self).spec_pos() + v@.len()
                    <= old(self).spec_data().len() && v@ == old(self).spec_data().subrange(
                    old(self).spec_pos(),
                    old(self).spec_pos() + v@.len(),
                )
            },
    ;
}

/// A source whose read position can be moved.
pub trait Seekable: AsyncRead {
    type SeekError;

    /// Moves the read position to `cursor`.
    fn seek(&mut self, cursor: u64) -> (r: Result<(), Self::SeekError>)
        ensures
            final(self).spec_data() == old(self).spec_data(),
            r is Ok ==> final(self).spec_pos() == cursor,
    ;
}

/// Why an exact read failed.
pub enum ReadExactError<E> {
    InnerError(E),
    EOF,
}

/// Reading an exact number of bytes.
pub trait AsyncReadExt: AsyncRead {
    /// Reads exactly `len` bytes, reading again while fewer arrived. Fails with
    /// `EOF` when the data ends first.
    fn read_exact(&mut self, len: u64) -> (r: Result<Vec<u8>, ReadExactError<Self::ReadError>>)
        ensures
            final(self).spec_data() == old(self).spec_data(),
            len == 0 ==> r is Ok,
            r matches Ok(v) ==> {
                &&& v@.len() == len
                &&& final(self).spec_pos() == old(self).spec_pos() + len
                &&& len > 0 ==> 0 <= old(self).spec_pos() && old(self).spec_pos() + len
                    <= old(self).spec_data().len() && v@ == old(self).spec_data().subrange(
                    old(self).spec_pos(),
                    old(self).spec_pos() + len,
                )
            },
    ;
}

impl<T: AsyncRead> AsyncReadExt for T {
    fn read_exact(&mut self, len: u64) -> (r: Result<Vec<u8>, ReadExactError<Self::ReadError>>) {
        let ghost d = self.spec_data();
        let ghost p0 = self.spec_pos();
        let mut buf: Vec<u8> = Vec::new();
        while (buf.len() as u64) < len
            invariant
                buf@.len() <= len,
                self.spec_data() == d,
                d == old(self).spec_data(),
                p0 == old(self).spec_pos(),
                buf@.len() > 0 ==> 0 <= p0 && p0 + buf@.len() <= d.len() && buf@ == d.subrange(
                    p0,
                    p0 + buf@.len(),
                ),
                self.spec_pos() == p0 + buf@.len(),
            decreases len - buf@.len(),
        {
            let want = len - buf.len() as u64;
            match self.read(want) {
                Ok(mut chunk) => {
                    if chunk.len() == 0 {
                        return Err(ReadExactError::EOF);
                    }
                    let ghost before = buf@;
                    buf.append(&mut chunk);
                    proof {
                        assert(buf@ =~= d.subrange(p0, p0 + buf@.len()));
                    }
                },
                Err(e) => {
                    return Err(ReadExactError::InnerError(e));
                },
            }
        }
        Ok(buf)
    }
}

/// Bytes kept in memory, read from a position that can be moved.
pub struct MemoryReader {
    data: Vec<u8>,
    pos: u64,
}

impl MemoryReader {
    /// A reader of `data` at position 0.
    pub fn new(data: Vec<u8>) -> (r: Self)
        ensures
            r.spec_data() == data@,
            r.spec_pos() == 0,
    {
        MemoryReader { data, pos: 0 }
    }
}

impl AsyncRead for MemoryReader {
    type ReadError = ();

    closed spec fn spec_data(&self) -> Seq<u8> {
        self.data@
    }

    closed spec fn spec_pos(&self) -> int {
        self.pos as int
    }

    /// Reads up to `len` bytes; none at or past the end.
    fn read(&mut self, len: u64) -> (r: Result<Vec<u8>, ()>)
        ensures
            r matches Ok(v) && v@.len() == if old(self).spec_pos() >= old(self).spec_data().len() {
                0
            } else if old(self).spec_pos() + len <= old(self).spec_data().len() {
                len as int
            } else {
                old(self).spec_data().len() - old(self).spec_pos()
            },
    {
        let n = self.data.len() as u64;
        let mut v: Vec<u8> = Vec::new();
        if self.pos >= n {
            return Ok(v);
        }
        let take = if len <= n - self.pos {
            len
        } else {
            n - self.pos
        };
        let start = self.pos as usize;
        let mut k: usize = 0;
        while (k as u64) < take
            invariant
                n == self.data@.len(),
                n <= usize::MAX,
                self.pos < n,
                start == self.pos,
                take <= n - self.pos,
                k <= take,
                v@ == self.data@.subrange(start as int, start + k),
            decreases take - k,
        {
            v.push(self.data[start + k]);
            k = k + 1;
            proof {
                assert(v@ =~= self.data@.subrange(start as int, start + k));
            }
        }
        self.pos = self.pos + take;
        Ok(v)
    }
}

impl Seekable for MemoryReader {
    type SeekError = ();

    fn seek(&mut self, cursor: u64) -> (r: Result<(), ()>)
        ensures
            r is Ok,
    {
        self.pos = cursor;
        Ok(())
    }
}

} // verus!
