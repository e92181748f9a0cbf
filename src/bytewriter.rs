//! Seekable byte sinks.

use vstd::prelude::*;
use crate::error::X3Error;

verus! {

/// Where a seek is measured from.
#[derive(Clone, Copy, Debug, PartialEq, Eq)]
pub enum SeekFrom {
    Start(u64),
    End(i64),
    Current(i64),
}

/// The position that a seek to `pos` aims at, from the current position
/// and the end of the stream.
pub open spec fn seek_target(pos: SeekFrom, position: int, end: int) -> int {
    match pos {
        SeekFrom::Start(p) => p as int,
        SeekFrom::Current(d) => position + d,
        SeekFrom::End(d) => end + d,
    }
}

/// A seekable sink of bytes.
pub trait ByteWriter {
    /// The bytes of the stream.
    spec fn contents(&self) -> Seq<u8>;

    /// The write position.
    spec fn position(&self) -> int;

    /// The sink has room for `n` more bytes at the position.
    spec fn accepts(&self, n: nat) -> bool;

    /// The end of the stream: the furthest position written or sought.
    spec fn end(&self) -> int;

    /// The sink can move its position to `t`.
    spec fn seekable(&self, t: int) -> bool;

    /// Write `value` at the position and move past it.
    fn write_all(&mut self, value: &[u8]) -> (r: Result<(), X3Error>)
        ensures
            old(self).accepts(value@.len()) ==> r is Ok,
            forall|k: nat| #[trigger] old(self).accepts(value@.len() + k) ==> r is Ok && final(self).accepts(k),
            r is Err ==> final(self).contents() == old(self).contents() && final(self).position() == old(self).position()
                && final(self).end() == old(self).end(),
            r is Ok ==> final(self).end() == vstd::math::max(old(self).end(), final(self).position()),
            r is Ok ==> final(self).position() == old(self).position() + value@.len()
                && final(self).contents().len() >= final(self).position()
                && final(self).contents().subrange(old(self).position(), final(self).position()) == value@
                && final(self).contents().subrange(0, old(self).position()) == old(self).contents().subrange(0, old(self).position()),
    ;

    /// Push buffered bytes on.
    fn flush(&mut self) -> (r: Result<(), X3Error>)
        ensures
            r is Ok ==> final(self).contents() == old(self).contents() && final(self).position() == old(self).position(),
    ;

    /// Move the write position; returns the new position. It fails, and
    /// nothing changes, exactly when the sink cannot move there.
    fn seek(&mut self, pos: SeekFrom) -> (r: Result<u64, X3Error>)
        ensures
            ({
                let t = seek_target(pos, old(self).position(), old(self).end());
                &&& r is Ok <==> old(self).seekable(t)
                &&& r matches Ok(p) ==> p == t && final(self).position() == t && final(self).contents()
                    == old(self).contents() && final(self).end() == vstd::math::max(old(self).end(), t)
                &&& r is Err ==> r == Err::<u64, X3Error>(X3Error::ByteWriterInsufficientMemory)
                    && final(self).position() == old(self).position() && final(self).contents()
                    == old(self).contents() && final(self).end() == old(self).end()
            }),
    ;

    /// The write position.
    fn stream_position(&mut self) -> (r: Result<u64, X3Error>)
        ensures
            final(self).contents() == old(self).contents(),
            final(self).position() == old(self).position(),
            final(self).end() == old(self).end(),
            r matches Ok(p) ==> p == old(self).position(),
    ;
}

/// A `ByteWriter` over a buffer of fixed size.
pub struct SliceByteWriter {
    slice: Vec<u8>,
    p_byte: usize,
    stream_length: usize,
}

impl SliceByteWriter {
    pub closed spec fn wf(&self) -> bool {
        &&& self.p_byte <= self.slice@.len()
        &&& self.stream_length <= self.slice@.len()
    }

    pub fn new(slice: Vec<u8>) -> (r: Self)
        ensures
            r.wf(),
            r.contents() == slice@,
            r.position() == 0,
    {
        SliceByteWriter { slice, p_byte: 0, stream_length: 0 }
    }

    /// The whole buffer.
    pub fn as_slice(&self) -> (r: &[u8])
        ensures
            r@ == self.contents(),
    {
        self.slice.as_slice()
    }

    /// Write zeros up to the next multiple of `n`; returns how many.
    pub fn align(&mut self, n: usize) -> (r: Result<usize, X3Error>)
        requires
            old(self).wf(),
            n >= 1,
        ensures
            final(self).wf(),
            ({
                let k = (n - old(self).position() % (n as int)) % (n as int);
                &&& old(self).position() + k <= old(self).contents().len() ==> r == Ok::<usize, X3Error>(k as usize)
                    && final(self).position() == old(self).position() + k && final(self).position() % (n as int) == 0
                &&& old(self).position() + k > old(self).contents().len() ==> r == Err::<usize, X3Error>(X3Error::ByteWriterInsufficientMemory)
                    && final(self).position() == old(self).position()
            }),
    {
        let residual = self.p_byte % n;
        let ghost nn = n as int;
        if residual == 0 {
            assert((nn - 0) % nn == 0) by (nonlinear_arith)
                requires
                    nn >= 1,
            ;
            return Ok(0);
        }
        let k = n - residual;
        assert((nn - residual as int) % nn == k as int) by (nonlinear_arith)
            requires
                0 < residual < nn,
                k == nn - residual,
        ;
        if k > self.slice.len() - self.p_byte {
            return Err(X3Error::ByteWriterInsufficientMemory);
        }
        let mut i: usize = 0;
        while i < k
            invariant
                self.wf(),
                i <= k,
                self.p_byte == old(self).p_byte + i,
                old(self).p_byte + k <= self.slice@.len(),
                self.slice@.len() <= usize::MAX,
            decreases k - i,
        {
            self.slice.set(self.p_byte, 0);
            self.p_byte += 1;
            if self.p_byte > self.stream_length {
                self.stream_length = self.p_byte;
            }
            i += 1;
        }
        let ghost pb = old(self).p_byte as int;
        let ghost nn = n as int;
        let ghost rr = residual as int;
        assert((pb + (nn - rr)) % nn == 0) by (nonlinear_arith)
            requires
                rr == pb % nn,
                nn >= 1,
        ;
        Ok(k)
    }
}

impl ByteWriter for SliceByteWriter {
    closed spec fn contents(&self) -> Seq<u8> {
        self.slice@
    }

    closed spec fn position(&self) -> int {
        self.p_byte as int
    }

    closed spec fn accepts(&self, n: nat) -> bool {
        self.p_byte + n <= self.slice@.len()
    }

    closed spec fn end(&self) -> int {
        self.stream_length as int
    }

    closed spec fn seekable(&self, t: int) -> bool {
        0 <= t <= self.slice@.len()
    }

    fn write_all(&mut self, value: &[u8]) -> (r: Result<(), X3Error>) {
        if self.p_byte > self.slice.len() || value.len() > self.slice.len() - self.p_byte {
            return Err(X3Error::ByteWriterInsufficientMemory);
        }
        let ghost start = self.p_byte as int;
        if self.p_byte > self.stream_length {
            self.stream_length = self.p_byte;
        }
        let len = self.slice.len();
        assert(len == self.slice@.len());
        let mut i: usize = 0;
        while i < value.len()
            invariant
                i <= value@.len(),
                self.p_byte == start + i,
                self.stream_length as int == vstd::math::max(old(self).stream_length as int, self.p_byte as int),
                start + value@.len() <= self.slice@.len(),
                self.slice@.len() <= usize::MAX,
                0 <= start,
                self.slice@.len() == old(self).slice@.len(),
                forall|j: int| 0 <= j < start ==> self.slice@[j] == old(self).slice@[j],
                forall|j: int| 0 <= j < i ==> #[trigger] self.slice@[start + j] == value@[j],
            decreases value@.len() - i,
        {
            let ghost before = self.slice@;
            self.slice.set(self.p_byte, value[i]);
            assert(forall|j: int| 0 <= j < i ==> #[trigger] self.slice@[start + j] == before[start + j]);
            self.p_byte += 1;
            if self.p_byte > self.stream_length {
                self.stream_length = self.p_byte;
            }
            i += 1;
        }
        assert forall|k: int| 0 <= k < value@.len() implies #[trigger] self.slice@.subrange(start, self.p_byte as int)[k] == value@[k] by {
            assert(self.slice@[start + k] == value@[k]);
        }
        assert(self.slice@.subrange(start, self.p_byte as int) =~= value@);
        assert(self.slice@.subrange(0, start) =~= old(self).slice@.subrange(0, start));
        Ok(())
    }

    fn flush(&mut self) -> (r: Result<(), X3Error>) {
        Ok(())
    }

    fn seek(&mut self, pos: SeekFrom) -> (r: Result<u64, X3Error>) {
        let abs_pos: i128 = match pos {
            SeekFrom::Current(d) => self.p_byte as i128 + d as i128,
            SeekFrom::Start(p) => p as i128,
            SeekFrom::End(d) => self.stream_length as i128 + d as i128,
        };
        if abs_pos < 0 || abs_pos > self.slice.len() as i128 {
            return Err(X3Error::ByteWriterInsufficientMemory);
        }
        self.p_byte = abs_pos as usize;
        if self.p_byte > self.stream_length {
            self.stream_length = self.p_byte;
        }
        Ok(self.p_byte as u64)
    }

    fn stream_position(&mut self) -> (r: Result<u64, X3Error>) {
        Ok(self.p_byte as u64)
    }
}

} // verus!
