//! Byte-granular reader with a movable position, used to find and check
//! frames.

use vstd::prelude::*;
use crate::bitpacker::BitPackError;
use crate::crc::{crc16, crc16_of};

verus! {

/// Big-endian 16-bit word at `i`.
pub open spec fn be16(s: Seq<u8>, i: int) -> u16 {
    (s[i] as int * 256 + s[i + 1] as int) as u16
}

/// Little-endian 16-bit word at `i`.
pub open spec fn le16(s: Seq<u8>, i: int) -> u16 {
    (s[i + 1] as int * 256 + s[i] as int) as u16
}

/// The two bytes of `word` stand at `i`, high byte first.
pub open spec fn word_at(s: Seq<u8>, i: int, word: u16) -> bool {
    0 <= i && i + 1 < s.len() && s[i] as int == word / 256 && s[i + 1] as int == word % 256
}

pub fn u16_to_i16(v: u16) -> (r: i16)
    ensures
        r as int == if v >= 32768 { v - 65536 } else { v as int },
{
    if v >= 32768 {
        (v as i32 - 65536) as i16
    } else {
        v as i16
    }
}

/// Reads bytes from an array.
pub struct ByteReader<'a> {
    array: &'a [u8],
    p_byte: usize,
}

impl<'a> ByteReader<'a> {
    pub closed spec fn bytes(&self) -> Seq<u8> {
        self.array@
    }

    pub closed spec fn pos(&self) -> int {
        self.p_byte as int
    }

    pub fn new(array: &'a [u8]) -> (r: Self)
        ensures
            r.bytes() == array@,
            r.pos() == 0,
    {
        ByteReader { array, p_byte: 0 }
    }

    pub fn reset(&mut self)
        ensures
            final(self).bytes() == old(self).bytes(),
            final(self).pos() == 0,
    {
        self.p_byte = 0;
    }

    pub fn set_pos(&mut self, p_byte: usize)
        ensures
            final(self).bytes() == old(self).bytes(),
            final(self).pos() == p_byte,
    {
        self.p_byte = p_byte;
    }

    pub fn get_pos(&self) -> (r: usize)
        ensures
            r == self.pos(),
    {
        self.p_byte
    }

    /// Move to the next place, from the current one on, where the bytes of
    /// `word` stand high byte first; returns whether there is one. When there
    /// is none the position stops at the last byte.
    pub fn find_le_u16(&mut self, word: u16) -> (r: bool)
        ensures
            final(self).bytes() == old(self).bytes(),
            final(self).pos() >= old(self).pos(),
            r <==> exists|i: int| old(self).pos() <= i && #[trigger] word_at(old(self).bytes(), i, word),
            r ==> word_at(final(self).bytes(), final(self).pos(), word) && forall|i: int|
                old(self).pos() <= i < final(self).pos() ==> !#[trigger] word_at(old(self).bytes(), i, word),
            !r && old(self).pos() < old(self).bytes().len() ==> final(self).pos() == vstd::math::max(
                old(self).pos(),
                old(self).bytes().len() - 1,
            ),
            !r && old(self).pos() >= old(self).bytes().len() ==> final(self).pos() == old(self).pos(),
    {
        if self.p_byte >= self.array.len() {
            return false;
        }
        let b0 = (word / 256) as u8;
        let b1 = (word % 256) as u8;
        while self.p_byte < self.array.len() - 1
            invariant
                self.array@ == old(self).array@,
                old(self).p_byte <= self.p_byte <= self.array@.len() - 1,
                old(self).p_byte < self.array@.len(),
                b0 as int == word / 256,
                b1 as int == word % 256,
                forall|i: int| old(self).pos() <= i < self.pos() ==> !#[trigger] word_at(self.array@, i, word),
            decreases self.array@.len() - self.p_byte,
        {
            if self.array[self.p_byte] == b0 && self.array[self.p_byte + 1] == b1 {
                assert(word_at(old(self).bytes(), self.pos(), word));
                return true;
            }
            self.p_byte += 1;
        }
        proof {
            assert forall|i: int| old(self).pos() <= i implies !#[trigger] word_at(self.array@, i, word) by {
                if i >= self.pos() {
                    assert(i + 1 >= self.array@.len());
                }
            }
        }
        false
    }

    /// A copy of the bytes from `p_start` up to `p_end`.
    pub fn extract(&self, p_start: usize, p_end: usize) -> (r: Result<Vec<u8>, BitPackError>)
        ensures
            p_start <= p_end <= self.bytes().len() ==> (r matches Ok(v) && v@ == self.bytes().subrange(p_start as int, p_end as int)),
            !(p_start <= p_end <= self.bytes().len()) ==> r == Err::<Vec<u8>, BitPackError>(BitPackError::ArrayEndReached),
    {
        if p_start > self.array.len() || p_end > self.array.len() || p_start > p_end {
            Err(BitPackError::ArrayEndReached)
        } else {
            Ok(vstd::slice::slice_to_vec(vstd::slice::slice_subrange(self.array, p_start, p_end)))
        }
    }

    /// Whether the bytes at the current position are `buf`.
    pub fn eq(&self, buf: &[u8]) -> (r: bool)
        ensures
            r <==> self.pos() + buf@.len() <= self.bytes().len() && self.bytes().subrange(self.pos(), self.pos() + buf@.len()) == buf@,
    {
        if self.p_byte > self.array.len() || buf.len() > self.array.len() - self.p_byte {
            return false;
        }
        let mut i: usize = 0;
        while i < buf.len()
            invariant
                self.p_byte + buf@.len() <= self.array@.len(),
                self.array@.len() <= usize::MAX,
                i <= buf@.len(),
                forall|j: int| 0 <= j < i ==> buf@[j] == self.array@[self.p_byte + j],
            decreases buf@.len() - i,
        {
            if buf[i] != self.array[self.p_byte + i] {
                assert(self.bytes().subrange(self.pos(), self.pos() + buf@.len())[i as int] != buf@[i as int]);
                return false;
            }
            i += 1;
        }
        assert(self.bytes().subrange(self.pos(), self.pos() + buf@.len()) =~= buf@);
        true
    }

    /// Bytes from the position to the end.
    pub fn remaining_bytes(&self) -> (r: Result<usize, BitPackError>)
        ensures
            self.pos() <= self.bytes().len() ==> r == Ok::<usize, BitPackError>((self.bytes().len() - self.pos()) as usize),
            self.pos() > self.bytes().len() ==> r == Err::<usize, BitPackError>(BitPackError::ArrayEndReached),
    {
        if self.p_byte > self.array.len() {
            Err(BitPackError::ArrayEndReached)
        } else {
            Ok(self.array.len() - self.p_byte)
        }
    }

    /// Advance by `n_bytes`; the new position must stay before the end.
    pub fn inc_counter(&mut self, n_bytes: usize) -> (r: Result<(), BitPackError>)
        ensures
            final(self).bytes() == old(self).bytes(),
            old(self).pos() + n_bytes < old(self).bytes().len() ==> r is Ok && final(self).pos() == old(self).pos() + n_bytes,
            old(self).pos() + n_bytes >= old(self).bytes().len() ==> r == Err::<(), BitPackError>(BitPackError::ArrayEndReached) && final(self).pos() == old(self).pos(),
    {
        if self.p_byte >= self.array.len() || n_bytes >= self.array.len() - self.p_byte {
            return Err(BitPackError::ArrayEndReached);
        }
        self.p_byte += n_bytes;
        Ok(())
    }

    /// Move back by `n_bytes`.
    pub fn dec_counter(&mut self, n_bytes: usize) -> (r: Result<(), BitPackError>)
        ensures
            final(self).bytes() == old(self).bytes(),
            n_bytes <= old(self).pos() ==> r is Ok && final(self).pos() == old(self).pos() - n_bytes,
            n_bytes > old(self).pos() ==> r == Err::<(), BitPackError>(BitPackError::BoundaryReached) && final(self).pos() == old(self).pos(),
    {
        if n_bytes > self.p_byte {
            return Err(BitPackError::BoundaryReached);
        }
        self.p_byte -= n_bytes;
        Ok(())
    }

    /// Copy as many bytes as are left, up to `buf.len()`, into `buf`.
    pub fn read(&mut self, buf: &mut [u8]) -> (r: Result<usize, BitPackError>)
        ensures
            final(self).bytes() == old(self).bytes(),
            final(buf)@.len() == old(buf)@.len(),
            old(self).pos() > old(self).bytes().len() ==> r == Err::<usize, BitPackError>(BitPackError::ArrayEndReached)
                && final(self).pos() == old(self).pos() && final(buf)@ == old(buf)@,
            old(self).pos() <= old(self).bytes().len() ==> ({
                let n = vstd::math::min(old(buf)@.len() as int, old(self).bytes().len() - old(self).pos());
                &&& r == Ok::<usize, BitPackError>(n as usize)
                &&& final(self).pos() == old(self).pos() + n
                &&& final(buf)@.subrange(0, n) == old(self).bytes().subrange(old(self).pos(), old(self).pos() + n)
                &&& final(buf)@.subrange(n, final(buf)@.len() as int) == old(buf)@.subrange(n, old(buf)@.len() as int)
            }),
    {
        let len = self.array.len();
        assert(len == self.array@.len());
        let rem = self.remaining_bytes();
        let rem = match rem {
            Ok(v) => v,
            Err(e) => {
                return Err(e);
            },
        };
        let n = if buf.len() > rem {
            rem
        } else {
            buf.len()
        };
        let mut i: usize = 0;
        while i < n
            invariant
                i <= n,
                n <= buf@.len(),
                self.p_byte + n <= self.array@.len(),
                self.array@.len() <= usize::MAX,
                self.array@ == old(self).array@,
                self.p_byte == old(self).p_byte,
                buf@.len() == old(buf)@.len(),
                forall|j: int| 0 <= j < i ==> buf@[j] == self.array@[self.p_byte + j],
                forall|j: int| n <= j < buf@.len() ==> buf@[j] == old(buf)@[j],
            decreases n - i,
        {
            buf[i] = self.array[self.p_byte + i];
            i += 1;
        }
        self.p_byte += n;
        assert(buf@.subrange(0, n as int) =~= old(self).bytes().subrange(old(self).pos(), old(self).pos() + n));
        assert(buf@.subrange(n as int, buf@.len() as int) =~= old(buf)@.subrange(n as int, old(buf)@.len() as int));
        Ok(n)
    }

    pub fn read_u8(&mut self) -> (r: Result<u8, BitPackError>)
        ensures
            final(self).bytes() == old(self).bytes(),
            old(self).pos() < old(self).bytes().len() ==> r == Ok::<u8, BitPackError>(old(self).bytes()[old(self).pos()]) && final(self).pos() == old(self).pos() + 1,
            old(self).pos() >= old(self).bytes().len() ==> r == Err::<u8, BitPackError>(BitPackError::ArrayEndReached) && final(self).pos() == old(self).pos(),
    {
        if self.p_byte >= self.array.len() {
            return Err(BitPackError::ArrayEndReached);
        }
        let v = self.array[self.p_byte];
        self.p_byte += 1;
        Ok(v)
    }

    /// Read two bytes as a big-endian `u16`.
    pub fn read_be_u16(&mut self) -> (r: Result<u16, BitPackError>)
        ensures
            final(self).bytes() == old(self).bytes(),
            old(self).pos() + 2 <= old(self).bytes().len() ==> r == Ok::<u16, BitPackError>(be16(old(self).bytes(), old(self).pos())) && final(self).pos() == old(self).pos() + 2,
            old(self).pos() + 2 > old(self).bytes().len() ==> r == Err::<u16, BitPackError>(BitPackError::ArrayEndReached) && final(self).pos() == old(self).pos(),
    {
        if self.p_byte >= self.array.len() || self.array.len() - self.p_byte < 2 {
            return Err(BitPackError::ArrayEndReached);
        }
        let v = self.array[self.p_byte] as u16 * 256 + self.array[self.p_byte + 1] as u16;
        self.p_byte += 2;
        Ok(v)
    }

    /// Read two bytes as a big-endian `i16`.
    pub fn read_be_i16(&mut self) -> (r: Result<i16, BitPackError>)
        ensures
            final(self).bytes() == old(self).bytes(),
            old(self).pos() + 2 <= old(self).bytes().len() ==> (r matches Ok(v) && v as int == (if be16(old(self).bytes(), old(self).pos()) >= 32768 { be16(old(self).bytes(), old(self).pos()) - 65536 } else { be16(old(self).bytes(), old(self).pos()) as int })) && final(self).pos() == old(self).pos() + 2,
            old(self).pos() + 2 > old(self).bytes().len() ==> r == Err::<i16, BitPackError>(BitPackError::ArrayEndReached) && final(self).pos() == old(self).pos(),
    {
        match self.read_be_u16() {
            Ok(v) => Ok(u16_to_i16(v)),
            Err(e) => Err(e),
        }
    }

    /// Read two bytes as a little-endian `i16`.
    pub fn read_le_i16(&mut self) -> (r: Result<i16, BitPackError>)
        ensures
            final(self).bytes() == old(self).bytes(),
            old(self).pos() + 2 <= old(self).bytes().len() ==> (r matches Ok(v) && v as int == (if le16(old(self).bytes(), old(self).pos()) >= 32768 { le16(old(self).bytes(), old(self).pos()) - 65536 } else { le16(old(self).bytes(), old(self).pos()) as int })) && final(self).pos() == old(self).pos() + 2,
            old(self).pos() + 2 > old(self).bytes().len() ==> r == Err::<i16, BitPackError>(BitPackError::ArrayEndReached) && final(self).pos() == old(self).pos(),
    {
        if self.p_byte >= self.array.len() || self.array.len() - self.p_byte < 2 {
            return Err(BitPackError::ArrayEndReached);
        }
        let v = self.array[self.p_byte + 1] as u16 * 256 + self.array[self.p_byte] as u16;
        self.p_byte += 2;
        Ok(u16_to_i16(v))
    }

    /// CRC-16 of the next `num_bytes` bytes.
    pub fn crc16(&self, num_bytes: usize) -> (r: Result<u16, BitPackError>)
        ensures
            self.pos() + num_bytes <= self.bytes().len() ==> r == Ok::<u16, BitPackError>(crc16_of(self.bytes().subrange(self.pos(), self.pos() + num_bytes))),
            self.pos() + num_bytes > self.bytes().len() ==> r == Err::<u16, BitPackError>(BitPackError::ArrayEndReached),
    {
        if self.p_byte > self.array.len() || num_bytes > self.array.len() - self.p_byte {
            Err(BitPackError::ArrayEndReached)
        } else {
            Ok(crc16(vstd::slice::slice_subrange(self.array, self.p_byte, self.p_byte + num_bytes)))
        }
    }
}

} // verus!
