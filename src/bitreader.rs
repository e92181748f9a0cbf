//! Bit-granular reader: bits are consumed MSB-first from a byte slice; bits
//! past the end of the slice read as zeros.

use vstd::prelude::*;
use vstd::arithmetic::power2::{pow2, lemma_pow2_unfold, lemma2_to64};
use crate::bitpacker::{bits_of, bit_of_byte};

verus! {

/// Bit `i` of `b`, zero past the end.
pub open spec fn bit_at(b: Seq<bool>, i: int) -> bool {
    0 <= i < b.len() && b[i]
}

/// The `n` bits of `b` from `pos` on, read as an unsigned big-endian number.
pub open spec fn bits_value(b: Seq<bool>, pos: int, n: nat) -> nat
    decreases n,
{
    if n == 0 {
        0
    } else {
        2 * bits_value(b, pos, (n - 1) as nat) + if bit_at(b, pos + n - 1) {
            1nat
        } else {
            0nat
        }
    }
}

/// The number of zero bits from `pos` on before the next one bit or the end.
pub open spec fn is_zero_run(b: Seq<bool>, pos: int, c: int) -> bool {
    &&& 0 <= c
    &&& pos + c <= b.len()
    &&& forall|j: int| pos <= j < pos + c ==> !b[j]
    &&& (pos + c == b.len() || b[pos + c])
}

/// An `n`-bit read is below `2^n`.
pub proof fn lemma_bits_value_bound(b: Seq<bool>, pos: int, n: nat)
    ensures
        bits_value(b, pos, n) < pow2(n),
    decreases n,
{
    if n > 0 {
        lemma_bits_value_bound(b, pos, (n - 1) as nat);
        lemma_pow2_unfold(n);
    } else {
        vstd::arithmetic::power2::lemma_pow2_pos(0);
        lemma2_to64();
    }
}

/// Reads individual bits from an array of bytes.
#[derive(Clone, Copy)]
pub struct BitReader<'a> {
    array: &'a [u8],
    /// Index of the byte holding the next bit.
    idx: usize,
    /// Offset of the next bit within its byte.
    bit: usize,
}

impl<'a> BitReader<'a> {
    pub closed spec fn wf(&self) -> bool {
        &&& self.bit < 8
        &&& self.idx <= self.array@.len()
        &&& (self.idx == self.array@.len() ==> self.bit == 0)
        &&& self.array@.len() <= usize::MAX / 8
    }

    /// The bits of the source.
    pub open spec fn bits(&self) -> Seq<bool> {
        bits_of(self.bytes())
    }

    pub closed spec fn bytes(&self) -> Seq<u8> {
        self.array@
    }

    /// Index of the next bit; it stops at the end of the source.
    pub closed spec fn pos(&self) -> int {
        8 * self.idx + self.bit
    }

    proof fn lemma_pos(&self)
        requires
            self.wf(),
        ensures
            0 <= self.pos() <= self.bits().len(),
    {
    }

    pub fn new(array: &'a [u8]) -> (r: Self)
        requires
            array@.len() <= usize::MAX / 8,
        ensures
            r.wf(),
            r.bytes() == array@,
            r.pos() == 0,
    {
        BitReader { array, idx: 0, bit: 0 }
    }

    /// Read one bit; at the end the bit is zero and the position stays.
    fn read_bit(&mut self) -> (r: bool)
        requires
            old(self).wf(),
        ensures
            final(self).wf(),
            final(self).bytes() == old(self).bytes(),
            r == bit_at(old(self).bits(), old(self).pos()),
            final(self).pos() == if old(self).pos() < old(self).bits().len() {
                old(self).pos() + 1
            } else {
                old(self).pos()
            },
    {
        if self.idx >= self.array.len() {
            return false;
        }
        let b = self.array[self.idx];
        let r = (b >> ((7 - self.bit) as u8)) & 1u8 == 1u8;
        assert((8 * self.idx + self.bit) / 8 == self.idx && (8 * self.idx + self.bit) % 8
            == self.bit) by (nonlinear_arith)
            requires
                self.bit < 8,
        ;
        assert(r == bit_of_byte(b, self.bit as int));
        if self.bit == 7 {
            self.bit = 0;
            self.idx += 1;
        } else {
            self.bit += 1;
        }
        r
    }

    /// Read `n` bits as an unsigned big-endian number; bits past the end of
    /// the source read as zeros.
    pub fn read_nbits(&mut self, n: usize) -> (r: u32)
        requires
            old(self).wf(),
            n <= 32,
        ensures
            final(self).wf(),
            final(self).bytes() == old(self).bytes(),
            r as nat == bits_value(old(self).bits(), old(self).pos(), n as nat),
            final(self).pos() == vstd::math::min(
                old(self).pos() + n,
                old(self).bits().len() as int,
            ),
    {
        let mut r: u64 = 0;
        let mut i: usize = 0;
        proof {
            self.lemma_pos();
        }
        while i < n
            invariant
                self.wf(),
                i <= n <= 32,
                self.bytes() == old(self).bytes(),
                r as nat == bits_value(old(self).bits(), old(self).pos(), i as nat),
                self.pos() == vstd::math::min(old(self).pos() + i, old(self).bits().len() as int),
                0 <= old(self).pos() <= old(self).bits().len(),
            decreases n - i,
        {
            proof {
                lemma_bits_value_bound(old(self).bits(), old(self).pos(), i as nat);
                lemma_pow2_unfold((i + 1) as nat);
                lemma2_to64();
                if i + 1 < 32 {
                    vstd::arithmetic::power2::lemma_pow2_strictly_increases((i + 1) as nat, 32);
                }
            }
            let b = self.read_bit();
            r = 2 * r + if b {
                1
            } else {
                0
            };
            i += 1;
        }
        proof {
            lemma_bits_value_bound(old(self).bits(), old(self).pos(), n as nat);
            lemma2_to64();
            if n < 32 {
                vstd::arithmetic::power2::lemma_pow2_strictly_increases(n as nat, 32);
            }
        }
        r as u32
    }

    /// Advance by `n` bits, stopping at the end of the source.
    pub fn inc_bits(&mut self, n: usize)
        requires
            old(self).wf(),
            n < 32,
        ensures
            final(self).wf(),
            final(self).bytes() == old(self).bytes(),
            final(self).pos() == vstd::math::min(
                old(self).pos() + n,
                old(self).bits().len() as int,
            ),
    {
        let _ = self.read_nbits(n);
    }

    /// Count and consume the zero bits before the next one bit (or the end
    /// of the source); the one bit itself is not consumed.
    pub fn count_zero_bits(&mut self) -> (r: usize)
        requires
            old(self).wf(),
        ensures
            final(self).wf(),
            final(self).bytes() == old(self).bytes(),
            is_zero_run(old(self).bits(), old(self).pos(), r as int),
            final(self).pos() == old(self).pos() + r,
    {
        let mut count: usize = 0;
        proof {
            self.lemma_pos();
        }
        while self.idx < self.array.len()
            invariant
                self.wf(),
                self.bytes() == old(self).bytes(),
                self.pos() == old(self).pos() + count,
                self.pos() <= self.bits().len(),
                count <= 8 * self.idx + self.bit,
                forall|j: int| old(self).pos() <= j < self.pos() ==> !self.bits()[j],
            decreases self.bits().len() - self.pos(),
        {
            let save = *self;
            let b = self.read_bit();
            if b {
                *self = save;
                return count;
            }
            count += 1;
        }
        count
    }

    /// Bits left in the four-byte word that holds the next bit, when the
    /// source is taken in words of four bytes; zero at the end.
    pub open spec fn word_rest(&self) -> int {
        if self.pos() >= self.bits().len() {
            0
        } else {
            8 * vstd::math::min(4 * (self.pos() / 32 + 1), self.bytes().len() as int) - self.pos()
        }
    }

    pub fn rem_bit(&self) -> (r: usize)
        requires
            self.wf(),
        ensures
            r as int == self.word_rest(),
    {
        if self.idx >= self.array.len() {
            return 0;
        }
        let word_end: usize = if self.idx / 4 * 4 + 4 <= self.array.len() {
            self.idx / 4 * 4 + 4
        } else {
            self.array.len()
        };
        assert(self.pos() / 32 == self.idx / 4) by (nonlinear_arith)
            requires
                self.pos() == 8 * self.idx + self.bit,
                self.bit < 8,
        ;
        8 * (word_end - self.idx) - self.bit
    }

    /// The rest of the current four-byte word, left-aligned in 32 bits.
    pub fn leading_word(&self) -> (r: u32)
        requires
            self.wf(),
        ensures
            r as nat == bits_value(self.bits(), self.pos(), self.word_rest() as nat) * pow2((32 - self.word_rest()) as nat),
    {
        let rem = self.rem_bit();
        proof {
            lemma2_to64();
        }
        if rem == 0 {
            let ghost z = bits_value(self.bits(), self.pos(), 0);
            assert(z == 0);
            let ghost pw = pow2(32);
            assert(z * pw == 0) by (nonlinear_arith)
                requires
                    z == 0,
            ;
            return 0;
        }
        assert(rem <= 32) by {
            assert(self.pos() / 32 == self.idx / 4) by (nonlinear_arith)
                requires
                    self.pos() == 8 * self.idx + self.bit,
                    self.bit < 8,
            ;
        }
        let mut peek = *self;
        assert(peek.bits() == self.bits() && peek.pos() == self.pos());
        let v = peek.read_nbits(rem);
        assert(v as nat == bits_value(self.bits(), self.pos(), rem as nat));
        proof {
            lemma_bits_value_bound(self.bits(), self.pos(), rem as nat);
        }
        if rem == 32 {
            assert(pow2(0) == 1);
            let ghost bv = bits_value(self.bits(), self.pos(), 32);
            assert(bv * pow2(0) == bv) by (nonlinear_arith)
                requires
                    pow2(0) == 1,
            ;
            v
        } else {
            proof {
                vstd::arithmetic::power2::lemma_pow2_adds(rem as nat, (32 - rem) as nat);
                vstd::arithmetic::power2::lemma_pow2_pos((32 - rem) as nat);
                assert((v as nat) * pow2((32 - rem) as nat) < pow2(rem as nat) * pow2((32 - rem) as nat)) by (nonlinear_arith)
                    requires
                        (v as nat) < pow2(rem as nat),
                        pow2((32 - rem) as nat) > 0,
                ;
                vstd::bits::lemma_u32_shl_is_mul(v, (32 - rem) as u32);
            }
            v << ((32 - rem) as u32)
        }
    }
}

} // verus!
