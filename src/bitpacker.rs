//! Bit-granular writer: bits are appended MSB-first into a byte buffer that
//! grows as needed. Bits are OR-ed into the buffer, so over a zeroed buffer
//! every write is an append.

use vstd::prelude::*;

verus! {

#[derive(Debug, PartialEq, Eq)]
pub enum BitPackError {
    NotByteAligned,
    BoundaryReached,
    ArrayEndReached,
    ExceededBitBoundary,
}

/// Bit `k` (0 = most significant) of a byte.
pub open spec fn bit_of_byte(b: u8, k: int) -> bool {
    (b >> ((7 - k) as u8)) & 1u8 == 1u8
}

/// The bits of a byte string, most significant bit of the first byte first.
pub open spec fn bits_of(s: Seq<u8>) -> Seq<bool> {
    Seq::new(8 * s.len(), |i: int| bit_of_byte(s[i / 8], i % 8))
}

/// The low `n` bits of `v`, highest first.
pub open spec fn value_bits(v: usize, n: nat) -> Seq<bool> {
    Seq::new(n, |i: int| (v >> ((n - 1 - i) as usize)) & 1usize == 1usize)
}

/// `x` rounded up to a whole number of bytes, in bits.
pub open spec fn ceil8(x: int) -> int {
    ((x + 7) / 8) * 8
}

/// The bits of a buffer after `w` was OR-ed in at bit position `pos`; the
/// buffer grows by zero bytes as far as the write reaches.
pub open spec fn packed(old_bits: Seq<bool>, pos: int, w: Seq<bool>) -> Seq<bool> {
    let n = if w.len() == 0 || old_bits.len() >= ceil8(pos + w.len()) {
        old_bits.len() as int
    } else {
        ceil8(pos + w.len())
    };
    Seq::new(
        n as nat,
        |i: int| (i < old_bits.len() && old_bits[i]) || (pos <= i < pos + w.len() && w[i - pos]),
    )
}

proof fn lemma_or_bit(b: u8, k: u8, j: u8)
    requires
        k < 8,
        j < 8,
    ensures
        ((b | (0x80u8 >> k)) >> (7 - j) as u8) & 1u8 == 1u8 <==> (((b >> (7 - j) as u8) & 1u8
            == 1u8) || j == k),
{
    assert(((b | (0x80u8 >> k)) >> (7 - j) as u8) & 1u8 == 1u8 <==> (((b >> (7 - j) as u8) & 1u8
        == 1u8) || j == k)) by (bit_vector)
        requires
            k < 8,
            j < 8,
    ;
}

proof fn lemma_zero_byte(j: u8)
    requires
        j < 8,
    ensures
        !(((0u8 >> (7 - j) as u8) & 1u8) == 1u8),
{
    assert(!(((0u8 >> (7 - j) as u8) & 1u8) == 1u8)) by (bit_vector);
}

/// Setting bit `k` of byte `p` sets exactly bit `8 * p + k` of the string.
proof fn lemma_bits_set(s: Seq<u8>, p: int, k: int)
    requires
        0 <= p < s.len(),
        0 <= k < 8,
    ensures
        bits_of(s.update(p, s[p] | (0x80u8 >> (k as u8)))) =~= bits_of(s).update(8 * p + k, true),
{
    let t = s.update(p, s[p] | (0x80u8 >> (k as u8)));
    assert forall|i: int| 0 <= i < 8 * s.len() implies #[trigger] bits_of(t)[i] == bits_of(s).update(
        8 * p + k,
        true,
    )[i] by {
        if i / 8 == p {
            lemma_or_bit(s[p], k as u8, (i % 8) as u8);
        }
    }
}

proof fn lemma_bits_push_zero(s: Seq<u8>)
    ensures
        bits_of(s.push(0u8)) =~= bits_of(s) + Seq::new(8, |i: int| false),
{
    let t = s.push(0u8);
    assert forall|i: int| 0 <= i < 8 * t.len() implies #[trigger] bits_of(t)[i] == (bits_of(s)
        + Seq::new(8, |i: int| false))[i] by {
        if i >= 8 * s.len() {
            lemma_zero_byte((i % 8) as u8);
        }
    }
}

pub proof fn lemma_ceil8(x: int)
    requires
        x >= 0,
    ensures
        ceil8(x) >= x,
        ceil8(x) < x + 8,
        ceil8(x) % 8 == 0,
        x % 8 == 0 ==> ceil8(x) == x,
        forall|y: int| #![trigger y % 8] y >= x && y % 8 == 0 ==> y >= ceil8(x),
{
    assert(ceil8(x) >= x && ceil8(x) < x + 8 && ceil8(x) % 8 == 0) by (nonlinear_arith)
        requires
            x >= 0,
    ;
    assert forall|y: int| #![trigger y % 8] y >= x && y % 8 == 0 implies y >= ceil8(x) by {
        assert(y >= ceil8(x)) by (nonlinear_arith)
            requires
                y >= x,
                y % 8 == 0,
                x >= 0,
        ;
    }
    if x % 8 == 0 {
        assert(ceil8(x) == x) by (nonlinear_arith)
            requires
                x % 8 == 0,
                x >= 0,
        ;
    }
}

/// Writing `w` and then `b` is writing `w` followed by `b`.
proof fn lemma_packed_push(o: Seq<bool>, p: int, w: Seq<bool>, b: bool)
    requires
        0 <= p <= o.len(),
        o.len() % 8 == 0,
    ensures
        packed(packed(o, p, w), p + w.len(), seq![b]) =~= packed(o, p, w.push(b)),
{
    lemma_ceil8(p + w.len());
    lemma_ceil8(p + w.len() + 1);
}

/// Writing `w1` and then `w2` is writing `w1 ++ w2`.
pub proof fn lemma_packed_concat(o: Seq<bool>, p: int, w1: Seq<bool>, w2: Seq<bool>)
    requires
        0 <= p <= o.len(),
        o.len() % 8 == 0,
    ensures
        packed(packed(o, p, w1), p + w1.len(), w2) =~= packed(o, p, w1 + w2),
{
    lemma_ceil8(p + w1.len());
    lemma_ceil8(p + w1.len() + w2.len());
}

/// The bits that a sequence of `(value, n)` writes leave in a buffer that
/// started empty, and the position reached.
pub open spec fn pack_calls(calls: Seq<(usize, nat)>) -> (Seq<bool>, int)
    decreases calls.len(),
{
    if calls.len() == 0 {
        (Seq::empty(), 0)
    } else {
        let (b, p) = pack_calls(calls.drop_last());
        let (v, n) = calls.last();
        (packed(b, p, value_bits(v, n)), p + n)
    }
}

/// The big-endian concatenation of the low `n` bits of each value.
pub open spec fn concat_bits(calls: Seq<(usize, nat)>) -> Seq<bool>
    decreases calls.len(),
{
    if calls.len() == 0 {
        Seq::empty()
    } else {
        concat_bits(calls.drop_last()) + value_bits(calls.last().0, calls.last().1)
    }
}

/// Bit-packer algebra: from a fresh writer, any sequence of `write_bits`
/// calls yields exactly the concatenation of the masked values, right-padded
/// with zeros to a whole byte.
pub proof fn lemma_packer_algebra(calls: Seq<(usize, nat)>)
    ensures
        pack_calls(calls).1 == concat_bits(calls).len(),
        pack_calls(calls).0 =~= Seq::new(
            ceil8(concat_bits(calls).len() as int) as nat,
            |i: int| i < concat_bits(calls).len() && concat_bits(calls)[i],
        ),
    decreases calls.len(),
{
    if calls.len() > 0 {
        lemma_packer_algebra(calls.drop_last());
        let c = concat_bits(calls.drop_last());
        let w = value_bits(calls.last().0, calls.last().1);
        lemma_ceil8(c.len() as int);
        lemma_ceil8((c.len() + w.len()) as int);
        assert(concat_bits(calls) == c + w);
    }
}

/// Writes individual bits into an array of bytes.
pub struct BitPacker {
    array: Vec<u8>,
    p_byte: usize,
    p_bit: usize,
    bm_p_byte: usize,
}

impl BitPacker {
    pub closed spec fn wf(&self) -> bool {
        &&& self.p_bit < 8
        &&& self.p_byte <= self.array@.len()
        &&& (self.p_byte == self.array@.len() ==> self.p_bit == 0)
        &&& self.bm_p_byte <= self.p_byte
        &&& self.array@.len() <= usize::MAX
    }

    pub proof fn lemma_pos_in_bounds(&self)
        requires
            self.wf(),
        ensures
            0 <= self.pos() <= self.bits().len(),
            self.bits().len() % 8 == 0,
            0 <= self.bookmark_pos() <= self.pos() / 8,
            self.pos() / 8 <= self.bytes().len(),
    {
    }

    /// The bytes of the buffer.
    pub closed spec fn bytes(&self) -> Seq<u8> {
        self.array@
    }

    /// The bits of the buffer.
    pub open spec fn bits(&self) -> Seq<bool> {
        bits_of(self.bytes())
    }

    /// Index of the next bit to be written.
    pub closed spec fn pos(&self) -> int {
        8 * self.p_byte + self.p_bit
    }

    /// Byte index of the bookmark.
    pub closed spec fn bookmark_pos(&self) -> int {
        self.bm_p_byte as int
    }

    pub fn new(array: Vec<u8>) -> (r: BitPacker)
        ensures
            r.wf(),
            r.bytes() == array@,
            r.pos() == 0,
            r.bookmark_pos() == 0,
    {
        let len = array.len();
        assert(array@.len() == len);
        BitPacker { array, p_byte: 0, p_bit: 0, bm_p_byte: 0 }
    }

    /// Move the write position to bit `p_bit` of byte `p_byte`.
    pub fn set_pos(&mut self, p_byte: usize, p_bit: usize)
        requires
            old(self).wf(),
            p_bit < 8,
            p_byte < old(self).bytes().len() || (p_byte == old(self).bytes().len() && p_bit == 0),
        ensures
            final(self).wf(),
            final(self).bytes() == old(self).bytes(),
            final(self).pos() == 8 * p_byte + p_bit,
            final(self).bookmark_pos() == 0,
    {
        self.p_byte = p_byte;
        self.p_bit = p_bit;
        self.bm_p_byte = 0;
    }

    /// Byte index of the write position.
    pub fn p_byte(&self) -> (r: usize)
        requires
            self.wf(),
        ensures
            r == self.pos() / 8,
    {
        self.p_byte
    }

    /// Bit offset of the write position within its byte.
    pub fn p_bit(&self) -> (r: usize)
        requires
            self.wf(),
        ensures
            r == self.pos() % 8,
    {
        self.p_bit
    }

    /// The whole buffer, including bytes past the write position.
    pub fn array(&self) -> (r: &[u8])
        ensures
            r@ == self.bytes(),
    {
        self.array.as_slice()
    }

    /// Save the current byte position as a bookmark, where a header can be
    /// written later.
    pub fn bookmark(&mut self)
        requires
            old(self).wf(),
        ensures
            final(self).wf(),
            final(self).bytes() == old(self).bytes(),
            final(self).pos() == old(self).pos(),
            final(self).bookmark_pos() == old(self).pos() / 8,
    {
        self.bm_p_byte = self.p_byte;
    }

    /// The bytes from the bookmark up to the last whole byte written.
    pub fn bookmark_get_from(&self) -> (r: &[u8])
        requires
            self.wf(),
        ensures
            r@ == self.bytes().subrange(self.bookmark_pos(), self.pos() / 8),
    {
        vstd::slice::slice_subrange(self.array.as_slice(), self.bm_p_byte, self.p_byte)
    }

    /// Number of bytes from the bookmark to the write position, counting a
    /// partly written byte.
    pub fn bookmark_get_offset(&self) -> (r: usize)
        requires
            self.wf(),
        ensures
            r == (self.pos() + 7) / 8 - self.bookmark_pos(),
    {
        let offset: usize = if self.p_bit == 0 {
            0
        } else {
            1
        };
        self.p_byte - self.bm_p_byte + offset
    }

    /// Overwrite the bytes from the bookmark on with `array`.
    pub fn bookmark_write(&mut self, array: &[u8])
        requires
            old(self).wf(),
            old(self).bookmark_pos() + array@.len() <= old(self).bytes().len(),
        ensures
            final(self).wf(),
            final(self).pos() == old(self).pos(),
            final(self).bookmark_pos() == old(self).bookmark_pos(),
            final(self).bytes().len() == old(self).bytes().len(),
            forall|i: int|
                0 <= i < old(self).bytes().len() ==> #[trigger] final(self).bytes()[i] == if old(self).bookmark_pos() <= i < old(self).bookmark_pos() + array@.len() {
                    array@[i - old(self).bookmark_pos()]
                } else {
                    old(self).bytes()[i]
                },
    {
        let mut i: usize = 0;
        while i < array.len()
            invariant
                self.wf(),
                i <= array@.len(),
                self.p_byte == old(self).p_byte,
                self.p_bit == old(self).p_bit,
                self.bm_p_byte == old(self).bm_p_byte,
                self.bm_p_byte + array@.len() <= self.array@.len(),
                self.array@.len() == old(self).array@.len(),
                forall|j: int|
                    0 <= j < old(self).array@.len() ==> #[trigger] self.array@[j] == if self.bm_p_byte
                        <= j < self.bm_p_byte + i {
                        array@[j - self.bm_p_byte]
                    } else {
                        old(self).array@[j]
                    },
            decreases array@.len() - i,
        {
            let k = self.bm_p_byte + i;
            assert(k < self.array@.len());
            self.array.set(k, array[i]);
            i += 1;
        }
    }

    /// Append one bit.
    #[verifier::rlimit(60)]
    fn write_bit(&mut self, bit: bool)
        requires
            old(self).wf(),
        ensures
            final(self).wf(),
            final(self).pos() == old(self).pos() + 1,
            final(self).bits() == packed(old(self).bits(), old(self).pos(), seq![bit]),
            final(self).bookmark_pos() == old(self).bookmark_pos(),
    {
        let ghost o = self.bits();
        proof {
            lemma_ceil8(self.pos() + 1);
        }
        if self.p_byte == self.array.len() {
            proof {
                lemma_bits_push_zero(self.array@);
            }
            self.array.push(0u8);
            let len = self.array.len();
            assert(self.array@.len() == len);
        }
        let ghost m = self.bits();
        if bit {
            let b = self.array[self.p_byte] | (0x80u8 >> (self.p_bit as u8));
            proof {
                lemma_bits_set(self.array@, self.p_byte as int, self.p_bit as int);
            }
            self.array.set(self.p_byte, b);
        }
        assert(self.bits() =~= packed(o, old(self).pos(), seq![bit]));
        if self.p_bit == 7 {
            self.p_bit = 0;
            self.p_byte += 1;
        } else {
            self.p_bit += 1;
        }
    }

    /// Append the low `num_bits` bits of `value`, highest first; higher bits
    /// of `value` are ignored.
    pub fn write_bits(&mut self, value: usize, num_bits: usize)
        requires
            old(self).wf(),
            num_bits <= 32,
        ensures
            final(self).wf(),
            final(self).pos() == old(self).pos() + num_bits,
            final(self).bits() == packed(
                old(self).bits(),
                old(self).pos(),
                value_bits(value, num_bits as nat),
            ),
            final(self).bookmark_pos() == old(self).bookmark_pos(),
    {
        let ghost w = value_bits(value, num_bits as nat);
        proof {
            self.lemma_pos_in_bounds();
        }
        let mut i: usize = 0;
        assert(packed(self.bits(), self.pos(), w.subrange(0, 0)) =~= self.bits());
        while i < num_bits
            invariant
                self.wf(),
                i <= num_bits <= 32,
                w == value_bits(value, num_bits as nat),
                self.pos() == old(self).pos() + i,
                self.bits() == packed(old(self).bits(), old(self).pos(), w.subrange(0, i as int)),
                self.bookmark_pos() == old(self).bookmark_pos(),
                0 <= old(self).pos() <= old(self).bits().len(),
                old(self).bits().len() % 8 == 0,
            decreases num_bits - i,
        {
            let bit = (value >> (num_bits - 1 - i)) & 1usize == 1usize;
            proof {
                lemma_packed_push(old(self).bits(), old(self).pos(), w.subrange(0, i as int), bit);
                assert(w.subrange(0, i as int).push(bit) =~= w.subrange(0, i + 1));
            }
            self.write_bit(bit);
            i += 1;
        }
        assert(w.subrange(0, num_bits as int) =~= w);
    }

    /// Advance by `num_zeros` bits without setting any; over a zeroed buffer
    /// this is writing that many zero bits.
    pub fn write_packed_zeros(&mut self, num_zeros: usize)
        requires
            old(self).wf(),
        ensures
            final(self).wf(),
            final(self).pos() == old(self).pos() + num_zeros,
            final(self).bits() == packed(
                old(self).bits(),
                old(self).pos(),
                value_bits(0, num_zeros as nat),
            ),
            final(self).bookmark_pos() == old(self).bookmark_pos(),
    {
        let ghost w = value_bits(0, num_zeros as nat);
        proof {
            self.lemma_pos_in_bounds();
        }
        let mut i: usize = 0;
        assert(packed(self.bits(), self.pos(), w.subrange(0, 0)) =~= self.bits());
        while i < num_zeros
            invariant
                self.wf(),
                i <= num_zeros,
                w == value_bits(0, num_zeros as nat),
                self.pos() == old(self).pos() + i,
                self.bits() == packed(old(self).bits(), old(self).pos(), w.subrange(0, i as int)),
                self.bookmark_pos() == old(self).bookmark_pos(),
                0 <= old(self).pos() <= old(self).bits().len(),
                old(self).bits().len() % 8 == 0,
            decreases num_zeros - i,
        {
            proof {
                let sh = (num_zeros - 1 - i) as usize;
                assert(!((0usize >> sh) & 1usize == 1usize)) by (bit_vector);
                assert(w[i as int] == false);
                lemma_packed_push(old(self).bits(), old(self).pos(), w.subrange(0, i as int), false);
                assert(w.subrange(0, i as int).push(false) =~= w.subrange(0, i + 1));
            }
            self.write_bit(false);
            i += 1;
        }
        assert(w.subrange(0, num_zeros as int) =~= w);
    }

    /// Advance by one bit.
    pub fn inc_counter(&mut self)
        requires
            old(self).wf(),
        ensures
            final(self).wf(),
            final(self).pos() == old(self).pos() + 1,
            final(self).bits() == packed(old(self).bits(), old(self).pos(), value_bits(0, 1)),
            final(self).bookmark_pos() == old(self).bookmark_pos(),
    {
        self.write_bits(0, 1);
    }

    /// Advance by `n_bytes` whole bytes; the position must be byte aligned.
    pub fn inc_counter_n_bytes(&mut self, n_bytes: usize) -> (r: Result<(), BitPackError>)
        requires
            old(self).wf(),
        ensures
            final(self).wf(),
            final(self).bookmark_pos() == old(self).bookmark_pos(),
            old(self).pos() % 8 != 0 ==> r == Err::<(), BitPackError>(BitPackError::NotByteAligned)
                && *final(self) == *old(self),
            old(self).pos() % 8 == 0 ==> r is Ok && final(self).pos() == old(self).pos() + 8
                * n_bytes && final(self).bits() == packed(
                old(self).bits(),
                old(self).pos(),
                Seq::new(8 * n_bytes as nat, |i: int| false),
            ),
    {
        if self.p_bit != 0 {
            return Err(BitPackError::NotByteAligned);
        }
        let ghost z = Seq::new(8 * n_bytes as nat, |i: int| false);
        proof {
            self.lemma_pos_in_bounds();
        }
        let mut i: usize = 0;
        assert(packed(self.bits(), self.pos(), z.subrange(0, 0)) =~= self.bits());
        while i < n_bytes
            invariant
                self.wf(),
                i <= n_bytes,
                self.p_bit == 0,
                z == Seq::new(8 * n_bytes as nat, |i: int| false),
                self.pos() == old(self).pos() + 8 * i,
                self.bits() == packed(old(self).bits(), old(self).pos(), z.subrange(0, 8 * i)),
                self.bookmark_pos() == old(self).bookmark_pos(),
                0 <= old(self).pos() <= old(self).bits().len(),
                old(self).bits().len() % 8 == 0,
            decreases n_bytes - i,
        {
            let ghost w0 = self.bits();
            proof {
                assert(value_bits(0, 8) =~= z.subrange(8 * i, 8 * i + 8)) by {
                    assert forall|j: int| 0 <= j < 8 implies #[trigger] value_bits(0, 8)[j] == false by {
                        let sh = (8 - 1 - j) as usize;
                        assert((0usize >> sh) & 1usize == 0usize) by (bit_vector);
                    }
                }
                lemma_packed_concat(old(self).bits(), old(self).pos(), z.subrange(0, 8 * i), value_bits(0, 8));
                assert(z.subrange(0, 8 * i) + z.subrange(8 * i, 8 * i + 8) =~= z.subrange(0, 8 * i + 8));
            }
            self.write_bits(0, 8);
            i += 1;
        }
        assert(z.subrange(0, 8 * n_bytes) =~= z);
        Ok(())
    }

    /// Move to the start of the next byte unless already there.
    #[verifier::rlimit(30)]
    pub fn complete_byte(&mut self)
        requires
            old(self).wf(),
        ensures
            final(self).wf(),
            final(self).bits() == old(self).bits(),
            final(self).bytes() == old(self).bytes(),
            final(self).pos() == ceil8(old(self).pos()),
            final(self).bookmark_pos() == old(self).bookmark_pos(),
    {
        let ghost at0 = self.pos();
        proof {
            lemma_ceil8(at0);
        }
        if self.p_bit != 0 {
            let ghost pb = self.p_byte as int;
            let ghost bt = self.p_bit as int;
            self.p_byte += 1;
            self.p_bit = 0;
            assert(ceil8(at0) == 8 * pb + 8) by (nonlinear_arith)
                requires
                    at0 == 8 * pb + bt,
                    0 < bt < 8,
                    ceil8(at0) % 8 == 0,
                    ceil8(at0) >= at0,
                    ceil8(at0) < at0 + 8,
            ;
        } else {
            assert(ceil8(at0) == at0) by {
                assert(at0 % 8 == 0);
            }
        }
    }

    /// Move to the start of the next even byte unless already there: a
    /// partial byte is completed and an odd byte position skips one (zero)
    /// byte.
    #[verifier::rlimit(60)]
    pub fn word_align(&mut self)
        requires
            old(self).wf(),
        ensures
            final(self).wf(),
            final(self).pos() % 16 == 0,
            old(self).pos() <= final(self).pos() < old(self).pos() + 16,
            final(self).bits() == packed(
                old(self).bits(),
                old(self).pos(),
                Seq::new((final(self).pos() - old(self).pos()) as nat, |i: int| false),
            ),
            final(self).bookmark_pos() == old(self).bookmark_pos(),
            final(self).bytes().len() >= old(self).bytes().len(),
            forall|k: int|
                0 <= k < final(self).bytes().len() ==> #[trigger] final(self).bytes()[k] == if k < old(self).bytes().len() {
                    old(self).bytes()[k]
                } else {
                    0u8
                },
    {
        let ghost o = self.bits();
        proof {
            lemma_ceil8(self.pos());
        }
        self.complete_byte();
        if self.p_byte % 2 == 1 {
            if self.p_byte == self.array.len() {
                proof {
                    lemma_bits_push_zero(self.array@);
                }
                self.array.push(0u8);
                let len = self.array.len();
                assert(self.array@.len() == len);
            }
            self.p_byte += 1;
        }
        proof {
            let n = (self.pos() - old(self).pos()) as nat;
            lemma_ceil8(old(self).pos() + n);
            assert(self.bits() =~= packed(o, old(self).pos(), Seq::new(n, |i: int| false)));
        }
    }

    /// Number of whole bytes up to the write position.
    pub fn len(&self) -> (r: usize)
        requires
            self.wf(),
        ensures
            r == self.pos() / 8,
    {
        self.p_byte
    }

    /// CRC-16 of the whole bytes from the bookmark to the write position.
    pub fn crc(&self) -> (r: u16)
        requires
            self.wf(),
        ensures
            r == crate::crc::crc16_of(self.bytes().subrange(self.bookmark_pos(), self.pos() / 8)),
    {
        crate::crc::crc16(self.bookmark_get_from())
    }

    /// The whole bytes written so far.
    pub fn as_bytes(&self) -> (r: &[u8])
        requires
            self.wf(),
        ensures
            r@ == self.bytes().subrange(0, self.pos() / 8),
    {
        vstd::slice::slice_subrange(self.array.as_slice(), 0, self.p_byte)
    }

    /// Append whole bytes at the (byte aligned) write position.
    #[verifier::rlimit(60)]
    pub fn write_bytes(&mut self, array: &[u8])
        requires
            old(self).wf(),
            old(self).pos() % 8 == 0,
        ensures
            final(self).wf(),
            final(self).pos() == old(self).pos() + 8 * array@.len(),
            final(self).bookmark_pos() == old(self).bookmark_pos(),
            final(self).bytes().subrange(0, old(self).pos() / 8) == old(self).bytes().subrange(
                0,
                old(self).pos() / 8,
            ),
            final(self).bytes().subrange(old(self).pos() / 8, old(self).pos() / 8 + array@.len())
                == array@,
            final(self).bytes().len() >= old(self).bytes().len(),
            forall|i: int|
                old(self).pos() / 8 + array@.len() <= i < final(self).bytes().len() ==> final(self).bytes()[i] == old(self).bytes()[i],
    {
        let mut i: usize = 0;
        while i < array.len()
            invariant
                self.wf(),
                self.p_bit == 0,
                i <= array@.len(),
                self.p_byte == old(self).p_byte + i,
                self.bm_p_byte == old(self).bm_p_byte,
                self.array@.len() == if old(self).array@.len() >= old(self).p_byte + i {
                    old(self).array@.len() as int
                } else {
                    old(self).p_byte + i
                },
                forall|j: int|
                    0 <= j < self.array@.len() ==> #[trigger] self.array@[j] == if old(self).p_byte
                        <= j < old(self).p_byte + i {
                        array@[j - old(self).p_byte]
                    } else {
                        old(self).array@[j]
                    },
            decreases array@.len() - i,
        {
            if self.p_byte == self.array.len() {
                self.array.push(array[i]);
                let len = self.array.len();
                assert(self.array@.len() == len);
            } else {
                self.array.set(self.p_byte, array[i]);
            }
            self.p_byte += 1;
            i += 1;
        }
        assert(self.array@.subrange(0, old(self).p_byte as int) =~= old(self).array@.subrange(
            0,
            old(self).p_byte as int,
        ));
        assert(self.array@.subrange(
            old(self).p_byte as int,
            old(self).p_byte + array@.len(),
        ) =~= array@);
    }
}

} // verus!
