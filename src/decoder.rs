//! Block and frame decoder.

use vstd::prelude::*;
use crate::bitreader::{BitReader, bits_value, is_zero_run};
use crate::error::X3Error;
use crate::x3::{Parameters, RiceCode, level_of, unzigzag, FrameHeader, FRAME_HEADER_LENGTH, FRAME_KEY, FRAME_MAX_LENGTH};
use crate::bytereader::{ByteReader, be16, word_at};
use crate::bitpacker::bits_of;
use crate::crc::{crc16, crc16_of};

verus! {

/// Outcome of looking for a frame at a position.
pub enum FrameTest {
    IsFrame,
    EndOfBuffer,
    NotFrame,
}

/// The length of the zero run at `pos`.
pub open spec fn zero_run(b: Seq<bool>, pos: int) -> int {
    choose|c: int| is_zero_run(b, pos, c)
}

/// `last + d` wrapped to 16 bits.
pub open spec fn add16(last: i16, d: int) -> i16 {
    let s = last + d;
    if s > 32767 {
        (s - 65536) as i16
    } else if s < -32768 {
        (s + 65536) as i16
    } else {
        s as i16
    }
}

/// A 16-bit word as a signed sample.
pub open spec fn to_i16(u: nat) -> i16 {
    if u >= 32768 {
        (u - 65536) as i16
    } else {
        u as i16
    }
}

/// A `w`-bit word as a signed delta: words above `2^(w-1)` are negative.
pub open spec fn sign_ext(v: nat, w: nat) -> int {
    if v > vstd::arithmetic::power2::pow2((w - 1) as nat) {
        v - vstd::arithmetic::power2::pow2(w)
    } else {
        v as int
    }
}

/// How the samples of a block are coded.
pub enum Coding {
    Rice(RiceCode),
    Bfp(usize),
    Raw,
}

/// Decode one sample at bit `pos` after the sample `last`: its value and the
/// position after it.
pub open spec fn step_spec(b: Seq<bool>, pos: int, last: i16, c: Coding) -> Result<(i16, int), X3Error> {
    let len = b.len() as int;
    match c {
        Coding::Rice(rc) => {
            let n = zero_run(b, pos);
            let at2 = vstd::math::min(pos + n + 1, len);
            let s = bits_value(b, at2, rc.nsubs as nat);
            let u = n * level_of(rc.nsubs as nat) + s;
            if u >= rc.inv_len {
                Err(X3Error::OutOfBoundsInverse)
            } else {
                Ok((add16(last, unzigzag(u as nat)), vstd::math::min(at2 + rc.nsubs, len)))
            }
        },
        Coding::Bfp(w) => Ok(
            (
                add16(last, sign_ext(bits_value(b, pos, w as nat), w as nat)),
                vstd::math::min(pos + w, len),
            ),
        ),
        Coding::Raw => Ok((to_i16(bits_value(b, pos, 16)), vstd::math::min(pos + 16, len))),
    }
}

/// Prefix the samples of a decoding result.
pub open spec fn prepend(pre: Seq<i16>, r: Result<(Seq<i16>, int), X3Error>) -> Result<(Seq<i16>, int), X3Error> {
    match r {
        Ok((s, p)) => Ok((pre + s, p)),
        Err(e) => Err(e),
    }
}

/// Decode `count` samples at bit `pos`, the first following `last`.
pub open spec fn samples_spec(b: Seq<bool>, pos: int, count: nat, last: i16, c: Coding) -> Result<(Seq<i16>, int), X3Error>
    decreases count,
{
    if count == 0 {
        Ok((Seq::empty(), pos))
    } else {
        match step_spec(b, pos, last, c) {
            Err(e) => Err(e),
            Ok((v, at1)) => prepend(seq![v], samples_spec(b, at1, (count - 1) as nat, v, c)),
        }
    }
}

/// Decode a block of `count` samples at bit `pos`: the 2-bit block type
/// selects a Rice family (1 to 3) or, for 0, a 4-bit width field follows:
/// `width = field + 1` bits a delta, 16 meaning raw samples; widths of 5 or
/// less are refused.
pub open spec fn decode_block_spec(b: Seq<bool>, pos: int, count: nat, last: i16, p: Parameters) -> Result<(Seq<i16>, int), X3Error> {
    let len = b.len() as int;
    let ftype = bits_value(b, pos, 2);
    let at1 = vstd::math::min(pos + 2, len);
    if ftype == 0 {
        let nb = bits_value(b, at1, 4) + 1;
        let at2 = vstd::math::min(at1 + 4, len);
        if nb <= 5 {
            Err(X3Error::FrameDecodeInvalidBPF)
        } else if nb == 16 {
            samples_spec(b, at2, count, last, Coding::Raw)
        } else {
            samples_spec(b, at2, count, last, Coding::Bfp(nb as usize))
        }
    } else {
        samples_spec(b, at1, count, last, Coding::Rice(p.rice_codes[ftype - 1]))
    }
}

pub proof fn lemma_zero_run_unique(b: Seq<bool>, pos: int, c: int)
    requires
        is_zero_run(b, pos, c),
    ensures
        zero_run(b, pos) == c,
{
    let d = zero_run(b, pos);
    assert(is_zero_run(b, pos, d));
    if d < c {
        assert(!b[pos + d]);
    } else if d > c {
        assert(!b[pos + c]);
    }
}

proof fn lemma_prepend_push(pre: Seq<i16>, v: i16, r: Result<(Seq<i16>, int), X3Error>)
    ensures
        prepend(pre, prepend(seq![v], r)) == prepend(pre.push(v), r),
{
    match r {
        Ok((s, p)) => {
            assert(pre + (seq![v] + s) =~= pre.push(v) + s);
        },
        Err(e) => {},
    }
}

/// Sign-extend a `num_bits`-bit word: values above `2^(num_bits-1)` are
/// negative.
pub fn unsigned_to_i16(a: u16, num_bits: usize) -> (r: i16)
    requires
        6 <= num_bits <= 15,
        (a as nat) < vstd::arithmetic::power2::pow2(num_bits as nat),
    ensures
        r as int == sign_ext(a as nat, num_bits as nat),
{
    proof {
        vstd::arithmetic::power2::lemma2_to64();
        vstd::arithmetic::power2::lemma_pow2_strictly_increases(num_bits as nat, 16);
        vstd::arithmetic::power2::lemma_pow2_unfold(num_bits as nat);
        vstd::bits::lemma_u32_shl_is_mul(1, num_bits as u32);
        vstd::bits::lemma_u32_shl_is_mul(1, (num_bits - 1) as u32);
    }
    let neg: u32 = 1u32 << (num_bits as u32);
    let neg_thresh: u32 = 1u32 << ((num_bits - 1) as u32);
    let v = a as i32;
    if v > neg_thresh as i32 {
        (v - neg as i32) as i16
    } else {
        v as i16
    }
}

fn add16_exec(last: i16, d: i32) -> (r: i16)
    requires
        -65536 <= d <= 65536,
    ensures
        r == add16(last, d as int),
{
    let s: i32 = last as i32 + d;
    if s > 32767 {
        (s - 65536) as i16
    } else if s < -32768 {
        (s + 65536) as i16
    } else {
        s as i16
    }
}

#[verifier::rlimit(60)]
fn decode_step(br: &mut BitReader, last: i16, c: &Coding) -> (r: Result<i16, X3Error>)
    requires
        old(br).wf(),
        match *c {
            Coding::Rice(rc) => rc == crate::x3::rice_code_spec(rc.nsubs as nat) && rc.nsubs <= 3,
            Coding::Bfp(w) => 6 <= w <= 15,
            Coding::Raw => true,
        },
    ensures
        final(br).wf(),
        final(br).bytes() == old(br).bytes(),
        ({
            let s = step_spec(old(br).bits(), old(br).pos(), last, *c);
            &&& r is Ok <==> s is Ok
            &&& r matches Err(e) ==> s == Err::<(i16, int), X3Error>(e)
            &&& r matches Ok(v) ==> s == Ok::<(i16, int), X3Error>((v, final(br).pos()))
        }),
{
    match c {
        Coding::Rice(rc) => {
            let n = br.count_zero_bits();
            proof {
                lemma_zero_run_unique(old(br).bits(), old(br).pos(), n as int);
            }
            br.read_nbits(1);
            let ghost mid = *br;
            let s = br.read_nbits(rc.nsubs);
            let level = rc.level();
            if n >= rc.inv_len {
                proof {
                    assert(n * level_of(rc.nsubs as nat) >= n) by (nonlinear_arith)
                        requires level_of(rc.nsubs as nat) >= 1;
                }
                return Err(X3Error::OutOfBoundsInverse);
            }
            proof {
                vstd::arithmetic::power2::lemma2_to64();
                crate::bitreader::lemma_bits_value_bound(mid.bits(), mid.pos(), rc.nsubs as nat);
                vstd::arithmetic::power2::lemma_pow2_strictly_increases(rc.nsubs as nat, 4);
                assert(n * level <= 480) by (nonlinear_arith)
                    requires
                        n < 60,
                        level <= 8,
                ;
            }
            let u = n * level + s as usize;
            if u >= rc.inv_len {
                return Err(X3Error::OutOfBoundsInverse);
            }
            let d = rc.inv(u);
            Ok(add16_exec(last, d as i32))
        },
        Coding::Bfp(w) => {
            let v = br.read_nbits(*w);
            proof {
                crate::bitreader::lemma_bits_value_bound(old(br).bits(), old(br).pos(), *w as nat);
                vstd::arithmetic::power2::lemma2_to64();
                vstd::arithmetic::power2::lemma_pow2_strictly_increases(*w as nat, 16);
                vstd::arithmetic::power2::lemma_pow2_unfold(*w as nat);
            }
            let d = unsigned_to_i16(v as u16, *w);
            Ok(add16_exec(last, d as i32))
        },
        Coding::Raw => {
            let v = br.read_nbits(16);
            proof {
                crate::bitreader::lemma_bits_value_bound(old(br).bits(), old(br).pos(), 16);
                vstd::arithmetic::power2::lemma2_to64();
            }
            let u = v as i32;
            Ok(if u >= 32768 {
                (u - 65536) as i16
            } else {
                u as i16
            })
        },
    }
}

#[verifier::rlimit(60)]
fn decode_samples(br: &mut BitReader, wav: &mut [i16], last_wav: &mut i16, c: Coding) -> (r: Result<(), X3Error>)
    requires
        old(br).wf(),
        match c {
            Coding::Rice(rc) => rc == crate::x3::rice_code_spec(rc.nsubs as nat) && rc.nsubs <= 3,
            Coding::Bfp(w) => 6 <= w <= 15,
            Coding::Raw => true,
        },
    ensures
        final(br).wf(),
        final(br).bytes() == old(br).bytes(),
        final(wav)@.len() == old(wav)@.len(),
        r is Err ==> final(wav)@ == old(wav)@ && *final(last_wav) == *old(last_wav),
        ({
            let s = samples_spec(old(br).bits(), old(br).pos(), old(wav)@.len(), *old(last_wav), c);
            &&& r is Ok <==> s is Ok
            &&& r matches Err(e) ==> s == Err::<(Seq<i16>, int), X3Error>(e)
            &&& r is Ok ==> s == Ok::<(Seq<i16>, int), X3Error>((final(wav)@, final(br).pos()))
            &&& r is Ok && old(wav)@.len() > 0 ==> *final(last_wav) == final(wav)@.last()
            &&& r is Ok && old(wav)@.len() == 0 ==> *final(last_wav) == *old(last_wav)
        }),
{
    let ghost b = br.bits();
    let n = wav.len();
    let mut out: Vec<i16> = Vec::new();
    let mut lw = *last_wav;
    let mut i: usize = 0;
    assert(prepend(out@, samples_spec(b, br.pos(), n as nat, lw, c)) == samples_spec(b, br.pos(), n as nat, lw, c)) by {
        match samples_spec(b, br.pos(), n as nat, lw, c) {
            Ok((s, p)) => { assert(out@ + s =~= s); },
            Err(e) => {},
        }
    }
    while i < n
        invariant
            br.wf(),
            br.bits() == b,
            br.bytes() == old(br).bytes(),
            b == old(br).bits(),
            n == old(wav)@.len(),
            out@.len() == i,
            i <= n,
            match c {
                Coding::Rice(rc) => rc == crate::x3::rice_code_spec(rc.nsubs as nat) && rc.nsubs <= 3,
                Coding::Bfp(w) => 6 <= w <= 15,
                Coding::Raw => true,
            },
            samples_spec(b, old(br).pos(), n as nat, *old(last_wav), c) == prepend(
                out@,
                samples_spec(b, br.pos(), (n - i) as nat, lw, c),
            ),
            i > 0 ==> lw == out@[i - 1],
            i == 0 ==> lw == *old(last_wav),
        decreases n - i,
    {
        let ghost pre = out@;
        let step = decode_step(br, lw, &c);
        match step {
            Err(e) => {
                return Err(e);
            },
            Ok(v) => {
                proof {
                    lemma_prepend_push(pre, v, samples_spec(b, br.pos(), (n - i - 1) as nat, v, c));
                }
                out.push(v);
                lw = v;
            },
        }
        i += 1;
    }
    assert(out@ + Seq::<i16>::empty() =~= out@);
    let mut j: usize = 0;
    while j < n
        invariant
            j <= n,
            n == wav@.len(),
            out@.len() == n,
            forall|k: int| 0 <= k < j ==> wav@[k] == out@[k],
        decreases n - j,
    {
        wav[j] = out[j];
        j += 1;
    }
    assert(wav@ =~= out@);
    *last_wav = lw;
    Ok(())
}

/// Decode one block of `wav.len()` samples following `last_wav`, which is
/// left at the block's last sample.
pub fn decode_block(br: &mut BitReader, wav: &mut [i16], last_wav: &mut i16, params: &Parameters) -> (r: Result<(), X3Error>)
    requires
        old(br).wf(),
        params.valid(),
    ensures
        final(br).wf(),
        final(br).bytes() == old(br).bytes(),
        final(wav)@.len() == old(wav)@.len(),
        r is Err ==> final(wav)@ == old(wav)@ && *final(last_wav) == *old(last_wav),
        ({
            let s = decode_block_spec(old(br).bits(), old(br).pos(), old(wav)@.len(), *old(last_wav), *params);
            &&& r is Ok <==> s is Ok
            &&& r matches Err(e) ==> s == Err::<(Seq<i16>, int), X3Error>(e)
            &&& r is Ok ==> s == Ok::<(Seq<i16>, int), X3Error>((final(wav)@, final(br).pos()))
            &&& r is Ok && old(wav)@.len() > 0 ==> *final(last_wav) == final(wav)@.last()
        }),
{
    let ftype = br.read_nbits(2) as usize;
    if ftype == 0 {
        decode_bpf_block(br, wav, last_wav)
    } else {
        proof {
            crate::bitreader::lemma_bits_value_bound(old(br).bits(), old(br).pos(), 2);
            vstd::arithmetic::power2::lemma2_to64();
        }
        let rc = params.rice_codes[ftype - 1];
        decode_samples(br, wav, last_wav, Coding::Rice(rc))
    }
}

/// Decode a block-floating-point or raw block, after its 2-bit type.
pub fn decode_bpf_block(br: &mut BitReader, wav: &mut [i16], last_wav: &mut i16) -> (r: Result<(), X3Error>)
    requires
        old(br).wf(),
    ensures
        final(br).wf(),
        final(br).bytes() == old(br).bytes(),
        final(wav)@.len() == old(wav)@.len(),
        r is Err ==> final(wav)@ == old(wav)@ && *final(last_wav) == *old(last_wav),
        ({
            let b = old(br).bits();
            let nb = bits_value(b, old(br).pos(), 4) + 1;
            let at2 = vstd::math::min(old(br).pos() + 4, b.len() as int);
            let s = if nb <= 5 {
                Err(X3Error::FrameDecodeInvalidBPF)
            } else if nb == 16 {
                samples_spec(b, at2, old(wav)@.len(), *old(last_wav), Coding::Raw)
            } else {
                samples_spec(b, at2, old(wav)@.len(), *old(last_wav), Coding::Bfp(nb as usize))
            };
            &&& r is Ok <==> s is Ok
            &&& r matches Err(e) ==> s == Err::<(Seq<i16>, int), X3Error>(e)
            &&& r is Ok ==> s == Ok::<(Seq<i16>, int), X3Error>((final(wav)@, final(br).pos()))
            &&& r is Ok && old(wav)@.len() > 0 ==> *final(last_wav) == final(wav)@.last()
        }),
{
    let field = br.read_nbits(4);
    proof {
        crate::bitreader::lemma_bits_value_bound(old(br).bits(), old(br).pos(), 4);
        vstd::arithmetic::power2::lemma2_to64();
    }
    let num_bits = (field + 1) as usize;
    if num_bits <= 5 {
        return Err(X3Error::FrameDecodeInvalidBPF);
    }
    if num_bits == 16 {
        decode_samples(br, wav, last_wav, Coding::Raw)
    } else {
        decode_samples(br, wav, last_wav, Coding::Bfp(num_bits))
    }
}

/// The fields of the frame header at the start of `bytes`, or why there is
/// none: too few bytes, a wrong header CRC, a wrong key, more than one
/// channel, or a payload length at the frame size limit.
pub open spec fn read_frame_header_spec(bytes: Seq<u8>) -> Result<FrameHeader, X3Error> {
    if bytes.len() < FRAME_HEADER_LENGTH {
        Err(X3Error::FrameDecodeUnexpectedEnd)
    } else if crc16_of(bytes.subrange(0, 16)) != be16(bytes, 16) {
        Err(X3Error::FrameHeaderInvalidHeaderCRC)
    } else if be16(bytes, 0) != FRAME_KEY {
        Err(X3Error::FrameHeaderInvalidKey)
    } else if bytes[3] > 1 {
        Err(X3Error::MoreThanOneChannel)
    } else if be16(bytes, 6) >= FRAME_MAX_LENGTH {
        Err(X3Error::FrameLength)
    } else {
        Ok(
            FrameHeader {
                source_id: bytes[2],
                samples: be16(bytes, 4),
                channels: bytes[3],
                payload_len: be16(bytes, 6) as usize,
                payload_crc: be16(bytes, 18),
            },
        )
    }
}

fn be16_at(bytes: &[u8], i: usize) -> (r: u16)
    requires
        i + 1 < bytes@.len(),
    ensures
        r == be16(bytes@, i as int),
{
    bytes[i] as u16 * 256 + bytes[i + 1] as u16
}

/// Parse and check the frame header at the start of `bytes`.
pub fn read_frame_header(bytes: &[u8]) -> (r: Result<FrameHeader, X3Error>)
    ensures
        r == read_frame_header_spec(bytes@),
{
    if bytes.len() < FRAME_HEADER_LENGTH {
        return Err(X3Error::FrameDecodeUnexpectedEnd);
    }
    let header_crc = crc16(vstd::slice::slice_subrange(bytes, 0, 16));
    if header_crc != be16_at(bytes, 16) {
        return Err(X3Error::FrameHeaderInvalidHeaderCRC);
    }
    if be16_at(bytes, 0) != FRAME_KEY {
        return Err(X3Error::FrameHeaderInvalidKey);
    }
    let channels = bytes[3];
    if channels > 1 {
        return Err(X3Error::MoreThanOneChannel);
    }
    let payload_len = be16_at(bytes, 6) as usize;
    if payload_len >= FRAME_MAX_LENGTH {
        return Err(X3Error::FrameLength);
    }
    Ok(
        FrameHeader {
            source_id: bytes[2],
            samples: be16_at(bytes, 4),
            channels,
            payload_len,
            payload_crc: be16_at(bytes, 18),
        },
    )
}

/// Decode the blocks of a frame: `remaining` samples in blocks of
/// `block_len`, the last one possibly shorter, each following the last
/// sample of the one before.
pub open spec fn frame_blocks_spec(b: Seq<bool>, pos: int, remaining: nat, last: i16, p: Parameters) -> Result<(Seq<i16>, int), X3Error>
    decreases remaining,
{
    if remaining == 0 || p.block_len == 0 {
        Ok((Seq::empty(), pos))
    } else {
        let n = vstd::math::min(remaining as int, p.block_len as int) as nat;
        match decode_block_spec(b, pos, n, last, p) {
            Err(e) => Err(e),
            Ok((s, at1)) => prepend(s, frame_blocks_spec(b, at1, (remaining - n) as nat, s.last(), p)),
        }
    }
}

/// The samples of a frame payload holding `samples` samples: the first one
/// raw in two bytes, then the blocks of the others.
pub open spec fn frame_samples_spec(bytes: Seq<u8>, samples: nat, p: Parameters) -> Result<Seq<i16>, X3Error> {
    if samples == 0 {
        Ok(Seq::empty())
    } else if bytes.len() < 2 {
        Err(X3Error::FrameDecodeUnexpectedEnd)
    } else {
        let first = to_i16(be16(bytes, 0) as nat);
        match frame_blocks_spec(bits_of(bytes.subrange(2, bytes.len() as int)), 0, (samples - 1) as nat, first, p) {
            Ok((s, _)) => Ok(seq![first] + s),
            Err(e) => Err(e),
        }
    }
}

proof fn lemma_prepend_concat(a: Seq<i16>, c: Seq<i16>, r: Result<(Seq<i16>, int), X3Error>)
    ensures
        prepend(a, prepend(c, r)) == prepend(a + c, r),
{
    match r {
        Ok((s, p)) => {
            assert(a + (c + s) =~= (a + c) + s);
        },
        Err(e) => {},
    }
}

/// Decode the payload of a frame of `samples` samples into the start of
/// `wav_buf`.
#[verifier::rlimit(60)]
pub fn decode_frame(x3_bytes: &[u8], wav_buf: &mut [i16], params: &Parameters, samples: usize) -> (r: Result<Option<usize>, X3Error>)
    requires
        params.valid(),
        old(wav_buf)@.len() >= samples,
        x3_bytes@.len() <= usize::MAX / 8,
    ensures
        final(wav_buf)@.len() == old(wav_buf)@.len(),
        ({
            let s = frame_samples_spec(x3_bytes@, samples as nat, *params);
            &&& r is Ok <==> s is Ok
            &&& r matches Err(e) ==> s == Err::<Seq<i16>, X3Error>(e)
            &&& r is Ok ==> r == Ok::<Option<usize>, X3Error>(Some(samples)) && s == Ok::<Seq<i16>, X3Error>(final(wav_buf)@.subrange(0, samples as int))
        }),
{
    if samples == 0 {
        assert(final(wav_buf)@.subrange(0, 0) =~= Seq::<i16>::empty());
        return Ok(Some(0));
    }
    if x3_bytes.len() < 2 {
        return Err(X3Error::FrameDecodeUnexpectedEnd);
    }
    let first = crate::bytereader::u16_to_i16(be16_at(x3_bytes, 0));
    wav_buf[0] = first;
    let rest = vstd::slice::slice_subrange(x3_bytes, 2, x3_bytes.len());
    let mut br = BitReader::new(rest);
    let ghost b = br.bits();
    assert(b == bits_of(x3_bytes@.subrange(2, x3_bytes@.len() as int)));
    let mut last_wav = first;
    let mut p_wav: usize = 1;
    let mut remaining: usize = samples - 1;
    let ghost whole = frame_blocks_spec(b, 0, (samples - 1) as nat, first, *params);
    assert(prepend(Seq::empty(), whole) == whole) by {
        match whole {
            Ok((s, p)) => { assert(Seq::<i16>::empty() + s =~= s); },
            Err(e) => {},
        }
    }
    while remaining > 0
        invariant
            params.valid(),
            br.wf(),
            br.bits() == b,
            1 <= p_wav <= samples,
            remaining == samples - p_wav,
            wav_buf@.len() == old(wav_buf)@.len(),
            old(wav_buf)@.len() >= samples,
            wav_buf@[0] == first,
            last_wav == wav_buf@[p_wav - 1],
            x3_bytes@.len() >= 2,
            b == bits_of(x3_bytes@.subrange(2, x3_bytes@.len() as int)),
            first == to_i16(be16(x3_bytes@, 0) as nat),
            whole == frame_blocks_spec(b, 0, (samples - 1) as nat, first, *params),
            whole == prepend(wav_buf@.subrange(1, p_wav as int), frame_blocks_spec(b, br.pos(), remaining as nat, last_wav, *params)),
        decreases remaining,
    {
        let n: usize = if remaining < params.block_len {
            remaining
        } else {
            params.block_len
        };
        let mut tmp: Vec<i16> = vec![0i16; n];
        let ghost pos0 = br.pos();
        let ghost pre = wav_buf@.subrange(1, p_wav as int);
        let ghost last0 = last_wav;
        let res = decode_block(&mut br, tmp.as_mut_slice(), &mut last_wav, params);
        match res {
            Err(e) => {
                assert(frame_blocks_spec(b, pos0, remaining as nat, last0, *params) == Err::<(Seq<i16>, int), X3Error>(e));
                assert(whole == Err::<(Seq<i16>, int), X3Error>(e));
                return Err(e);
            },
            Ok(()) => {},
        }
        proof {
            lemma_prepend_concat(pre, tmp@, frame_blocks_spec(b, br.pos(), (remaining - n) as nat, last_wav, *params));
        }
        let mut j: usize = 0;
        while j < n
            invariant
                j <= n,
                tmp@.len() == n,
                p_wav + n <= samples,
                wav_buf@.len() == old(wav_buf)@.len(),
                old(wav_buf)@.len() >= samples,
                wav_buf@[0] == first,
                p_wav >= 1,
                wav_buf@.subrange(1, p_wav as int) == pre,
                forall|k: int| 0 <= k < j ==> wav_buf@[p_wav + k] == tmp@[k],
            decreases n - j,
        {
            wav_buf[p_wav + j] = tmp[j];
            assert(wav_buf@.subrange(1, p_wav as int) =~= pre);
            j += 1;
        }
        assert(wav_buf@.subrange(1, (p_wav + n) as int) =~= pre + tmp@);
        p_wav += n;
        remaining -= n;
    }
    proof {
        match whole {
            Ok((s, p)) => {
                assert(s =~= wav_buf@.subrange(1, samples as int) + Seq::empty());
                assert(wav_buf@.subrange(0, samples as int) =~= seq![first] + s);
            },
            Err(e) => {},
        }
    }
    Ok(Some(samples))
}

/// The samples of the frame at byte `pos`, or why there is none there.
/// `FrameHeaderInvalidPayloadLen` means the payload reaches past the end.
pub open spec fn frame_at_spec(b: Seq<u8>, pos: int, p: Parameters) -> Result<Seq<i16>, X3Error> {
    match read_frame_header_spec(b.subrange(pos, pos + FRAME_HEADER_LENGTH)) {
        Err(e) => Err(e),
        Ok(h) => {
            if pos + FRAME_HEADER_LENGTH + h.payload_len > b.len() {
                Err(X3Error::FrameHeaderInvalidPayloadLen)
            } else {
                let payload = b.subrange(pos + FRAME_HEADER_LENGTH, pos + FRAME_HEADER_LENGTH + h.payload_len);
                if crc16_of(payload) != h.payload_crc {
                    Err(X3Error::FrameHeaderInvalidPayloadCRC)
                } else {
                    frame_samples_spec(payload, h.samples as nat, p)
                }
            }
        },
    }
}

/// Byte position after the frame whose header is at `pos`.
pub open spec fn frame_end(b: Seq<u8>, pos: int) -> int {
    match read_frame_header_spec(b.subrange(pos, pos + FRAME_HEADER_LENGTH)) {
        Ok(h) => pos + FRAME_HEADER_LENGTH + h.payload_len,
        Err(_) => pos,
    }
}

/// Decode a stream of frames from byte `pos` on: the samples of each good
/// frame in order, and the number of times a frame failed after a good one
/// (or at the start). After a failure the decoder moves one byte on and
/// scans for the key "x3"; a payload reaching past the end ends the stream
/// cleanly when it follows a good frame (or starts the stream), and is one
/// more bad candidate while scanning; a tail shorter than a header ends it.
pub open spec fn stream_spec(b: Seq<u8>, pos: int, scanning: bool, synced: bool, p: Parameters) -> (Seq<i16>, nat)
    decreases b.len() - pos, if scanning { 1int } else { 0int },
{
    if pos < 0 || pos >= b.len() {
        (Seq::empty(), 0)
    } else if scanning {
        if pos + 1 >= b.len() {
            (Seq::empty(), 0)
        } else if word_at(b, pos, FRAME_KEY) {
            stream_spec(b, pos, false, synced, p)
        } else {
            stream_spec(b, pos + 1, true, synced, p)
        }
    } else if pos + FRAME_HEADER_LENGTH > b.len() {
        (Seq::empty(), 0)
    } else {
        match frame_at_spec(b, pos, p) {
            Ok(s) => {
                if frame_end(b, pos) <= pos {
                    (Seq::empty(), 0)
                } else {
                    let r = stream_spec(b, frame_end(b, pos), false, true, p);
                    (s + r.0, r.1)
                }
            },
            Err(e) => {
                if synced && e == X3Error::FrameHeaderInvalidPayloadLen {
                    (Seq::empty(), 0)
                } else {
                    let r = stream_spec(b, pos + 1, true, false, p);
                    (r.0, r.1 + if synced { 1nat } else { 0nat })
                }
            },
        }
    }
}

/// Decode the frame at byte `pos`; on success also the position after it.
#[verifier::rlimit(60)]
fn decode_frame_at(bytes: &[u8], pos: usize, params: &Parameters) -> (r: Result<(Vec<i16>, usize), X3Error>)
    requires
        params.valid(),
        pos + FRAME_HEADER_LENGTH <= bytes@.len(),
    ensures
        r is Ok <==> frame_at_spec(bytes@, pos as int, *params) is Ok,
        r matches Err(e) ==> frame_at_spec(bytes@, pos as int, *params) == Err::<Seq<i16>, X3Error>(e),
        r matches Ok((v, next)) ==> frame_at_spec(bytes@, pos as int, *params) == Ok::<Seq<i16>, X3Error>(v@) && next == frame_end(bytes@, pos as int) && next > pos,
{
    let len = bytes.len();
    assert(len == bytes@.len());
    let header = match read_frame_header(vstd::slice::slice_subrange(bytes, pos, pos + FRAME_HEADER_LENGTH)) {
        Ok(h) => h,
        Err(e) => {
            return Err(e);
        },
    };
    if header.payload_len > bytes.len() - pos - FRAME_HEADER_LENGTH {
        return Err(X3Error::FrameHeaderInvalidPayloadLen);
    }
    let start = pos + FRAME_HEADER_LENGTH;
    let payload = vstd::slice::slice_subrange(bytes, start, start + header.payload_len);
    if crc16(payload) != header.payload_crc {
        return Err(X3Error::FrameHeaderInvalidPayloadCRC);
    }
    let samples = header.samples as usize;
    let mut wav: Vec<i16> = vec![0i16; samples];
    match decode_frame(payload, wav.as_mut_slice(), params, samples) {
        Ok(_) => {},
        Err(e) => {
            return Err(e);
        },
    }
    assert(wav@.subrange(0, samples as int) =~= wav@);
    Ok((wav, start + header.payload_len))
}

/// Scanning from `pos` reaches the first key at or after it.
pub proof fn lemma_scan(b: Seq<u8>, pos: int, q: int, synced: bool, p: Parameters)
    requires
        0 <= pos <= q,
        word_at(b, q, FRAME_KEY),
        forall|i: int| pos <= i < q ==> !#[trigger] word_at(b, i, FRAME_KEY),
    ensures
        stream_spec(b, pos, true, synced, p) == stream_spec(b, q, false, synced, p),
    decreases q - pos,
{
    if pos < q {
        lemma_scan(b, pos + 1, q, synced, p);
    }
}

proof fn lemma_scan_none(b: Seq<u8>, pos: int, synced: bool, p: Parameters)
    requires
        0 <= pos,
        forall|i: int| pos <= i ==> !#[trigger] word_at(b, i, FRAME_KEY),
    ensures
        stream_spec(b, pos, true, synced, p) == (Seq::<i16>::empty(), 0nat),
    decreases b.len() - pos,
{
    if pos < b.len() && pos + 1 < b.len() {
        assert(!word_at(b, pos, FRAME_KEY));
        lemma_scan_none(b, pos + 1, synced, p);
    }
}

/// Decode every frame of `bytes`, resynchronising on the frame key after a
/// bad frame. Returns the samples and the number of losses of sync.
#[verifier::rlimit(60)]
pub fn decode_frames(bytes: &[u8], params: &Parameters) -> (r: (Vec<i16>, usize))
    requires
        params.valid(),
    ensures
        (r.0@, r.1 as nat) == stream_spec(bytes@, 0, false, true, *params),
{
    let mut reader = ByteReader::new(bytes);
    let mut out: Vec<i16> = Vec::new();
    let mut errors: usize = 0;
    let mut synced = true;
    let mut scanning = false;
    let ghost whole = stream_spec(bytes@, 0, false, true, *params);
    loop
        invariant
            params.valid(),
            reader.bytes() == bytes@,
            whole == stream_spec(bytes@, 0, false, true, *params),
            0 <= reader.pos(),
            errors <= reader.pos(),
            reader.pos() <= bytes@.len(),
            ({
                let rest = stream_spec(bytes@, reader.pos(), scanning, synced, *params);
                whole == (out@ + rest.0, (errors + rest.1) as nat)
            }),
        ensures
            whole == (out@, errors as nat),
        decreases bytes@.len() - reader.pos(), if scanning { 1int } else { 0int },
    {
        let pos = reader.get_pos();
        if pos >= bytes.len() {
            assert(out@ + Seq::<i16>::empty() =~= out@);
            assert(whole == (out@, errors as nat));
            break;
        }
        if scanning {
            let found = reader.find_le_u16(FRAME_KEY);
            if !found {
                proof {
                    lemma_scan_none(bytes@, pos as int, synced, *params);
                }
                assert(out@ + Seq::<i16>::empty() =~= out@);
                assert(whole == (out@, errors as nat));
                break;
            }
            proof {
                lemma_scan(bytes@, pos as int, reader.pos(), synced, *params);
            }
            scanning = false;
        } else {
            if bytes.len() - pos < FRAME_HEADER_LENGTH {
                assert(out@ + Seq::<i16>::empty() =~= out@);
                assert(whole == (out@, errors as nat));
                break;
            }
            match decode_frame_at(bytes, pos, params) {
                Ok((v, next)) => {
                    let ghost before = out@;
                    let mut i: usize = 0;
                    while i < v.len()
                        invariant
                            i <= v@.len(),
                            out@ == before + v@.subrange(0, i as int),
                        decreases v@.len() - i,
                    {
                        out.push(v[i]);
                        assert(out@ =~= before + v@.subrange(0, i + 1));
                        i += 1;
                    }
                    assert(v@.subrange(0, v@.len() as int) =~= v@);
                    proof {
                        let r = stream_spec(bytes@, next as int, false, true, *params);
                        assert(before + (v@ + r.0) =~= out@ + r.0);
                    }
                    reader.set_pos(next);
                    synced = true;
                },
                Err(X3Error::FrameHeaderInvalidPayloadLen) if synced => {
                    assert(out@ + Seq::<i16>::empty() =~= out@);
                    assert(whole == (out@, errors as nat));
                    break;
                },
                Err(_) => {
                    if synced {
                        errors += 1;
                    }
                    synced = false;
                    scanning = true;
                    reader.set_pos(pos + 1);
                },
            }
        }
    }
    (out, errors)
}

} // verus!
