//! Decoding inverts encoding: the bits that the block encoder writes decode
//! to the samples they were made from.

use vstd::prelude::*;
use vstd::arithmetic::power2::{pow2, lemma_pow2_unfold, lemma2_to64};
use crate::bitpacker::{value_bits, bits_of, bit_of_byte};
use crate::bytereader::be16;
use crate::bitreader::{bits_value, is_zero_run};
use crate::decoder::{frame_at_spec, frame_end, stream_spec, read_frame_header_spec, frame_samples_spec, Coding, step_spec, samples_spec, decode_block_spec, frame_blocks_spec, prepend, zero_run, lemma_zero_run_unique, add16, sign_ext, to_i16};
use crate::encoder::{is_frame, is_frames_of, frame_bits, pad16, blocks_bits, diff_spec, rice_word, rice_words, bfp_words, raw_words, abs_int, twos, raw16, block_bits, max_abs, uses_rice, uses_raw, rice_choice, threshold_rice, delta_fits, fits, bfp_field, bit_width, lemma_max_abs_bounds, lemma_bit_width_mono, lemma_bit_width_lower};
use crate::x3::{Parameters, FrameHeader, frame_header_spec, header_prefix_spec, FRAME_HEADER_LENGTH, FRAME_MAX_LENGTH, FRAME_KEY};
use crate::crc::crc16_of;
use crate::x3::{RiceCode, rice_code_spec, rice_limit, level_of, zigzag, unzigzag};

verus! {

/// Reading `n` bits where `value_bits(v, n)` was written gives `v` modulo
/// `2^n`.
pub proof fn lemma_read_value(b: Seq<bool>, pos: int, v: usize, n: nat)
    requires
        0 <= pos,
        pos + n <= b.len(),
        n <= 64,
        b.subrange(pos, pos + n) == value_bits(v, n),
    ensures
        bits_value(b, pos, n) == (v as nat) % pow2(n),
    decreases n,
{
    if n == 0 {
        lemma2_to64();
    } else {
        let h = (v >> 1usize) as usize;
        assert(b.subrange(pos, pos + n - 1) =~= value_bits(h, (n - 1) as nat)) by {
            assert forall|i: int| 0 <= i < n - 1 implies #[trigger] b.subrange(pos, pos + n - 1)[i] == value_bits(h, (n - 1) as nat)[i] by {
                assert(b.subrange(pos, pos + n - 1)[i] == b.subrange(pos, pos + n)[i]);
                let k = (n - 2 - i) as usize;
                assert((h >> k) & 1usize == (v >> ((k + 1) as usize)) & 1usize) by (bit_vector)
                    requires
                        h == v >> 1usize,
                        k < 63,
                ;
            }
        }
        lemma_read_value(b, pos, h, (n - 1) as nat);
        assert(b[pos + n - 1] == b.subrange(pos, pos + n)[n - 1]);
        assert(((v >> 0usize) & 1usize == 1usize) == (v % 2 == 1)) by (bit_vector);
        assert(h == v / 2) by (bit_vector)
            requires
                h == v >> 1usize,
        ;
        lemma_pow2_unfold(n);
        vstd::arithmetic::power2::lemma_pow2_pos((n - 1) as nat);
        vstd::arithmetic::div_mod::lemma_mod_breakdown(v as int, 2, pow2((n - 1) as nat) as int);
    }
}

/// The codeword prefix `level + r` is a one bit followed by `r` on `k` bits.
proof fn lemma_code_bits(k: nat, r: usize)
    requires
        k <= 3,
        r < level_of(k),
    ensures
        value_bits((level_of(k) + r) as usize, k + 1)[0],
        value_bits((level_of(k) + r) as usize, k + 1).subrange(1, (k + 1) as int) =~= value_bits(r, k),
{
    let c = (level_of(k) + r) as usize;
    let ku = k as usize;
    assert(level_of(k) == 1usize << ku) by {
        if k == 0 {
            assert(1usize << 0usize == 1usize) by (bit_vector);
        } else if k == 1 {
            assert(1usize << 1usize == 2usize) by (bit_vector);
        } else if k == 2 {
            assert(1usize << 2usize == 4usize) by (bit_vector);
        } else {
            assert(1usize << 3usize == 8usize) by (bit_vector);
        }
    }
    assert((c >> ku) & 1usize == 1usize) by (bit_vector)
        requires
            c == (1usize << ku) + r,
            r < (1usize << ku),
            ku <= 3,
    ;
    assert forall|i: int| 0 <= i < k implies #[trigger] value_bits(c, k + 1).subrange(1, (k + 1) as int)[i] == value_bits(r, k)[i] by {
        let j = (k - 1 - i) as usize;
        assert((c >> j) & 1usize == (r >> j) & 1usize) by (bit_vector)
            requires
                c == (1usize << ku) + r,
                r < (1usize << ku),
                ku <= 3,
                j < ku,
        ;
    }
}

proof fn lemma_zero_bits(q: nat, j: int)
    requires
        0 <= j < q,
        q <= 64,
    ensures
        !value_bits(0, q)[j],
{
    let sh = (q - 1 - j) as usize;
    assert((0usize >> sh) & 1usize == 0usize) by (bit_vector);
}

/// One Rice codeword decodes to its delta.
#[verifier::rlimit(60)]
pub proof fn lemma_rice_step(b: Seq<bool>, pos: int, rc: RiceCode, d: int, last: i16)
    requires
        rc.nsubs <= 3,
        rc == rice_code_spec(rc.nsubs as nat),
        delta_fits(rc, d),
        0 <= pos,
        pos + rice_word(rc, d).len() <= b.len(),
        b.subrange(pos, pos + rice_word(rc, d).len()) == rice_word(rc, d),
        -32768 <= last + d <= 32767,
    ensures
        step_spec(b, pos, last, Coding::Rice(rc)) == Ok::<(i16, int), crate::error::X3Error>(((last + d) as i16, pos + rice_word(rc, d).len())),
{
    let k = rc.nsubs as nat;
    let level = level_of(k);
    let u = zigzag(d);
    let q = u / level;
    let r = u % level;
    let w1 = value_bits(0, q);
    let w2 = value_bits((level + r) as usize, k + 1);
    let rw = rice_word(rc, d);
    assert(rw == w1 + w2);
    assert(u <= 57);
    assert(q <= 57) by (nonlinear_arith)
        requires
            q == u / level,
            level >= 1,
            u <= 57,
    ;
    lemma_code_bits(k, r as usize);
    assert(is_zero_run(b, pos, q as int)) by {
        assert forall|j: int| pos <= j < pos + q implies !b[j] by {
            assert(b[j] == b.subrange(pos, pos + rw.len())[j - pos]);
            lemma_zero_bits(q, j - pos);
        }
        assert(b[pos + q] == b.subrange(pos, pos + rw.len())[q as int]);
    }
    lemma_zero_run_unique(b, pos, q as int);
    let at2 = pos + q + 1;
    assert(b.subrange(at2, at2 + k) =~= value_bits(r as usize, k)) by {
        assert forall|i: int| 0 <= i < k implies #[trigger] b.subrange(at2, at2 + k)[i] == value_bits(r as usize, k)[i] by {
            assert(b.subrange(at2, at2 + k)[i] == b.subrange(pos, pos + rw.len())[q + 1 + i]);
            assert(w2.subrange(1, (k + 1) as int)[i] == w2[1 + i]);
        }
    }
    lemma_read_value(b, at2, r as usize, k);
    lemma2_to64();
    assert(pow2(k) == level);
    assert(q * level + r == u) by (nonlinear_arith)
        requires
            q == u / level,
            r == u % level,
            level >= 1,
    ;
    assert(unzigzag(u) == d);
    assert(r % pow2(k) == r) by {
        vstd::arithmetic::div_mod::lemma_small_mod(r, pow2(k));
    }
    assert(bits_value(b, at2, k) == r);
    assert(u < rc.inv_len);
    assert(rw.len() == q + k + 1);
    assert(vstd::math::min(pos + zero_run(b, pos) + 1, b.len() as int) == at2);
    assert(vstd::math::min(at2 + rc.nsubs, b.len() as int) == pos + rw.len());
    assert(add16(last, d) == (last + d) as i16);
}

/// One block-floating-point word decodes to its delta.
pub proof fn lemma_bfp_step(b: Seq<bool>, pos: int, d: int, w: nat, last: i16)
    requires
        6 <= w <= 15,
        abs_int(d) < pow2((w - 1) as nat),
        0 <= pos,
        pos + w <= b.len(),
        b.subrange(pos, pos + w) == value_bits(twos(d, w) as usize, w),
        -32768 <= last + d <= 32767,
    ensures
        step_spec(b, pos, last, Coding::Bfp(w as usize)) == Ok::<(i16, int), crate::error::X3Error>(((last + d) as i16, pos + w)),
{
    lemma2_to64();
    lemma_pow2_unfold(w);
    vstd::arithmetic::power2::lemma_pow2_strictly_increases(w, 16);
    let t = twos(d, w);
    assert(t < pow2(w));
    lemma_read_value(b, pos, t as usize, w);
    vstd::arithmetic::div_mod::lemma_small_mod(t, pow2(w));
    assert(bits_value(b, pos, w) == t);
    assert(sign_ext(t, w) == d);
    assert(add16(last, d) == (last + d) as i16);
}

/// One raw word decodes to its sample.
pub proof fn lemma_raw_step(b: Seq<bool>, pos: int, x: i16, last: i16)
    requires
        0 <= pos,
        pos + 16 <= b.len(),
        b.subrange(pos, pos + 16) == value_bits(raw16(x) as usize, 16),
    ensures
        step_spec(b, pos, last, Coding::Raw) == Ok::<(i16, int), crate::error::X3Error>((x, pos + 16)),
{
    lemma2_to64();
    lemma_read_value(b, pos, raw16(x) as usize, 16);
    vstd::arithmetic::div_mod::lemma_small_mod(raw16(x), pow2(16));
    assert(to_i16(raw16(x)) == x);
}

/// `d` are the deltas of the samples `s` following the sample `last`.
pub open spec fn is_delta_chain(s: Seq<i16>, d: Seq<i32>, last: i16) -> bool {
    &&& d.len() == s.len()
    &&& forall|i: int| 0 <= i < s.len() ==> #[trigger] d[i] == s[i] - (if i == 0 { last } else { s[i - 1] })
}

proof fn lemma_chain_tail(s: Seq<i16>, d: Seq<i32>, last: i16)
    requires
        is_delta_chain(s, d, last),
        s.len() >= 1,
    ensures
        is_delta_chain(s.subrange(1, s.len() as int), d.subrange(1, d.len() as int), s[0]),
        d[0] == s[0] - last,
{
    let s1 = s.subrange(1, s.len() as int);
    let d1 = d.subrange(1, d.len() as int);
    assert forall|i: int| 0 <= i < s1.len() implies #[trigger] d1[i] == s1[i] - (if i == 0 { s[0] } else { s1[i - 1] }) by {
        assert(d[i + 1] == s[i + 1] - s[i]);
    }
}

proof fn lemma_split(b: Seq<bool>, pos: int, x: Seq<bool>, y: Seq<bool>)
    requires
        0 <= pos,
        pos + x.len() + y.len() <= b.len(),
        b.subrange(pos, pos + x.len() + y.len()) == x + y,
    ensures
        b.subrange(pos, pos + x.len()) == x,
        b.subrange(pos + x.len(), pos + x.len() + y.len()) == y,
{
    assert(b.subrange(pos, pos + x.len()) =~= (x + y).subrange(0, x.len() as int));
    assert(b.subrange(pos + x.len(), pos + x.len() + y.len()) =~= (x + y).subrange(x.len() as int, (x.len() + y.len()) as int));
}

proof fn lemma_rice_words_front(rc: RiceCode, d: Seq<i32>)
    requires
        d.len() >= 1,
    ensures
        rice_words(rc, d) == rice_word(rc, d[0] as int) + rice_words(rc, d.subrange(1, d.len() as int)),
    decreases d.len(),
{
    let t = d.subrange(1, d.len() as int);
    if d.len() == 1 {
        assert(d.drop_last() =~= Seq::<i32>::empty());
        assert(t =~= Seq::<i32>::empty());
        assert(rice_word(rc, d[0] as int) + Seq::<bool>::empty() =~= rice_word(rc, d[0] as int));
        assert(Seq::<bool>::empty() + rice_word(rc, d[0] as int) =~= rice_word(rc, d[0] as int));
    } else {
        lemma_rice_words_front(rc, d.drop_last());
        assert(d.drop_last().subrange(1, d.len() - 1) =~= t.drop_last());
        assert(rice_words(rc, d) =~= rice_word(rc, d[0] as int) + rice_words(rc, t));
    }
}

proof fn lemma_bfp_words_front(d: Seq<i32>, w: nat)
    requires
        d.len() >= 1,
    ensures
        bfp_words(d, w) == value_bits(twos(d[0] as int, w) as usize, w) + bfp_words(d.subrange(1, d.len() as int), w),
    decreases d.len(),
{
    let t = d.subrange(1, d.len() as int);
    let h = value_bits(twos(d[0] as int, w) as usize, w);
    if d.len() == 1 {
        assert(d.drop_last() =~= Seq::<i32>::empty());
        assert(t =~= Seq::<i32>::empty());
        assert(h + Seq::<bool>::empty() =~= h);
        assert(Seq::<bool>::empty() + h =~= h);
    } else {
        lemma_bfp_words_front(d.drop_last(), w);
        assert(d.drop_last().subrange(1, d.len() - 1) =~= t.drop_last());
        assert(bfp_words(d, w) =~= h + bfp_words(t, w));
    }
}

proof fn lemma_raw_words_front(s: Seq<i16>)
    requires
        s.len() >= 1,
    ensures
        raw_words(s) == value_bits(raw16(s[0]) as usize, 16) + raw_words(s.subrange(1, s.len() as int)),
    decreases s.len(),
{
    let t = s.subrange(1, s.len() as int);
    let h = value_bits(raw16(s[0]) as usize, 16);
    if s.len() == 1 {
        assert(s.drop_last() =~= Seq::<i16>::empty());
        assert(t =~= Seq::<i16>::empty());
        assert(h + Seq::<bool>::empty() =~= h);
        assert(Seq::<bool>::empty() + h =~= h);
    } else {
        lemma_raw_words_front(s.drop_last());
        assert(s.drop_last().subrange(1, s.len() - 1) =~= t.drop_last());
        assert(raw_words(s) =~= h + raw_words(t));
    }
}

/// Rice codewords of a delta chain decode to its samples.
pub proof fn lemma_rice_samples(b: Seq<bool>, pos: int, rc: RiceCode, s: Seq<i16>, d: Seq<i32>, last: i16)
    requires
        rc.nsubs <= 3,
        rc == rice_code_spec(rc.nsubs as nat),
        is_delta_chain(s, d, last),
        fits(rc, d),
        0 <= pos,
        pos + rice_words(rc, d).len() <= b.len(),
        b.subrange(pos, pos + rice_words(rc, d).len()) == rice_words(rc, d),
    ensures
        samples_spec(b, pos, s.len(), last, Coding::Rice(rc)) == Ok::<(Seq<i16>, int), crate::error::X3Error>((s, pos + rice_words(rc, d).len())),
    decreases s.len(),
{
    if s.len() == 0 {
        assert(s =~= Seq::<i16>::empty());
    } else {
        lemma_chain_tail(s, d, last);
        lemma_rice_words_front(rc, d);
        let x = rice_word(rc, d[0] as int);
        let s1 = s.subrange(1, s.len() as int);
        let d1 = d.subrange(1, d.len() as int);
        let y = rice_words(rc, d1);
        lemma_split(b, pos, x, y);
        lemma_rice_step(b, pos, rc, d[0] as int, last);
        assert((last + d[0]) as i16 == s[0]);
        lemma_rice_samples(b, pos + x.len(), rc, s1, d1, s[0]);
        assert(seq![s[0]] + s1 =~= s);
    }
}

/// Block-floating-point words of a delta chain decode to its samples.
pub proof fn lemma_bfp_samples(b: Seq<bool>, pos: int, w: nat, s: Seq<i16>, d: Seq<i32>, last: i16)
    requires
        6 <= w <= 15,
        is_delta_chain(s, d, last),
        forall|i: int| 0 <= i < d.len() ==> abs_int(#[trigger] d[i] as int) < pow2((w - 1) as nat),
        0 <= pos,
        pos + bfp_words(d, w).len() <= b.len(),
        b.subrange(pos, pos + bfp_words(d, w).len()) == bfp_words(d, w),
    ensures
        samples_spec(b, pos, s.len(), last, Coding::Bfp(w as usize)) == Ok::<(Seq<i16>, int), crate::error::X3Error>((s, pos + bfp_words(d, w).len())),
    decreases s.len(),
{
    if s.len() == 0 {
        assert(s =~= Seq::<i16>::empty());
    } else {
        lemma_chain_tail(s, d, last);
        lemma_bfp_words_front(d, w);
        let x = value_bits(twos(d[0] as int, w) as usize, w);
        let s1 = s.subrange(1, s.len() as int);
        let d1 = d.subrange(1, d.len() as int);
        let y = bfp_words(d1, w);
        lemma_split(b, pos, x, y);
        lemma_bfp_step(b, pos, d[0] as int, w, last);
        assert((last + d[0]) as i16 == s[0]);
        lemma_bfp_samples(b, pos + x.len(), w, s1, d1, s[0]);
        assert(seq![s[0]] + s1 =~= s);
    }
}

/// Raw words decode to their samples.
pub proof fn lemma_raw_samples(b: Seq<bool>, pos: int, s: Seq<i16>, last: i16)
    requires
        0 <= pos,
        pos + raw_words(s).len() <= b.len(),
        b.subrange(pos, pos + raw_words(s).len()) == raw_words(s),
    ensures
        samples_spec(b, pos, s.len(), last, Coding::Raw) == Ok::<(Seq<i16>, int), crate::error::X3Error>((s, pos + raw_words(s).len())),
    decreases s.len(),
{
    if s.len() == 0 {
        assert(s =~= Seq::<i16>::empty());
    } else {
        lemma_raw_words_front(s);
        let x = value_bits(raw16(s[0]) as usize, 16);
        let s1 = s.subrange(1, s.len() as int);
        let y = raw_words(s1);
        lemma_split(b, pos, x, y);
        lemma_raw_step(b, pos, s[0], last);
        lemma_raw_samples(b, pos + 16, s1, s[0]);
        assert(seq![s[0]] + s1 =~= s);
    }
}

/// A 6-bit header holding `x < 16`: block type 0, then `x` on four bits.
proof fn lemma_header_bits(x: usize)
    requires
        x < 16,
    ensures
        value_bits(x, 6).subrange(0, 2) =~= value_bits(0, 2),
        value_bits(x, 6).subrange(2, 6) =~= value_bits(x, 4),
{
    assert forall|i: int| 0 <= i < 2 implies #[trigger] value_bits(x, 6).subrange(0, 2)[i] == value_bits(0, 2)[i] by {
        let j = (5 - i) as usize;
        let k = (1 - i) as usize;
        assert((x >> j) & 1usize == 0usize) by (bit_vector)
            requires
                x < 16,
                j == 5 || j == 4,
        ;
        assert((0usize >> k) & 1usize == 0usize) by (bit_vector);
    }
}

/// Round trip of one block: where the encoder wrote the bits of a block of
/// samples `s` with deltas `d` after the sample `last`, the block decoder
/// gives back exactly `s` and stops right after those bits.
#[verifier::rlimit(60)]
pub proof fn lemma_block_round_trip(b: Seq<bool>, pos: int, s: Seq<i16>, d: Seq<i32>, last: i16, p: Parameters)
    requires
        p.valid(),
        is_delta_chain(s, d, last),
        0 <= pos,
        pos + block_bits(s, d, p).len() <= b.len(),
        b.subrange(pos, pos + block_bits(s, d, p).len()) == block_bits(s, d, p),
    ensures
        decode_block_spec(b, pos, s.len(), last, p) == Ok::<(Seq<i16>, int), crate::error::X3Error>((s, pos + block_bits(s, d, p).len())),
{
    reveal(block_bits);
    lemma2_to64();
    let m = max_abs(d);
    let blk = block_bits(s, d, p);
    if uses_rice(d, p) {
        let f = rice_choice(d, p);
        let rc = p.rice_codes[f];
        let h = value_bits((f + 1) as usize, 2);
        let r = rice_words(rc, d);
        lemma_split(b, pos, h, r);
        lemma_read_value(b, pos, (f + 1) as usize, 2);
        vstd::arithmetic::div_mod::lemma_small_mod((f + 1) as nat, pow2(2));
        assert(bits_value(b, pos, 2) == f + 1);
        assert(rc == rice_code_spec(p.codes[f] as nat));
        assert(fits(rc, d));
        lemma_rice_samples(b, pos + 2, rc, s, d, last);
    } else {
        let x: usize = if uses_raw(d, p) {
            15
        } else {
            bfp_field(m) as usize
        };
        assert(x < 16 && x >= 5) by {
            if !uses_raw(d, p) {
                assert(bit_width(m as nat) < 15);
            }
        }
        let h = value_bits(x, 6);
        lemma_header_bits(x);
        let rest = blk.subrange(6, blk.len() as int);
        assert(blk =~= h + rest);
        lemma_split(b, pos, h, rest);
        assert(h.subrange(0, 2) + h.subrange(2, 6) =~= h);
        lemma_split(b, pos, h.subrange(0, 2), h.subrange(2, 6));
        lemma_read_value(b, pos, 0, 2);
        lemma_read_value(b, pos + 2, x, 4);
        vstd::arithmetic::div_mod::lemma_small_mod(x as nat, pow2(4));
        vstd::arithmetic::div_mod::lemma_small_mod(0, pow2(2));
        assert(bits_value(b, pos, 2) == 0);
        assert(bits_value(b, pos + 2, 4) == x);
        if uses_raw(d, p) {
            assert(rest =~= raw_words(s));
            lemma_raw_samples(b, pos + 6, s, last);
        } else {
            let w = (x + 1) as nat;
            assert(rest =~= bfp_words(d, w));
            assert forall|i: int| 0 <= i < d.len() implies abs_int(#[trigger] d[i] as int) < pow2((w - 1) as nat) by {
                lemma_max_abs_bounds(d, i);
                lemma_bit_width_mono(abs_int(d[i] as int) as nat, m as nat);
                lemma_bit_width_lower(abs_int(d[i] as int) as nat, x as nat);
            }
            lemma_bfp_samples(b, pos + 6, w, s, d, last);
        }
    }
}

/// Round trip of the blocks of a frame from sample `start` on.
#[verifier::rlimit(60)]
pub proof fn lemma_blocks_round_trip(b: Seq<bool>, pos: int, wav: Seq<i16>, start: int, p: Parameters)
    requires
        p.valid(),
        1 <= start <= wav.len(),
        0 <= pos,
        pos + blocks_bits(wav, start, p).len() <= b.len(),
        b.subrange(pos, pos + blocks_bits(wav, start, p).len()) == blocks_bits(wav, start, p),
    ensures
        frame_blocks_spec(b, pos, (wav.len() - start) as nat, wav[start - 1], p) == Ok::<(Seq<i16>, int), crate::error::X3Error>(
            (wav.subrange(start, wav.len() as int), pos + blocks_bits(wav, start, p).len()),
        ),
    decreases wav.len() - start,
{
    if start == wav.len() {
        assert(wav.subrange(start, wav.len() as int) =~= Seq::<i16>::empty());
    } else {
        let end = vstd::math::min(start + p.block_len, wav.len() as int);
        let blk = wav.subrange(start, end);
        let dblk = diff_spec(wav).subrange(start - 1, end - 1);
        assert(is_delta_chain(blk, dblk, wav[start - 1])) by {
            assert forall|i: int| 0 <= i < blk.len() implies #[trigger] dblk[i] == blk[i] - (if i == 0 { wav[start - 1] } else { blk[i - 1] }) by {
                assert(dblk[i] == diff_spec(wav)[start - 1 + i]);
            }
        }
        let x = block_bits(blk, dblk, p);
        let y = blocks_bits(wav, end, p);
        assert(blocks_bits(wav, start, p) == x + y);
        lemma_split(b, pos, x, y);
        lemma_block_round_trip(b, pos, blk, dblk, wav[start - 1], p);
        lemma_blocks_round_trip(b, pos + x.len(), wav, end, p);
        assert(blk.last() == wav[end - 1]);
        assert(blk + wav.subrange(end, wav.len() as int) =~= wav.subrange(start, wav.len() as int));
        assert((wav.len() - start) as nat - (end - start) as nat == (wav.len() - end) as nat);
    }
}

/// The eight bits of byte `i` of `s` read back as that byte.
proof fn lemma_byte_bits(s: Seq<u8>, i: int)
    requires
        0 <= i < s.len(),
    ensures
        bits_of(s).subrange(8 * i, 8 * i + 8) =~= value_bits(s[i] as usize, 8),
        bits_value(bits_of(s), 8 * i, 8) == s[i],
{
    let x = s[i];
    assert forall|k: int| 0 <= k < 8 implies #[trigger] bits_of(s).subrange(8 * i, 8 * i + 8)[k] == value_bits(x as usize, 8)[k] by {
        assert((8 * i + k) / 8 == i && (8 * i + k) % 8 == k) by (nonlinear_arith)
            requires
                0 <= k < 8,
        ;
        let sh8 = (7 - k) as u8;
        let sh = (7 - k) as usize;
        assert(((x >> sh8) & 1u8 == 1u8) == (((x as usize) >> sh) & 1usize == 1usize)) by (bit_vector)
            requires
                sh8 < 8,
                sh == sh8 as usize,
        ;
    }
    assert(bits_of(s).subrange(8 * i, 8 * i + 8) =~= value_bits(x as usize, 8));
    lemma_read_value(bits_of(s), 8 * i, x as usize, 8);
    lemma2_to64();
    vstd::arithmetic::div_mod::lemma_small_mod(x as nat, pow2(8));
}

/// The first two bytes of a payload that starts with the 16 bits of `v`
/// form `v` big-endian.
proof fn lemma_be16_bits(s: Seq<u8>, v: usize)
    requires
        s.len() >= 2,
        v < 65536,
        bits_of(s).subrange(0, 16) == value_bits(v, 16),
    ensures
        be16(s, 0) == v,
{
    let hi = (v >> 8usize) as usize;
    lemma_byte_bits(s, 0);
    lemma_byte_bits(s, 1);
    assert(bits_of(s).subrange(0, 8) =~= value_bits(hi, 8)) by {
        assert forall|k: int| 0 <= k < 8 implies #[trigger] bits_of(s).subrange(0, 8)[k] == value_bits(hi, 8)[k] by {
            assert(bits_of(s).subrange(0, 8)[k] == bits_of(s).subrange(0, 16)[k]);
            let j = (7 - k) as usize;
            assert((hi >> j) & 1usize == (v >> ((j + 8) as usize)) & 1usize) by (bit_vector)
                requires
                    hi == v >> 8usize,
                    j < 8,
            ;
        }
    }
    assert(bits_of(s).subrange(8, 16) =~= value_bits(v, 8)) by {
        assert forall|k: int| 0 <= k < 8 implies #[trigger] bits_of(s).subrange(8, 16)[k] == value_bits(v, 8)[k] by {
            assert(bits_of(s).subrange(8, 16)[k] == bits_of(s).subrange(0, 16)[8 + k]);
        }
    }
    lemma_read_value(bits_of(s), 0, hi, 8);
    lemma_read_value(bits_of(s), 8, v, 8);
    lemma2_to64();
    assert(hi == v / 256) by (bit_vector)
        requires
            hi == v >> 8usize,
    ;
    vstd::arithmetic::div_mod::lemma_small_mod((v / 256) as nat, 256);
    assert(s[0] == v / 256 && s[1] == v % 256);
    assert(s[0] as int * 256 + s[1] as int == v) by (nonlinear_arith)
        requires
            s[0] == v / 256,
            s[1] == v % 256,
    ;
}

proof fn lemma_bits_of_tail(s: Seq<u8>, k: int)
    requires
        0 <= k <= s.len(),
    ensures
        bits_of(s.subrange(k, s.len() as int)) =~= bits_of(s).subrange(8 * k, 8 * s.len() as int),
{
    let t = s.subrange(k, s.len() as int);
    assert forall|j: int| 0 <= j < 8 * t.len() implies #[trigger] bits_of(t)[j] == bits_of(s).subrange(8 * k, 8 * s.len() as int)[j] by {
        assert((8 * k + j) / 8 == k + j / 8 && (8 * k + j) % 8 == j % 8) by (nonlinear_arith)
            requires
                0 <= j,
        ;
        assert(0 <= j / 8 < t.len()) by (nonlinear_arith)
            requires
                0 <= j < 8 * t.len(),
        ;
    }
}

/// Round trip of a frame payload: the payload that the frame encoder
/// writes for the samples `wav` decodes to `wav`.
#[verifier::rlimit(60)]
pub proof fn lemma_frame_round_trip(payload: Seq<u8>, wav: Seq<i16>, p: Parameters)
    requires
        p.valid(),
        wav.len() >= 1,
        bits_of(payload) == pad16(frame_bits(wav, p)),
    ensures
        frame_samples_spec(payload, wav.len(), p) == Ok::<Seq<i16>, crate::error::X3Error>(wav),
{
    let v = raw16(wav[0]);
    let h = value_bits(v as usize, 16);
    let bl = blocks_bits(wav, 1, p);
    let bits = bits_of(payload);
    assert(frame_bits(wav, p) == h + bl);
    assert(bits.len() >= 16);
    assert(payload.len() >= 2);
    assert(bits.subrange(0, 16) =~= h);
    lemma_be16_bits(payload, v as usize);
    lemma_bits_of_tail(payload, 2);
    let b2 = bits_of(payload.subrange(2, payload.len() as int));
    assert(b2.subrange(0, bl.len() as int) =~= bl) by {
        assert forall|j: int| 0 <= j < bl.len() implies #[trigger] b2.subrange(0, bl.len() as int)[j] == bl[j] by {
            assert(b2[j] == bits[16 + j]);
            assert(pad16(h + bl)[16 + j] == (h + bl)[16 + j]);
        }
    }
    lemma_blocks_round_trip(b2, 0, wav, 1, p);
    assert(to_i16(be16(payload, 0) as nat) == wav[0]);
    assert(seq![wav[0]] + wav.subrange(1, wav.len() as int) =~= wav);
}

/// A frame written by the encoder, found at byte `pos`, decodes to its
/// samples and ends where it was written to end.
#[verifier::rlimit(60)]
pub proof fn lemma_frame_at(b: Seq<u8>, pos: int, f: Seq<u8>, wav: Seq<i16>, p: Parameters)
    requires
        p.valid(),
        is_frame(f, wav, p),
        0 <= pos,
        pos + f.len() <= b.len(),
        b.subrange(pos, pos + f.len()) == f,
    ensures
        frame_at_spec(b, pos, p) == Ok::<Seq<i16>, crate::error::X3Error>(wav),
        frame_end(b, pos) == pos + f.len(),
{
    let payload = f.subrange(20, f.len() as int);
    let plen = payload.len();
    let crc = crc16_of(payload);
    let hdr = b.subrange(pos, pos + 20);
    assert(hdr =~= f.subrange(0, 20));
    let pre = header_prefix_spec(1, p.channel_count as u8, wav.len() as u16, plen as u16);
    assert(hdr == frame_header_spec(1, p.channel_count as u8, wav.len() as u16, plen as u16, crc));
    assert(hdr.subrange(0, 16) =~= pre);
    let hc = crc16_of(pre);
    assert(be16(hdr, 16) == hc) by {
        assert(hdr[16] == (hc / 256) as u8 && hdr[17] == (hc % 256) as u8);
        assert((hc / 256) * 256 + hc % 256 == hc);
    }
    assert(be16(hdr, 0) == FRAME_KEY);
    assert(hdr[3] == 1);
    assert(be16(hdr, 6) == plen) by {
        assert((plen / 256) * 256 + plen % 256 == plen);
    }
    assert(be16(hdr, 4) == wav.len()) by {
        assert((wav.len() / 256) * 256 + wav.len() % 256 == wav.len());
    }
    assert(be16(hdr, 18) == crc) by {
        assert((crc / 256) * 256 + crc % 256 == crc);
    }
    let h = FrameHeader { source_id: 1, samples: wav.len() as u16, channels: 1, payload_len: plen as usize, payload_crc: crc };
    assert(read_frame_header_spec(hdr) == Ok::<FrameHeader, crate::error::X3Error>(h));
    assert(b.subrange(pos + 20, pos + 20 + plen) =~= payload);
    lemma_frame_round_trip(payload, wav, p);
}

proof fn lemma_last_frame_at(b: Seq<u8>, pos: int, x: Seq<u8>, n: int, w: Seq<i16>, rest: Seq<i16>, errs: nat, synced: bool, p: Parameters)
    requires
        p.valid(),
        0 <= n <= x.len(),
        is_frame(x.subrange(n, x.len() as int), w, p),
        0 <= pos,
        pos + x.len() <= b.len(),
        b.subrange(pos, pos + x.len()) == x,
        stream_spec(b, pos + x.len(), false, true, p) == (rest, errs),
    ensures
        stream_spec(b, pos + n, false, synced, p) == (w + rest, errs),
{
    let f = x.subrange(n, x.len() as int);
    assert(b.subrange(pos + n, pos + n + f.len()) =~= f);
    lemma_frame_at(b, pos + n, f, w, p);
}

/// Frames written one after the other decode, in order, to their samples,
/// followed by whatever the rest of the stream decodes to. When there is at
/// least one frame, whether the decoder was in sync before does not matter.
#[verifier::rlimit(30)]
proof fn lemma_frames_at(b: Seq<u8>, pos: int, x: Seq<u8>, wav: Seq<i16>, size: int, rest: Seq<i16>, errs: nat, synced: bool, p: Parameters)
    requires
        p.valid(),
        is_frames_of(x, wav, p, size),
        synced || wav.len() >= 1,
        0 <= pos,
        pos + x.len() <= b.len(),
        b.subrange(pos, pos + x.len()) == x,
        stream_spec(b, pos + x.len(), false, true, p) == (rest, errs),
    ensures
        stream_spec(b, pos, false, synced, p) == (wav + rest, errs),
    decreases wav.len(),
{
    if wav.len() == 0 {
        assert(wav + rest =~= rest);
    } else {
        let k = ((wav.len() - 1) / size) * size;
        let n = choose|n: int|
            0 <= n <= x.len() && is_frames_of(x.subrange(0, n), wav.subrange(0, k), p, size)
                && #[trigger] is_frame(x.subrange(n, x.len() as int), wav.subrange(k, wav.len() as int), p);
        let x1 = x.subrange(0, n);
        let tail = wav.subrange(k, wav.len() as int) + rest;
        if k == 0 {
            assert(wav.subrange(0, k).len() == 0);
            assert(x1.len() == 0);
            lemma_last_frame_at(b, pos, x, n, wav.subrange(k, wav.len() as int), rest, errs, synced, p);
            assert(wav.subrange(k, wav.len() as int) =~= wav);
        } else {
            lemma_last_frame_at(b, pos, x, n, wav.subrange(k, wav.len() as int), rest, errs, true, p);
            assert(b.subrange(pos, pos + x1.len()) =~= x1);
            lemma_frames_at(b, pos, x1, wav.subrange(0, k), size, tail, errs, synced, p);
            assert(wav.subrange(0, k) + tail =~= wav + rest);
        }
    }
}

/// A stream of at least one frame starts with the frame key.
proof fn lemma_frames_start(x: Seq<u8>, wav: Seq<i16>, size: int, p: Parameters)
    requires
        is_frames_of(x, wav, p, size),
        wav.len() >= 1,
    ensures
        x.len() >= 20,
        x[0] == 0x78u8 && x[1] == 0x33u8,
    decreases wav.len(),
{
    let k = ((wav.len() - 1) / size) * size;
    let n = choose|n: int|
        0 <= n <= x.len() && is_frames_of(x.subrange(0, n), wav.subrange(0, k), p, size)
            && #[trigger] is_frame(x.subrange(n, x.len() as int), wav.subrange(k, wav.len() as int), p);
    let f = x.subrange(n, x.len() as int);
    assert(f.subrange(0, 20)[0] == 0x78u8 && f.subrange(0, 20)[1] == 0x33u8);
    if k > 0 {
        lemma_frames_start(x.subrange(0, n), wav.subrange(0, k), size, p);
        assert(x.subrange(0, n)[0] == x[0] && x.subrange(0, n)[1] == x[1]);
    } else {
        assert(x.subrange(0, n).len() == 0);
    }
}

/// Round-trip law: the bytes of the frames that the encoder writes for any
/// samples, in frames of any size, decode to exactly those samples with no
/// errors.
pub proof fn lemma_round_trip(bytes: Seq<u8>, wav: Seq<i16>, size: int, p: Parameters)
    requires
        p.valid(),
        is_frames_of(bytes, wav, p, size),
    ensures
        stream_spec(bytes, 0, false, true, p) == (wav, 0nat),
{
    assert(bytes.subrange(0, bytes.len() as int) =~= bytes);
    assert(stream_spec(bytes, bytes.len() as int, false, true, p) == (Seq::<i16>::empty(), 0nat));
    lemma_frames_at(bytes, 0, bytes, wav, size, Seq::empty(), 0, true, p);
    assert(wav + Seq::<i16>::empty() =~= wav);
}

/// Resynchronisation: between two runs of frames written by the encoder, a
/// damaged region that does not decode as a frame, and holds no frame key
/// after its first byte, costs exactly one error; the frames before it and
/// every frame after it decode to their samples.
pub proof fn lemma_resync(
    b: Seq<u8>,
    x0: Seq<u8>,
    g: Seq<u8>,
    x1: Seq<u8>,
    wav0: Seq<i16>,
    wav1: Seq<i16>,
    size: int,
    p: Parameters,
)
    requires
        p.valid(),
        b == x0 + g + x1,
        is_frames_of(x0, wav0, p, size),
        is_frames_of(x1, wav1, p, size),
        wav1.len() >= 1,
        g.len() >= 1,
        frame_at_spec(b, x0.len() as int, p) is Err,
        frame_at_spec(b, x0.len() as int, p) != Err::<Seq<i16>, crate::error::X3Error>(crate::error::X3Error::FrameHeaderInvalidPayloadLen),
        forall|i: int| x0.len() < i < x0.len() + g.len() ==> !#[trigger] crate::bytereader::word_at(b, i, FRAME_KEY),
    ensures
        stream_spec(b, 0, false, true, p) == (wav0 + wav1, 1nat),
{
    let a = x0.len() as int;
    let q = a + g.len();
    lemma_frames_start(x1, wav1, size, p);
    assert(b.subrange(q, q + x1.len()) =~= x1);
    assert(b.subrange(b.len() as int, b.len() as int) =~= Seq::<u8>::empty());
    assert(stream_spec(b, b.len() as int, false, true, p) == (Seq::<i16>::empty(), 0nat));
    lemma_frames_at(b, q, x1, wav1, size, Seq::empty(), 0, false, p);
    assert(wav1 + Seq::<i16>::empty() =~= wav1);
    assert(b[q] == x1[0] && b[q + 1] == x1[1]);
    assert(crate::bytereader::word_at(b, q, FRAME_KEY));
    crate::decoder::lemma_scan(b, a + 1, q, false, p);
    assert(stream_spec(b, a, false, true, p) == (wav1, 1nat));
    assert(b.subrange(0, x0.len() as int) =~= x0);
    lemma_frames_at(b, 0, x0, wav0, size, wav1, 1, true, p);
}

/// Bytes with the same bits are the same bytes.
pub proof fn lemma_bits_of_injective(x: Seq<u8>, y: Seq<u8>)
    requires
        bits_of(x) == bits_of(y),
    ensures
        x == y,
{
    assert(x.len() == y.len()) by {
        assert(bits_of(x).len() == 8 * x.len());
    }
    assert forall|i: int| 0 <= i < x.len() implies x[i] == y[i] by {
        lemma_byte_bits(x, i);
        lemma_byte_bits(y, i);
        assert(bits_of(x).subrange(8 * i, 8 * i + 8) == bits_of(y).subrange(8 * i, 8 * i + 8));
    }
    assert(x =~= y);
}

/// A frame's bytes are fixed by its samples.
pub proof fn lemma_frame_unique(f1: Seq<u8>, f2: Seq<u8>, wav: Seq<i16>, p: Parameters)
    requires
        is_frame(f1, wav, p),
        is_frame(f2, wav, p),
    ensures
        f1 == f2,
{
    let pay1 = f1.subrange(20, f1.len() as int);
    let pay2 = f2.subrange(20, f2.len() as int);
    lemma_bits_of_injective(pay1, pay2);
    assert(f1 =~= f1.subrange(0, 20) + pay1);
    assert(f2 =~= f2.subrange(0, 20) + pay2);
}

/// The bytes of a run of frames are fixed by their samples.
pub proof fn lemma_frames_unique(x: Seq<u8>, y: Seq<u8>, wav: Seq<i16>, p: Parameters, size: int)
    requires
        is_frames_of(x, wav, p, size),
        is_frames_of(y, wav, p, size),
    ensures
        x == y,
    decreases wav.len(),
{
    if wav.len() == 0 {
        assert(x =~= y);
    } else {
        let k = ((wav.len() - 1) / size) * size;
        let n1 = choose|n: int|
            0 <= n <= x.len() && is_frames_of(x.subrange(0, n), wav.subrange(0, k), p, size)
                && #[trigger] is_frame(x.subrange(n, x.len() as int), wav.subrange(k, wav.len() as int), p);
        let n2 = choose|n: int|
            0 <= n <= y.len() && is_frames_of(y.subrange(0, n), wav.subrange(0, k), p, size)
                && #[trigger] is_frame(y.subrange(n, y.len() as int), wav.subrange(k, wav.len() as int), p);
        lemma_frames_unique(x.subrange(0, n1), y.subrange(0, n2), wav.subrange(0, k), p, size);
        lemma_frame_unique(x.subrange(n1, x.len() as int), y.subrange(n2, y.len() as int), wav.subrange(k, wav.len() as int), p);
        assert(x =~= x.subrange(0, n1) + x.subrange(n1, x.len() as int));
        assert(y =~= y.subrange(0, n2) + y.subrange(n2, y.len() as int));
    }
}

} // verus!
