//! Block and frame encoder.

use vstd::prelude::*;
use crate::bitpacker::{BitPacker, packed, value_bits, lemma_packed_concat, bits_of, ceil8};
use crate::bitpacker::BitPackError;
use crate::crc::{crc16, crc16_of};
use crate::error::X3Error;
use crate::x3::{Parameters, RiceCode, level_of, rice_limit, zigzag, Channel, frame_header_bytes, frame_header_spec, FRAME_HEADER_LENGTH, FRAME_MAX_LENGTH};

verus! {

pub open spec fn abs_int(x: int) -> int {
    if x < 0 {
        -x
    } else {
        x
    }
}

/// Largest magnitude of the deltas.
pub open spec fn max_abs(d: Seq<i32>) -> int
    decreases d.len(),
{
    if d.len() == 0 {
        0
    } else {
        vstd::math::max(max_abs(d.drop_last()), abs_int(d.last() as int))
    }
}

/// Number of bits needed to write `m` unsigned.
pub open spec fn bit_width(m: nat) -> nat
    decreases m,
{
    if m == 0 {
        0
    } else {
        1 + bit_width(m / 2)
    }
}

/// The smallest family index whose threshold covers `m` (2 when the first
/// two do not).
pub open spec fn rice_family(m: int, p: Parameters) -> int {
    if m <= p.thresholds[0] {
        0
    } else if m <= p.thresholds[1] {
        1
    } else {
        2
    }
}

/// The encode tables of `rc` cover delta `x`.
pub open spec fn delta_fits(rc: RiceCode, x: int) -> bool {
    -rc.offset <= x < rc.code_len - rc.offset
}

/// The encode tables of `rc` cover every delta of `d`.
pub open spec fn fits(rc: RiceCode, d: Seq<i32>) -> bool {
    forall|i: int| 0 <= i < d.len() ==> delta_fits(rc, #[trigger] d[i] as int)
}

/// The threshold rule picks a Rice family that can code the block.
pub open spec fn threshold_rice(d: Seq<i32>, p: Parameters) -> bool {
    max_abs(d) <= p.thresholds[2] && fits(p.rice_codes[rice_family(max_abs(d), p)], d)
}

/// The first family whose tables cover every delta (3 when none does).
pub open spec fn first_fitting(d: Seq<i32>, p: Parameters) -> int {
    if fits(p.rice_codes[0], d) {
        0
    } else if fits(p.rice_codes[1], d) {
        1
    } else if fits(p.rice_codes[2], d) {
        2
    } else {
        3
    }
}

/// A block is Rice coded when the threshold rule picks a family that can
/// code it, or, failing that, when its deltas are too narrow for block
/// floating point (four bits or less) and some family can code them.
pub open spec fn uses_rice(d: Seq<i32>, p: Parameters) -> bool {
    threshold_rice(d, p) || (bit_width(max_abs(d) as nat) <= 4 && first_fitting(d, p) < 3)
}

/// The Rice family index of a Rice-coded block.
pub open spec fn rice_choice(d: Seq<i32>, p: Parameters) -> int {
    if threshold_rice(d, p) {
        rice_family(max_abs(d), p)
    } else {
        first_fitting(d, p)
    }
}

/// Width field of a block-floating-point block: the bit width of `m`, but at
/// least 5 (the decoder refuses smaller widths).
pub open spec fn bfp_field(m: int) -> nat {
    vstd::math::max(bit_width(m as nat) as int, 5) as nat
}

/// A block is written raw when deltas need 15 bits or more.
pub open spec fn uses_raw(d: Seq<i32>, p: Parameters) -> bool {
    !uses_rice(d, p) && bit_width(max_abs(d) as nat) >= 15
}

/// The Rice codeword of delta `d`: `q` zeros, a one, and the `nsubs`-bit
/// suffix, for the zig-zag index `q * 2^nsubs + suffix` of `d`.
pub open spec fn rice_word(rc: RiceCode, d: int) -> Seq<bool> {
    let level = level_of(rc.nsubs as nat);
    let u = zigzag(d);
    value_bits(0, u / level) + value_bits((level + u % level) as usize, (rc.nsubs + 1) as nat)
}

pub open spec fn rice_words(rc: RiceCode, d: Seq<i32>) -> Seq<bool>
    decreases d.len(),
{
    if d.len() == 0 {
        Seq::empty()
    } else {
        rice_words(rc, d.drop_last()) + rice_word(rc, d.last() as int)
    }
}

/// `d` in two's complement on `w` bits.
pub open spec fn twos(d: int, w: nat) -> nat {
    if d < 0 {
        (d + vstd::arithmetic::power2::pow2(w)) as nat
    } else {
        d as nat
    }
}

pub open spec fn bfp_words(d: Seq<i32>, w: nat) -> Seq<bool>
    decreases d.len(),
{
    if d.len() == 0 {
        Seq::empty()
    } else {
        bfp_words(d.drop_last(), w) + value_bits(twos(d.last() as int, w) as usize, w)
    }
}

/// A sample as an unsigned 16-bit word (two's complement).
pub open spec fn raw16(s: i16) -> nat {
    if s < 0 {
        (s + 65536) as nat
    } else {
        s as nat
    }
}

pub fn raw16_word(s: i16) -> (r: usize)
    ensures
        r == raw16(s),
{
    if s < 0 {
        (s as i32 + 65536) as usize
    } else {
        s as usize
    }
}

/// Samples as raw 16-bit words.
pub open spec fn raw_words(s: Seq<i16>) -> Seq<bool>
    decreases s.len(),
{
    if s.len() == 0 {
        Seq::empty()
    } else {
        raw_words(s.drop_last()) + value_bits(raw16(s.last()) as usize, 16)
    }
}

/// The bits of one encoded block of samples `s` whose deltas are `d`: a
/// 2-bit block type, then Rice codewords, or a 4-bit width and
/// block-floating-point words, or the width 15 and raw 16-bit samples.
#[verifier::opaque]
pub open spec fn block_bits(s: Seq<i16>, d: Seq<i32>, p: Parameters) -> Seq<bool> {
    let m = max_abs(d);
    if uses_rice(d, p) {
        let f = rice_choice(d, p);
        value_bits((f + 1) as usize, 2) + rice_words(p.rice_codes[f], d)
    } else if uses_raw(d, p) {
        value_bits(15, 6) + raw_words(s)
    } else {
        value_bits(bfp_field(m) as usize, 6) + bfp_words(d, bfp_field(m) + 1)
    }
}

/// The statistics slot of a block: the Rice family number (0 to 3), 4 for
/// block floating point, 5 for raw.
pub open spec fn block_kind(d: Seq<i32>, p: Parameters) -> usize {
    if uses_rice(d, p) {
        p.rice_codes[rice_choice(d, p)].nsubs
    } else if uses_raw(d, p) {
        5
    } else {
        4
    }
}

pub open spec fn deltas_in_range(d: Seq<i32>) -> bool {
    forall|i: int| 0 <= i < d.len() ==> -65535 <= #[trigger] d[i] <= 65535
}

pub proof fn lemma_bit_width_bound(m: nat, k: nat)
    requires
        m < vstd::arithmetic::power2::pow2(k),
    ensures
        bit_width(m) <= k,
    decreases k,
{
    if m > 0 {
        if k == 0 {
            vstd::arithmetic::power2::lemma2_to64();
        } else {
            vstd::arithmetic::power2::lemma_pow2_unfold(k);
            lemma_bit_width_bound(m / 2, (k - 1) as nat);
        }
    }
}

/// Number of bits needed to write `n`.
pub fn count_bits(n: u32) -> (r: u32)
    ensures
        r as nat == bit_width(n as nat),
        r <= 32,
{
    let mut m = n;
    let mut r: u32 = 0;
    proof {
        vstd::arithmetic::power2::lemma2_to64();
        lemma_bit_width_bound(n as nat, 32);
    }
    while m > 0
        invariant
            bit_width(m as nat) + r == bit_width(n as nat),
            r + bit_width(m as nat) <= 32,
            bit_width(m as nat) <= 32 - r,
        decreases m,
    {
        m = m / 2;
        r += 1;
    }
    r
}

/// Append `w` to what was written so far, as one more write.
proof fn lemma_append_write(o: Seq<bool>, p: int, x: Seq<bool>, w: Seq<bool>)
    requires
        0 <= p <= o.len(),
        o.len() % 8 == 0,
    ensures
        packed(packed(o, p, x), p + x.len(), w) == packed(o, p, x + w),
{
    lemma_packed_concat(o, p, x, w);
}

fn write_rice_word(bp: &mut BitPacker, rc: RiceCode, d: i32)
    requires
        old(bp).wf(),
        rc.nsubs <= 3,
        rc == crate::x3::rice_code_spec(rc.nsubs as nat),
        delta_fits(rc, d as int),
    ensures
        final(bp).wf(),
        final(bp).pos() == old(bp).pos() + rice_word(rc, d as int).len(),
        final(bp).bits() == packed(old(bp).bits(), old(bp).pos(), rice_word(rc, d as int)),
        final(bp).bookmark_pos() == old(bp).bookmark_pos(),
{
    assert(-28 <= d <= 28);
    let u: usize = if d >= 0 {
        (2 * d) as usize
    } else {
        (-2 * d - 1) as usize
    };
    let level = rc.level();
    let q = u / level;
    proof {
        bp.lemma_pos_in_bounds();
        if rc.nsubs == 0 {
            assert(u <= 14);
        } else {
            assert(u <= 57 && level >= 2);
            assert(q <= 32) by (nonlinear_arith)
                requires
                    u <= 57,
                    level >= 2,
                    q == u / level,
            ;
        }
    }
    let ghost o = bp.bits();
    let ghost p = bp.pos();
    bp.write_packed_zeros(q);
    bp.write_bits(level + u % level, rc.nsubs + 1);
    proof {
        lemma_append_write(o, p, value_bits(0, q as nat), value_bits((level + u % level) as usize, (rc.nsubs + 1) as nat));
    }
}

/// Whether the encode tables of `rc` cover every delta.
fn fits_exec(rc: RiceCode, d: &[i32]) -> (r: bool)
    requires
        rc.offset <= 28,
        rc.code_len <= 56,
    ensures
        r == fits(rc, d@),
{
    let mut i: usize = 0;
    while i < d.len()
        invariant
            i <= d@.len(),
            rc.offset <= 28,
            rc.code_len <= 56,
            forall|j: int| 0 <= j < i ==> delta_fits(rc, #[trigger] d@[j] as int),
        decreases d@.len() - i,
    {
        let x = d[i] as i64;
        let lo = rc.offset as i64;
        let hi = rc.code_len as i64 - lo;
        if x < -lo || x >= hi {
            return false;
        }
        i += 1;
    }
    true
}

/// Write a Rice block: the 2-bit block type `f + 1` and a codeword for each
/// delta, `f` being the first family whose threshold covers the largest
/// delta, or the first family that can code a narrow block above every
/// threshold.
/// Returns the family number.
#[verifier::rlimit(60)]
pub fn encode_rice_block(
    wav_diff: &[i32],
    bp: &mut BitPacker,
    params: &Parameters,
    max_abs_inp_filtd: i32,
) -> (r: Result<usize, X3Error>)
    requires
        old(bp).wf(),
        params.valid(),
        max_abs_inp_filtd == max_abs(wav_diff@),
        uses_rice(wav_diff@, *params),
    ensures
        final(bp).wf(),
        ({
            let f = rice_choice(wav_diff@, *params);
            let w = value_bits((f + 1) as usize, 2) + rice_words(params.rice_codes[f], wav_diff@);
            &&& final(bp).pos() == old(bp).pos() + w.len()
            &&& final(bp).bits() == packed(old(bp).bits(), old(bp).pos(), w)
        }),
        final(bp).bookmark_pos() == old(bp).bookmark_pos(),
        r == Ok::<usize, X3Error>(params.rice_codes[rice_choice(wav_diff@, *params)].nsubs),
{
    let ghost m = max_abs(wav_diff@);
    proof {
        lemma_max_abs_nonneg(wav_diff@);
    }
    let mut f: usize = 0;
    if max_abs_inp_filtd as usize > params.thresholds[0] {
        f = 1;
        if max_abs_inp_filtd as usize > params.thresholds[1] {
            f = 2;
        }
    }
    assert(f == rice_family(m, *params));
    if !(max_abs_inp_filtd as usize <= params.thresholds[2] && fits_exec(params.rice_codes[f], wav_diff)) {
        f = if fits_exec(params.rice_codes[0], wav_diff) {
            0
        } else if fits_exec(params.rice_codes[1], wav_diff) {
            1
        } else {
            2
        };
    }
    assert(f == rice_choice(wav_diff@, *params));
    proof {
        bp.lemma_pos_in_bounds();
    }
    let ghost o = bp.bits();
    let ghost p = bp.pos();
    bp.write_bits(f + 1, 2);
    let rc = params.rice_codes[f];
    let ghost h = value_bits((f + 1) as usize, 2);
    let mut i: usize = 0;
    assert(rice_words(rc, wav_diff@.subrange(0, 0)) =~= Seq::empty());
    assert(h + Seq::empty() =~= h);
    while i < wav_diff.len()
        invariant
            i <= wav_diff@.len(),
            bp.wf(),
            0 <= p <= o.len(),
            o.len() % 8 == 0,
            rc == params.rice_codes[f as int],
            rc == crate::x3::rice_code_spec(rc.nsubs as nat),
            rc.nsubs <= 3,
            fits(rc, wav_diff@),
            m == max_abs(wav_diff@),
            bp.pos() == p + (h + rice_words(rc, wav_diff@.subrange(0, i as int))).len(),
            bp.bits() == packed(o, p, h + rice_words(rc, wav_diff@.subrange(0, i as int))),
            bp.bookmark_pos() == old(bp).bookmark_pos(),
        decreases wav_diff@.len() - i,
    {
        proof {
            lemma_append_write(o, p, h + rice_words(rc, wav_diff@.subrange(0, i as int)), rice_word(rc, wav_diff@[i as int] as int));
            assert(wav_diff@.subrange(0, i + 1).drop_last() =~= wav_diff@.subrange(0, i as int));
            assert(h + rice_words(rc, wav_diff@.subrange(0, i + 1)) =~= h + rice_words(rc, wav_diff@.subrange(0, i as int)) + rice_word(rc, wav_diff@[i as int] as int));
        }
        write_rice_word(bp, rc, wav_diff[i]);
        i += 1;
    }
    assert(wav_diff@.subrange(0, wav_diff@.len() as int) =~= wav_diff@);
    Ok(rc.nsubs)
}

/// Every delta is at most the largest magnitude.
pub proof fn lemma_max_abs_bounds(d: Seq<i32>, i: int)
    requires
        0 <= i < d.len(),
    ensures
        abs_int(d[i] as int) <= max_abs(d),
        max_abs(d) >= 0,
    decreases d.len(),
{
    if i < d.len() - 1 {
        lemma_max_abs_bounds(d.drop_last(), i);
    } else {
        lemma_max_abs_nonneg(d.drop_last());
    }
}

proof fn lemma_max_abs_nonneg(d: Seq<i32>)
    ensures
        max_abs(d) >= 0,
    decreases d.len(),
{
    if d.len() > 0 {
        lemma_max_abs_nonneg(d.drop_last());
    }
}

/// Write a block-floating-point block: the 6-bit header holding `num_bits`,
/// then each delta on `num_bits + 1` bits in two's complement. Returns 4.
#[verifier::rlimit(60)]
pub fn encode_bfp_block(wav_diff: &[i32], bp: &mut BitPacker, num_bits: usize) -> (r: Result<usize, X3Error>)
    requires
        old(bp).wf(),
        5 <= num_bits <= 14,
        forall|i: int| 0 <= i < wav_diff@.len() ==> bit_width(abs_int(#[trigger] wav_diff@[i] as int) as nat) <= num_bits,
    ensures
        final(bp).wf(),
        ({
            let w = value_bits(num_bits, 6) + bfp_words(wav_diff@, (num_bits + 1) as nat);
            &&& final(bp).pos() == old(bp).pos() + w.len()
            &&& final(bp).bits() == packed(old(bp).bits(), old(bp).pos(), w)
        }),
        final(bp).bookmark_pos() == old(bp).bookmark_pos(),
        r == Ok::<usize, X3Error>(4),
{
    proof {
        bp.lemma_pos_in_bounds();
    }
    let ghost o = bp.bits();
    let ghost p = bp.pos();
    bp.write_bits(num_bits, 6);
    let ghost h = value_bits(num_bits, 6);
    let w = num_bits + 1;
    let full: u64 = 1u64 << (w as u64);
    proof {
        vstd::arithmetic::power2::lemma2_to64();
        vstd::arithmetic::power2::lemma_pow2_strictly_increases(w as nat, 16);
        vstd::bits::lemma_u64_shl_is_mul(1, w as u64);
    }
    let mut i: usize = 0;
    assert(bfp_words(wav_diff@.subrange(0, 0), w as nat) =~= Seq::empty());
    assert(h + Seq::empty() =~= h);
    while i < wav_diff.len()
        invariant
            i <= wav_diff@.len(),
            bp.wf(),
            0 <= p <= o.len(),
            o.len() % 8 == 0,
            w == num_bits + 1,
            6 <= w <= 15,
            full as nat == vstd::arithmetic::power2::pow2(w as nat),
            full <= 32768,
            forall|j: int| 0 <= j < wav_diff@.len() ==> bit_width(abs_int(#[trigger] wav_diff@[j] as int) as nat) <= num_bits,
            bp.pos() == p + (h + bfp_words(wav_diff@.subrange(0, i as int), w as nat)).len(),
            bp.bits() == packed(o, p, h + bfp_words(wav_diff@.subrange(0, i as int), w as nat)),
            bp.bookmark_pos() == old(bp).bookmark_pos(),
        decreases wav_diff@.len() - i,
    {
        let d = wav_diff[i];
        proof {
            lemma_bit_width_lower(abs_int(d as int) as nat, num_bits as nat);
            vstd::arithmetic::power2::lemma_pow2_strictly_increases(num_bits as nat, 15);
            vstd::arithmetic::power2::lemma_pow2_unfold(w as nat);
        }
        let word: usize = if d < 0 {
            (d as i64 + full as i64) as usize
        } else {
            d as usize
        };
        proof {
            lemma_append_write(o, p, h + bfp_words(wav_diff@.subrange(0, i as int), w as nat), value_bits(word, w as nat));
            assert(wav_diff@.subrange(0, i + 1).drop_last() =~= wav_diff@.subrange(0, i as int));
            assert(word as nat == twos(d as int, w as nat));
            assert(h + bfp_words(wav_diff@.subrange(0, i + 1), w as nat) =~= h + bfp_words(wav_diff@.subrange(0, i as int), w as nat) + value_bits(word, w as nat));
        }
        bp.write_bits(word, w);
        i += 1;
    }
    assert(wav_diff@.subrange(0, wav_diff@.len() as int) =~= wav_diff@);
    Ok(4)
}

/// A number of bit width at most `k` is below `2^k`.
pub proof fn lemma_bit_width_lower(m: nat, k: nat)
    requires
        bit_width(m) <= k,
    ensures
        m < vstd::arithmetic::power2::pow2(k),
    decreases m,
{
    vstd::arithmetic::power2::lemma_pow2_pos(k);
    if m > 0 {
        vstd::arithmetic::power2::lemma_pow2_unfold(k);
        lemma_bit_width_lower(m / 2, (k - 1) as nat);
    }
}

/// Write a raw block: the 6-bit header 15, then each sample on 16 bits.
/// Returns 5.
#[verifier::rlimit(60)]
pub fn encode_literal(wav: &[i16], bp: &mut BitPacker) -> (r: Result<usize, X3Error>)
    requires
        old(bp).wf(),
    ensures
        final(bp).wf(),
        ({
            let w = value_bits(15, 6) + raw_words(wav@);
            &&& final(bp).pos() == old(bp).pos() + w.len()
            &&& final(bp).bits() == packed(old(bp).bits(), old(bp).pos(), w)
        }),
        final(bp).bookmark_pos() == old(bp).bookmark_pos(),
        r == Ok::<usize, X3Error>(5),
{
    proof {
        bp.lemma_pos_in_bounds();
    }
    let ghost o = bp.bits();
    let ghost p = bp.pos();
    bp.write_bits(15, 6);
    let ghost h = value_bits(15, 6);
    let mut i: usize = 0;
    assert(raw_words(wav@.subrange(0, 0)) =~= Seq::empty());
    assert(h + Seq::empty() =~= h);
    while i < wav.len()
        invariant
            i <= wav@.len(),
            bp.wf(),
            0 <= p <= o.len(),
            o.len() % 8 == 0,
            bp.pos() == p + (h + raw_words(wav@.subrange(0, i as int))).len(),
            bp.bits() == packed(o, p, h + raw_words(wav@.subrange(0, i as int))),
            bp.bookmark_pos() == old(bp).bookmark_pos(),
        decreases wav@.len() - i,
    {
        let word = raw16_word(wav[i]);
        proof {
            lemma_append_write(o, p, h + raw_words(wav@.subrange(0, i as int)), value_bits(word, 16));
            assert(wav@.subrange(0, i + 1).drop_last() =~= wav@.subrange(0, i as int));
            assert(h + raw_words(wav@.subrange(0, i + 1)) =~= h + raw_words(wav@.subrange(0, i as int)) + value_bits(word, 16));
        }
        bp.write_bits(word, 16);
        i += 1;
    }
    assert(wav@.subrange(0, wav@.len() as int) =~= wav@);
    Ok(5)
}

/// The first differences `s[i + 1] - s[i]`.
pub open spec fn diff_spec(s: Seq<i16>) -> Seq<i32> {
    Seq::new((if s.len() == 0 { 0 } else { s.len() - 1 }) as nat, |i: int| (s[i + 1] - s[i]) as i32)
}

/// First differences of the samples.
pub fn diff(inp: &[i16]) -> (r: Vec<i32>)
    ensures
        r@ == diff_spec(inp@),
        deltas_in_range(r@),
{
    let mut r: Vec<i32> = Vec::new();
    if inp.len() == 0 {
        assert(r@ =~= diff_spec(inp@));
        return r;
    }
    let mut i: usize = 1;
    while i < inp.len()
        invariant
            1 <= i <= inp@.len(),
            r@.len() == i - 1,
            forall|j: int| 0 <= j < i - 1 ==> #[trigger] r@[j] == (inp@[j + 1] - inp@[j]) as i32,
            deltas_in_range(r@),
        decreases inp@.len() - i,
    {
        r.push(inp[i] as i32 - inp[i - 1] as i32);
        i += 1;
    }
    assert(r@ =~= diff_spec(inp@));
    r
}

/// Encode one block of samples whose deltas are `wav_diff`, choosing a Rice
/// family, block floating point or raw samples by the largest delta.
/// Returns the statistics slot of the block.
#[verifier::rlimit(60)]
pub fn x3_encode_block(
    wav: &[i16],
    wav_diff: &[i32],
    bp: &mut BitPacker,
    params: &Parameters,
) -> (r: Result<usize, X3Error>)
    requires
        old(bp).wf(),
        params.valid(),
        wav@.len() == wav_diff@.len(),
        deltas_in_range(wav_diff@),
    ensures
        final(bp).wf(),
        final(bp).pos() == old(bp).pos() + block_bits(wav@, wav_diff@, *params).len(),
        final(bp).bits() == packed(old(bp).bits(), old(bp).pos(), block_bits(wav@, wav_diff@, *params)),
        final(bp).bookmark_pos() == old(bp).bookmark_pos(),
        r == Ok::<usize, X3Error>(block_kind(wav_diff@, *params)),
{
    reveal(block_bits);
    let mut m: i32 = 0;
    let mut i: usize = 0;
    while i < wav_diff.len()
        invariant
            i <= wav_diff@.len(),
            deltas_in_range(wav_diff@),
            m as int == max_abs(wav_diff@.subrange(0, i as int)),
            0 <= m <= 65535,
        decreases wav_diff@.len() - i,
    {
        let d = wav_diff[i];
        let a = if d < 0 {
            -d
        } else {
            d
        };
        assert(wav_diff@.subrange(0, i + 1).drop_last() =~= wav_diff@.subrange(0, i as int));
        if a > m {
            m = a;
        }
        i += 1;
    }
    assert(wav_diff@.subrange(0, wav_diff@.len() as int) =~= wav_diff@);
    let ghost mm = max_abs(wav_diff@);
    assert(mm == m as int);
    let f: usize = if m as usize <= params.thresholds[0] {
        0
    } else if m as usize <= params.thresholds[1] {
        1
    } else {
        2
    };
    assert(f == rice_family(mm, *params));
    let by_threshold = m as usize <= params.thresholds[2] && fits_exec(params.rice_codes[f], wav_diff);
    let num_bits = count_bits(m as u32) as usize;
    if by_threshold || (num_bits <= 4 && (fits_exec(params.rice_codes[0], wav_diff) || fits_exec(
        params.rice_codes[1],
        wav_diff,
    ) || fits_exec(params.rice_codes[2], wav_diff))) {
        assert(uses_rice(wav_diff@, *params));
        encode_rice_block(wav_diff, bp, params, m)
    } else {
        assert(!uses_rice(wav_diff@, *params));
        if num_bits >= 15 {
            assert(uses_raw(wav_diff@, *params));
            encode_literal(wav, bp)
        } else {
            assert(!uses_raw(wav_diff@, *params));
            let nb = if num_bits < 5 {
                5
            } else {
                num_bits
            };
            assert forall|j: int| 0 <= j < wav_diff@.len() implies bit_width(abs_int(#[trigger] wav_diff@[j] as int) as nat) <= nb by {
                lemma_max_abs_bounds(wav_diff@, j);
                lemma_bit_width_mono(abs_int(wav_diff@[j] as int) as nat, m as nat);
            }
            assert(bfp_field(mm) == nb);
            encode_bfp_block(wav_diff, bp, nb)
        }
    }
}

pub proof fn lemma_bit_width_mono(a: nat, b: nat)
    requires
        a <= b,
    ensures
        bit_width(a) <= bit_width(b),
    decreases b,
{
    if a > 0 {
        lemma_bit_width_mono(a / 2, b / 2);
    }
}

/// The bits of the blocks of a frame from sample `start` on: blocks of
/// `block_len` samples, the last one possibly shorter.
pub open spec fn blocks_bits(wav: Seq<i16>, start: int, p: Parameters) -> Seq<bool>
    decreases wav.len() - start,
{
    if start >= wav.len() || p.block_len == 0 || start < 1 {
        Seq::empty()
    } else {
        let end = vstd::math::min(start + p.block_len, wav.len() as int);
        block_bits(wav.subrange(start, end), diff_spec(wav).subrange(start - 1, end - 1), p)
            + blocks_bits(wav, end, p)
    }
}

/// The payload bits of a frame before alignment: the first sample raw, then
/// the blocks of the rest.
pub open spec fn frame_bits(wav: Seq<i16>, p: Parameters) -> Seq<bool> {
    value_bits(raw16(wav[0]) as usize, 16) + blocks_bits(wav, 1, p)
}

/// `b` padded with zero bits to a whole number of 16-bit words.
pub open spec fn pad16(b: Seq<bool>) -> Seq<bool> {
    b + Seq::new(((16 - b.len() % 16) % 16) as nat, |i: int| false)
}

/// `bytes` is one complete frame holding the samples `wav`.
pub open spec fn is_frame(bytes: Seq<u8>, wav: Seq<i16>, p: Parameters) -> bool {
    let payload = bytes.subrange(FRAME_HEADER_LENGTH as int, bytes.len() as int);
    &&& bytes.len() >= FRAME_HEADER_LENGTH
    &&& 1 <= wav.len() <= 65535
    &&& payload.len() < FRAME_MAX_LENGTH
    &&& bits_of(payload) == pad16(frame_bits(wav, p))
    &&& bytes.subrange(0, FRAME_HEADER_LENGTH as int) == frame_header_spec(
        1,
        p.channel_count as u8,
        wav.len() as u16,
        payload.len() as u16,
        crc16_of(payload),
    )
}

/// Length in bytes of the encoded frame payload.
pub open spec fn payload_len_spec(wav: Seq<i16>, p: Parameters) -> int {
    (pad16(frame_bits(wav, p)).len() / 8) as int
}

/// The payload of a frame: the bits of `frame_bits` padded to a whole word.
#[verifier::rlimit(60)]
fn encode_payload(wav: &[i16], params: &Parameters) -> (r: Vec<u8>)
    requires
        params.valid(),
        wav@.len() >= 1,
    ensures
        bits_of(r@) == pad16(frame_bits(wav@, *params)),
{
    let mut fp = BitPacker::new(Vec::new());
    let ghost e: Seq<bool> = Seq::empty();
    assert(fp.bits() =~= e);
    fp.write_bits(raw16_word(wav[0]), 16);
    let ghost h = value_bits(raw16(wav[0]) as usize, 16);
    proof {
        lemma_packed_concat(e, 0, e, h);
        assert(e + h =~= h);
    }
    let wav_diff = diff(wav);
    let mut start: usize = 1;
    let ghost done: Seq<bool> = Seq::empty();
    assert(h + done =~= h);
    while start < wav.len()
        invariant
            fp.wf(),
            params.valid(),
            1 <= start <= wav@.len(),
            wav_diff@ == diff_spec(wav@),
            deltas_in_range(wav_diff@),
            wav_diff@.len() == wav@.len() - 1,
            e == Seq::<bool>::empty(),
            fp.bits() == packed(e, 0, h + done),
            fp.pos() == (h + done).len(),
            done + blocks_bits(wav@, start as int, *params) == blocks_bits(wav@, 1, *params),
        decreases wav@.len() - start,
    {
        let end: usize = if wav.len() - start > params.block_len {
            start + params.block_len
        } else {
            wav.len()
        };
        let block = vstd::slice::slice_subrange(wav, start, end);
        let dblock = vstd::slice::slice_subrange(wav_diff.as_slice(), start - 1, end - 1);
        let ghost b = block_bits(block@, dblock@, *params);
        proof {
            assert(deltas_in_range(dblock@));
            lemma_packed_concat(e, 0, h + done, b);
            assert(blocks_bits(wav@, start as int, *params) == b + blocks_bits(wav@, end as int, *params));
            assert(done + b + blocks_bits(wav@, end as int, *params) =~= done + (b + blocks_bits(wav@, end as int, *params)));
            assert(h + done + b =~= h + (done + b));
        }
        let _ = x3_encode_block(block, dblock, &mut fp, params);
        proof {
            done = done + b;
        }
        start = end;
    }
    assert(done + Seq::empty() =~= done);
    assert(done == blocks_bits(wav@, 1, *params));
    let ghost all = h + done;
    assert(all == frame_bits(wav@, *params));
    finish_payload(&mut fp, Ghost(all))
}

/// Encode one frame: the header, then the first sample raw, the blocks of
/// the remaining samples and zero padding to a whole word. The position must
/// be byte aligned; a frame over 65535 samples, or whose payload reaches the
/// frame size limit, is refused.
#[verifier::rlimit(60)]
pub fn encode_frame(wav: &[i16], bp: &mut BitPacker, params: &Parameters) -> (r: Result<(), X3Error>)
    requires
        old(bp).wf(),
        params.valid(),
        wav@.len() >= 1,
    ensures
        final(bp).wf(),
        old(bp).pos() % 8 != 0 ==> r == Err::<(), X3Error>(X3Error::BitPack(BitPackError::NotByteAligned)),
        old(bp).pos() % 8 == 0 && (wav@.len() > 65535 || payload_len_spec(wav@, *params) >= FRAME_MAX_LENGTH) ==> r == Err::<(), X3Error>(X3Error::FrameLength),
        r is Err ==> *final(bp) == *old(bp),
        r is Ok <==> old(bp).pos() % 8 == 0 && wav@.len() <= 65535 && payload_len_spec(wav@, *params) < FRAME_MAX_LENGTH,
        r is Ok ==> ({
            let start = old(bp).pos() / 8;
            let end = final(bp).pos() / 8;
            &&& final(bp).pos() % 8 == 0
            &&& end == start + FRAME_HEADER_LENGTH + payload_len_spec(wav@, *params)
            &&& is_frame(final(bp).bytes().subrange(start, end), wav@, *params)
            &&& final(bp).bytes().subrange(0, start) == old(bp).bytes().subrange(0, start)
            &&& final(bp).bookmark_pos() == old(bp).bookmark_pos()
        }),
{
    if bp.p_bit() != 0 {
        return Err(X3Error::BitPack(BitPackError::NotByteAligned));
    }
    let payload_vec = encode_payload(wav, params);
    let payload = payload_vec.as_slice();
    if wav.len() > 65535 || payload.len() >= FRAME_MAX_LENGTH {
        return Err(X3Error::FrameLength);
    }
    let payload_crc = crc16(payload);
    let header = frame_header_bytes(1, params.channel_count as u8, wav.len() as u16, payload.len() as u16, payload_crc);
    proof {
        bp.lemma_pos_in_bounds();
    }
    let ghost s0 = bp.pos() / 8;
    assert(header@.len() == 20);
    bp.write_bytes(header.as_slice());
    let ghost mid = bp.bytes();
    let ghost at1 = bp.pos() / 8;
    proof {
        bp.lemma_pos_in_bounds();
        let pp = bp.pos();
        let ln = mid.len() as int;
        assert(pp / 8 <= ln) by (nonlinear_arith)
            requires
                pp <= 8 * ln,
                0 <= pp,
        ;
    }
    assert(at1 == s0 + 20);
    assert(mid.subrange(s0, s0 + 20) == header@);
    bp.write_bytes(payload);
    proof {
        bp.lemma_pos_in_bounds();
        let fin = bp.bytes();
        let pp = bp.pos();
        let ln = fin.len() as int;
        assert(pp / 8 <= ln) by (nonlinear_arith)
            requires
                pp <= 8 * ln,
                0 <= pp,
        ;
        let end = at1 + payload@.len();
        assert(fin.subrange(0, at1) == mid.subrange(0, at1));
        assert(fin.subrange(at1, end) == payload@);
        assert forall|i: int| 0 <= i < 20 implies #[trigger] fin.subrange(s0, end).subrange(0, 20)[i] == header@[i] by {
            assert(fin.subrange(0, at1)[s0 + i] == mid.subrange(0, at1)[s0 + i]);
            assert(mid.subrange(s0, s0 + 20)[i] == mid[s0 + i]);
        }
        assert(fin.subrange(s0, end).subrange(0, 20) =~= header@);
        assert forall|i: int| 0 <= i < payload@.len() implies #[trigger] fin.subrange(s0, end).subrange(20, end - s0)[i] == payload@[i] by {
            assert(fin.subrange(at1, end)[i] == fin[at1 + i]);
        }
        assert(fin.subrange(s0, end).subrange(20, end - s0) =~= payload@);
        assert forall|i: int| 0 <= i < s0 implies #[trigger] fin.subrange(0, s0)[i] == old(bp).bytes().subrange(0, s0)[i] by {
            assert(fin.subrange(0, at1)[i] == mid.subrange(0, at1)[i]);
        }
        assert(fin.subrange(0, s0) =~= old(bp).bytes().subrange(0, s0));
    }
    Ok(())
}

/// Bits written into a fresh buffer, when they fill whole bytes, are the
/// buffer.
proof fn lemma_fresh_bits(w: Seq<bool>)
    requires
        w.len() % 8 == 0,
    ensures
        packed(Seq::empty(), 0, w) =~= w,
{
    crate::bitpacker::lemma_ceil8(w.len() as int);
}

/// Samples in a frame produced by `encode`.
pub open spec fn frame_samples(p: Parameters) -> int {
    p.block_len * p.blocks_per_frame
}

/// `bytes` is the frames of `wav`: frames of `size` samples, the last one
/// possibly shorter, one after the other.
pub open spec fn is_frames_of(bytes: Seq<u8>, wav: Seq<i16>, p: Parameters, size: int) -> bool
    decreases wav.len(),
{
    if wav.len() == 0 {
        bytes.len() == 0
    } else if size <= 0 {
        false
    } else {
        let k = ((wav.len() - 1) / size) * size;
        &&& 0 <= k < wav.len()
        &&& exists|n: int|
            0 <= n <= bytes.len() && is_frames_of(bytes.subrange(0, n), wav.subrange(0, k), p, size)
                && #[trigger] is_frame(bytes.subrange(n, bytes.len() as int), wav.subrange(k, wav.len() as int), p)
    }
}

/// `bytes` is the frames of `wav` as `encode` writes them.
pub open spec fn is_frames(bytes: Seq<u8>, wav: Seq<i16>, p: Parameters) -> bool {
    is_frames_of(bytes, wav, p, frame_samples(p))
}

/// Appending one more frame to the frames of a whole number of frames.
pub proof fn lemma_frames_push(bytes: Seq<u8>, n: int, wav: Seq<i16>, done: int, p: Parameters, size: int)
    requires
        size >= 1,
        0 <= done < wav.len() <= done + size,
        done % size == 0,
        0 <= n <= bytes.len(),
        is_frames_of(bytes.subrange(0, n), wav.subrange(0, done), p, size),
        is_frame(bytes.subrange(n, bytes.len() as int), wav.subrange(done, wav.len() as int), p),
    ensures
        is_frames_of(bytes, wav, p, size),
{
    let k = ((wav.len() - 1) / size) * size;
    assert(k == done) by (nonlinear_arith)
        requires
            0 <= done < wav.len() <= done + size,
            done % size == 0,
            size >= 1,
            k == ((wav.len() - 1) / size) * size,
    ;
}

/// The samples `w` fit one frame: their count and their payload length fit
/// the header.
pub open spec fn frame_fits(w: Seq<i16>, p: Parameters) -> bool {
    w.len() <= 65535 && payload_len_spec(w, p) < FRAME_MAX_LENGTH
}

/// The frame of `size` samples starting at sample `j` of `wav`.
pub open spec fn chunk(wav: Seq<i16>, j: int, size: int) -> Seq<i16> {
    wav.subrange(j, vstd::math::min(j + size, wav.len() as int))
}

/// Every frame of `size` samples that `wav` is cut into fits.
pub open spec fn frames_fit(wav: Seq<i16>, p: Parameters, size: int) -> bool {
    forall|j: int| 0 <= j < wav.len() && j % size == 0 ==> frame_fits(#[trigger] chunk(wav, j, size), p)
}

/// Encode the samples of one channel as consecutive frames. More than one
/// channel is refused; the position must be byte aligned; every frame must
/// fit its header.
#[verifier::rlimit(60)]
pub fn encode(channels: &[Channel], bp: &mut BitPacker) -> (r: Result<(), X3Error>)
    requires
        old(bp).wf(),
        channels@.len() >= 1,
        channels@[0].params.valid(),
        channels@[0].params.block_len * channels@[0].params.blocks_per_frame <= usize::MAX,
    ensures
        final(bp).wf(),
        channels@.len() > 1 ==> r == Err::<(), X3Error>(X3Error::MoreThanOneChannel),
        channels@.len() == 1 && old(bp).pos() % 8 != 0 ==> r == Err::<(), X3Error>(X3Error::BitPack(BitPackError::NotByteAligned)),
        r is Ok <==> channels@.len() == 1 && old(bp).pos() % 8 == 0 && frames_fit(
            channels@[0].wav@,
            channels@[0].params,
            frame_samples(channels@[0].params),
        ),
        r is Ok ==> ({
            let start = old(bp).pos() / 8;
            let end = final(bp).pos() / 8;
            &&& old(bp).pos() % 8 == 0
            &&& final(bp).pos() % 8 == 0
            &&& start <= end
            &&& is_frames(final(bp).bytes().subrange(start, end), channels@[0].wav@, channels@[0].params)
            &&& final(bp).bytes().subrange(0, start) == old(bp).bytes().subrange(0, start)
        }),
{
    if channels.len() > 1 {
        return Err(X3Error::MoreThanOneChannel);
    }
    let ch = &channels[0];
    let params = &ch.params;
    let wav = ch.wav.as_slice();
    let spf = params.block_len * params.blocks_per_frame;
    assert(spf >= 1) by (nonlinear_arith)
        requires
            params.block_len >= 1,
            params.blocks_per_frame >= 1,
            spf == params.block_len * params.blocks_per_frame,
    ;
    proof {
        bp.lemma_pos_in_bounds();
    }
    if bp.p_bit() != 0 {
        return Err(X3Error::BitPack(BitPackError::NotByteAligned));
    }
    let ghost start = bp.pos() / 8;
    let ghost b0 = bp.bytes();
    let mut i: usize = 0;
    assert(is_frames(bp.bytes().subrange(start, bp.pos() / 8), wav@.subrange(0, 0), *params)) by {
        assert(wav@.subrange(0, 0).len() == 0);
    }
    while i < wav.len()
        invariant
            bp.wf(),
            params.valid(),
            params == &channels@[0].params,
            wav@ == channels@[0].wav@,
            spf == frame_samples(*params),
            spf >= 1,
            i <= wav@.len(),
            i % spf == 0 || i == wav@.len(),
            channels@.len() == 1,
            bp.pos() % 8 == 0,
            0 <= start <= bp.pos() / 8,
            start == old(bp).pos() / 8,
            bp.bytes().subrange(0, start) == old(bp).bytes().subrange(0, start),
            is_frames(bp.bytes().subrange(start, bp.pos() / 8), wav@.subrange(0, i as int), *params),
            old(bp).pos() % 8 == 0,
            forall|j: int| 0 <= j < i && j % (spf as int) == 0 ==> frame_fits(#[trigger] chunk(wav@, j, spf as int), *params),
        decreases wav@.len() - i,
    {
        let end: usize = if wav.len() - i > spf {
            i + spf
        } else {
            wav.len()
        };
        let frame = vstd::slice::slice_subrange(wav, i, end);
        let ghost s1 = bp.pos() / 8;
        let ghost before = bp.bytes();
        proof {
            bp.lemma_pos_in_bounds();
        }
        assert(frame@ == chunk(wav@, i as int, spf as int));
        match encode_frame(frame, bp, params) {
            Ok(()) => {},
            Err(e) => {
                assert(!frame_fits(chunk(wav@, i as int, spf as int), *params));
                return Err(e);
            },
        }
        proof {
            bp.lemma_pos_in_bounds();
            let fin = bp.bytes();
            let s2 = bp.pos() / 8;
            let w = wav@.subrange(0, end as int);
            let k = ((w.len() - 1) / (spf as int)) * (spf as int);
            assert(k == i) by (nonlinear_arith)
                requires
                    w.len() == end,
                    i < end <= i + spf,
                    i % spf == 0,
                    spf >= 1,
                    k == ((w.len() - 1) / (spf as int)) * (spf as int),
            ;
            let n = s1 - start;
            let seg = fin.subrange(start, s2);
            assert(seg.subrange(0, n) =~= before.subrange(start, s1)) by {
                assert forall|j: int| 0 <= j < n implies #[trigger] seg.subrange(0, n)[j] == before.subrange(start, s1)[j] by {
                    assert(fin.subrange(0, s1)[start + j] == before.subrange(0, s1)[start + j]);
                }
            }
            assert(seg.subrange(n, seg.len() as int) =~= fin.subrange(s1, s2));
            assert(w.subrange(0, k) =~= wav@.subrange(0, i as int));
            assert(w.subrange(k, w.len() as int) =~= frame@);
            assert(is_frame(seg.subrange(n, seg.len() as int), w.subrange(k, w.len() as int), *params));
            assert(is_frames(seg, w, *params));
            assert forall|j: int| 0 <= j < start implies #[trigger] fin.subrange(0, start)[j] == old(bp).bytes().subrange(0, start)[j] by {
                assert(fin.subrange(0, s1)[j] == before.subrange(0, s1)[j]);
                assert(before.subrange(0, start)[j] == old(bp).bytes().subrange(0, start)[j]);
            }
            assert(fin.subrange(0, start) =~= old(bp).bytes().subrange(0, start));
            assert(end % spf == 0 || end == wav@.len()) by (nonlinear_arith)
                requires
                    end == i + spf || end == wav@.len(),
                    i % spf == 0,
                    spf >= 1,
            ;
        }
        assert forall|j: int| 0 <= j < end && j % (spf as int) == 0 implies frame_fits(#[trigger] chunk(wav@, j, spf as int), *params) by {
            if j > i {
                assert(j >= i + spf) by (nonlinear_arith)
                    requires
                        j > i,
                        j % (spf as int) == 0,
                        (i as int) % (spf as int) == 0,
                        spf >= 1,
                ;
            }
        }
        if end < wav.len() {
            assert(end == i + spf);
            assert(end % spf == 0) by (nonlinear_arith)
                requires
                    end == i + spf,
                    i % spf == 0,
                    spf >= 1,
            ;
        }
        i = end;
    }
    assert(wav@.subrange(0, wav@.len() as int) =~= wav@);
    Ok(())
}

/// The 2-bit block type that the threshold rule gives for largest delta
/// magnitude `m`: 1 up to the first threshold, 2 up to the second, 3 up to
/// the third, 0 above.
pub open spec fn threshold_ftype(m: int, p: Parameters) -> usize {
    if m <= p.thresholds[0] {
        1
    } else if m <= p.thresholds[1] {
        2
    } else if m <= p.thresholds[2] {
        3
    } else {
        0
    }
}

/// Threshold monotonicity: with increasing thresholds that each stay within
/// what their Rice family can encode, and a last threshold of at least 15
/// (so that no block above it is narrow enough to fall back to Rice), the
/// block type written first is the one the threshold rule gives for the
/// largest delta magnitude.
pub proof fn lemma_threshold_monotonicity(s: Seq<i16>, d: Seq<i32>, p: Parameters)
    requires
        p.valid(),
        p.thresholds[0] <= p.thresholds[1] <= p.thresholds[2],
        15 <= p.thresholds[2],
        forall|f: int| 0 <= f < 3 ==> p.thresholds[f] <= #[trigger] rice_limit(p.rice_codes[f]),
    ensures
        block_bits(s, d, p).subrange(0, 2) == value_bits(threshold_ftype(max_abs(d), p), 2),
{
    reveal(block_bits);
    let m = max_abs(d);
    lemma_max_abs_nonneg(d);
    let b = block_bits(s, d, p);
    if m <= p.thresholds[2] {
        let f = rice_family(m, p);
        let rc = p.rice_codes[f];
        assert(p.thresholds[f] <= rice_limit(rc));
        assert(rc == crate::x3::rice_code_spec(p.codes[f] as nat));
        assert forall|i: int| 0 <= i < d.len() implies delta_fits(rc, #[trigger] d[i] as int) by {
            lemma_max_abs_bounds(d, i);
        }
        assert(threshold_rice(d, p));
        assert(b.subrange(0, 2) =~= value_bits((f + 1) as usize, 2));
    } else {
        if bit_width(m as nat) <= 4 {
            lemma_bit_width_lower(m as nat, 4);
            vstd::arithmetic::power2::lemma2_to64();
        }
        assert(!uses_rice(d, p));
        let x: usize = if uses_raw(d, p) {
            15
        } else {
            bfp_field(m) as usize
        };
        assert(x < 16) by {
            if !uses_raw(d, p) {
                assert(bit_width(m as nat) < 15);
            }
        }
        assert forall|j: int| 0 <= j < 2 implies #[trigger] value_bits(x, 6)[j] == value_bits(0, 2)[j] by {
            let sh = (6 - 1 - j) as usize;
            let sh2 = (2 - 1 - j) as usize;
            assert((x >> sh) & 1usize == 0usize) by (bit_vector)
                requires
                    x < 16,
                    sh == 5 || sh == 4,
            ;
            assert((0usize >> sh2) & 1usize == 0usize) by (bit_vector);
        }
        assert(b.subrange(0, 2) =~= value_bits(0, 2));
    }
}

/// Word-align, then write the frame header at the bookmark: the payload is
/// every byte from 20 bytes past the bookmark to the write position.
/// `num_samples` and the payload length must fit the header.
#[verifier::rlimit(60)]
pub fn write_frame_header(bp: &mut BitPacker, num_samples: usize, id: u8) -> (r: Result<(), X3Error>)
    requires
        old(bp).wf(),
    ensures
        final(bp).wf(),
        final(bp).bookmark_pos() == old(bp).bookmark_pos(),
        final(bp).pos() % 16 == 0,
        old(bp).pos() <= final(bp).pos() < old(bp).pos() + 16,
        final(bp).bytes().len() >= old(bp).bytes().len(),
        ({
            let bm = final(bp).bookmark_pos();
            let end = final(bp).pos() / 8;
            &&& r is Ok <==> bm + FRAME_HEADER_LENGTH <= end && end - bm - FRAME_HEADER_LENGTH < FRAME_MAX_LENGTH && num_samples <= 65535
            &&& forall|k: int|
                0 <= k < final(bp).bytes().len() && !(r is Ok && bm <= k < bm + FRAME_HEADER_LENGTH) ==> #[trigger] final(bp).bytes()[k]
                    == if k < old(bp).bytes().len() {
                    old(bp).bytes()[k]
                } else {
                    0u8
                }
        }),
        r is Ok ==> ({
            let bm = final(bp).bookmark_pos();
            let end = final(bp).pos() / 8;
            let payload = final(bp).bytes().subrange(bm + FRAME_HEADER_LENGTH, end);
            final(bp).bytes().subrange(bm, bm + FRAME_HEADER_LENGTH) == frame_header_spec(
                id,
                1,
                num_samples as u16,
                payload.len() as u16,
                crc16_of(payload),
            )
        }),
        r is Err ==> r == Err::<(), X3Error>(X3Error::FrameLength),
{
    bp.word_align();
    proof {
        bp.lemma_pos_in_bounds();
        let pp = bp.pos();
        assert((pp + 7) / 8 == pp / 8) by (nonlinear_arith)
            requires
                pp % 16 == 0,
                pp >= 0,
        ;
    }
    let frame_len = bp.bookmark_get_offset();
    if frame_len < FRAME_HEADER_LENGTH || frame_len - FRAME_HEADER_LENGTH >= FRAME_MAX_LENGTH || num_samples > 65535 {
        return Err(X3Error::FrameLength);
    }
    let payload_len = frame_len - FRAME_HEADER_LENGTH;
    let frame = bp.bookmark_get_from();
    let payload = vstd::slice::slice_subrange(frame, FRAME_HEADER_LENGTH, frame.len());
    let payload_crc = crc16(payload);
    let header = frame_header_bytes(id, 1, num_samples as u16, payload_len as u16, payload_crc);
    let ghost before = bp.bytes();
    let ghost bm = bp.bookmark_pos();
    assert(header@.len() == 20);
    bp.bookmark_write(header.as_slice());
    proof {
        let end = bp.pos() / 8;
        assert(bp.bytes().subrange(bm, bm + 20) =~= header@);
        assert(bp.bytes().subrange(bm + 20, end) =~= before.subrange(bm + 20, end));
        assert(payload@ =~= before.subrange(bm + 20, end));
    }
    Ok(())
}

/// Word-align a payload written into a fresh buffer and take its bytes.
#[verifier::rlimit(60)]
pub(crate) fn finish_payload(fp: &mut BitPacker, Ghost(all): Ghost<Seq<bool>>) -> (r: Vec<u8>)
    requires
        old(fp).wf(),
        old(fp).bits() == packed(Seq::empty(), 0, all),
        old(fp).pos() == all.len(),
    ensures
        final(fp).wf(),
        bits_of(r@) == pad16(all),
{
    let ghost e: Seq<bool> = Seq::empty();
    let ghost before = fp.pos();
    fp.word_align();
    let ghost z = Seq::new((fp.pos() - before) as nat, |i: int| false);
    proof {
        lemma_packed_concat(e, 0, all, z);
        lemma_pad16(all, (fp.pos() - before) as nat);
        lemma_fresh_bits(all + z);
    }
    let payload = fp.as_bytes();
    proof {
        assert(fp.bytes().subrange(0, fp.pos() / 8) =~= fp.bytes());
    }
    vstd::slice::slice_to_vec(payload)
}

/// Zeros that bring `b` to a whole number of words are its padding.
proof fn lemma_pad16(b: Seq<bool>, n: nat)
    requires
        n < 16,
        (b.len() + n) % 16 == 0,
    ensures
        b + Seq::new(n, |i: int| false) =~= pad16(b),
{
    let l = b.len() as int;
    let ni = n as int;
    assert(ni == (16 - l % 16) % 16) by (nonlinear_arith)
        requires
            0 <= ni < 16,
            (l + ni) % 16 == 0,
            l >= 0,
    ;
}

/// A frame: the header for `num_samples` samples and the payload, then the
/// payload. Refused when the header cannot hold the count or the length.
pub(crate) fn frame_bytes(num_samples: usize, payload: &[u8], params: &Parameters) -> (r: Result<Vec<u8>, X3Error>)
    ensures
        num_samples > 65535 || payload@.len() >= FRAME_MAX_LENGTH ==> r == Err::<Vec<u8>, X3Error>(X3Error::FrameLength),
        num_samples <= 65535 && payload@.len() < FRAME_MAX_LENGTH ==> (r matches Ok(v) && v@ == frame_header_spec(
            1,
            params.channel_count as u8,
            num_samples as u16,
            payload@.len() as u16,
            crc16_of(payload@),
        ) + payload@),
{
    if num_samples > 65535 || payload.len() >= FRAME_MAX_LENGTH {
        return Err(X3Error::FrameLength);
    }
    let payload_crc = crc16(payload);
    let mut out = frame_header_bytes(1, params.channel_count as u8, num_samples as u16, payload.len() as u16, payload_crc);
    out.extend_from_slice(payload);
    Ok(out)
}

/// The header and payload that `frame_bytes` joins form a frame of `wav`.
pub proof fn lemma_is_frame(v: Seq<u8>, payload: Seq<u8>, wav: Seq<i16>, p: Parameters)
    requires
        1 <= wav.len() <= 65535,
        payload.len() < FRAME_MAX_LENGTH,
        bits_of(payload) == pad16(frame_bits(wav, p)),
        v == frame_header_spec(1, p.channel_count as u8, wav.len() as u16, payload.len() as u16, crc16_of(payload)) + payload,
    ensures
        is_frame(v, wav, p),
{
    let h = frame_header_spec(1, p.channel_count as u8, wav.len() as u16, payload.len() as u16, crc16_of(payload));
    assert(h.len() == 20);
    assert(v.subrange(20, v.len() as int) =~= payload);
    assert(v.subrange(0, 20) =~= h);
}

/// Extending the samples of a frame by one more block (full or short)
/// extends its block bits by that block's bits.
pub proof fn lemma_blocks_extend(w2: Seq<i16>, n1: int, start: int, p: Parameters)
    requires
        p.valid(),
        1 <= start <= n1 < w2.len() <= n1 + p.block_len,
        (n1 - start) % (p.block_len as int) == 0,
    ensures
        blocks_bits(w2, start, p) == blocks_bits(w2.subrange(0, n1), start, p) + block_bits(
            w2.subrange(n1, w2.len() as int),
            diff_spec(w2).subrange(n1 - 1, w2.len() - 1),
            p,
        ),
    decreases n1 - start,
{
    let w1 = w2.subrange(0, n1);
    let bl = p.block_len as int;
    if start == n1 {
        let last = block_bits(w2.subrange(n1, w2.len() as int), diff_spec(w2).subrange(n1 - 1, w2.len() - 1), p);
        assert(blocks_bits(w2, w2.len() as int, p) == Seq::<bool>::empty());
        assert(blocks_bits(w1, n1, p) == Seq::<bool>::empty());
        assert(blocks_bits(w2, start, p) == last + Seq::<bool>::empty());
        assert(last + Seq::<bool>::empty() =~= last);
        assert(Seq::<bool>::empty() + last =~= last);
    } else {
        assert(n1 - start >= bl) by (nonlinear_arith)
            requires
                (n1 - start) % bl == 0,
                n1 - start > 0,
                bl >= 1,
        ;
        let end = start + bl;
        assert((n1 - end) % bl == 0) by (nonlinear_arith)
            requires
                (n1 - start) % bl == 0,
                end == start + bl,
                bl >= 1,
        ;
        assert(w1.subrange(start, end) =~= w2.subrange(start, end));
        assert(diff_spec(w1).subrange(start - 1, end - 1) =~= diff_spec(w2).subrange(start - 1, end - 1));
        lemma_blocks_extend(w2, n1, end, p);
        let x = block_bits(w2.subrange(start, end), diff_spec(w2).subrange(start - 1, end - 1), p);
        assert(blocks_bits(w2, start, p) == x + blocks_bits(w2, end, p));
        assert(blocks_bits(w1, start, p) == x + blocks_bits(w1, end, p));
        let last = block_bits(w2.subrange(n1, w2.len() as int), diff_spec(w2).subrange(n1 - 1, w2.len() - 1), p);
        assert(x + (blocks_bits(w1, end, p) + last) =~= (x + blocks_bits(w1, end, p)) + last);
    }
}

proof fn lemma_rice_word_len(rc: RiceCode, d: int)
    requires
        rc.nsubs <= 3,
        rc == crate::x3::rice_code_spec(rc.nsubs as nat),
        delta_fits(rc, d),
    ensures
        rice_word(rc, d).len() <= 16,
{
    let u = zigzag(d);
    let level = level_of(rc.nsubs as nat);
    assert(rice_word(rc, d).len() == u / level + rc.nsubs + 1);
    if rc.nsubs == 0 {
        assert(u <= 14);
    } else if rc.nsubs == 1 {
        assert(u <= 21);
    } else if rc.nsubs == 2 {
        assert(u <= 39);
    } else {
        assert(u <= 55);
    }
}

proof fn lemma_rice_words_len(rc: RiceCode, d: Seq<i32>)
    requires
        rc.nsubs <= 3,
        rc == crate::x3::rice_code_spec(rc.nsubs as nat),
        fits(rc, d),
    ensures
        rice_words(rc, d).len() <= 16 * d.len(),
    decreases d.len(),
{
    if d.len() > 0 {
        assert(fits(rc, d.drop_last()));
        lemma_rice_words_len(rc, d.drop_last());
        lemma_rice_word_len(rc, d.last() as int);
    }
}

proof fn lemma_bfp_words_len(d: Seq<i32>, w: nat)
    ensures
        bfp_words(d, w).len() == w * d.len(),
    decreases d.len(),
{
    if d.len() > 0 {
        lemma_bfp_words_len(d.drop_last(), w);
        assert(w * d.len() == w * (d.len() - 1) + w) by (nonlinear_arith);
    }
}

proof fn lemma_raw_words_len(s: Seq<i16>)
    ensures
        raw_words(s).len() == 16 * s.len(),
    decreases s.len(),
{
    if s.len() > 0 {
        lemma_raw_words_len(s.drop_last());
    }
}

/// A block takes at most 6 + 16 bits a sample.
pub proof fn lemma_block_len(s: Seq<i16>, d: Seq<i32>, p: Parameters)
    requires
        p.valid(),
        d.len() == s.len(),
    ensures
        block_bits(s, d, p).len() <= 6 + 16 * s.len(),
{
    reveal(block_bits);
    let m = max_abs(d);
    if uses_rice(d, p) {
        let f = rice_choice(d, p);
        assert(p.rice_codes[f] == crate::x3::rice_code_spec(p.codes[f] as nat));
        lemma_rice_words_len(p.rice_codes[f], d);
    } else if uses_raw(d, p) {
        lemma_raw_words_len(s);
    } else {
        let w = bfp_field(m) + 1;
        lemma_bfp_words_len(d, w);
        assert(w <= 15);
        assert(w * d.len() <= 16 * d.len()) by (nonlinear_arith)
            requires
                w <= 15,
        ;
    }
}

/// The blocks of a frame take at most 22 bits a sample.
pub proof fn lemma_blocks_len(wav: Seq<i16>, start: int, p: Parameters)
    requires
        p.valid(),
        1 <= start <= wav.len(),
    ensures
        blocks_bits(wav, start, p).len() <= 22 * (wav.len() - start),
    decreases wav.len() - start,
{
    if start < wav.len() {
        let end = vstd::math::min(start + p.block_len, wav.len() as int);
        lemma_block_len(wav.subrange(start, end), diff_spec(wav).subrange(start - 1, end - 1), p);
        lemma_blocks_len(wav, end, p);
    }
}

/// A frame of `n` samples has a payload of fewer than `(22 n + 32) / 8`
/// bytes.
pub proof fn lemma_payload_len(w: Seq<i16>, p: Parameters)
    requires
        p.valid(),
        w.len() >= 1,
    ensures
        8 * payload_len_spec(w, p) < 22 * w.len() + 32,
{
    lemma_blocks_len(w, 1, p);
    let l = frame_bits(w, p).len() as int;
    assert(l <= 16 + 22 * (w.len() - 1));
    assert(pad16(frame_bits(w, p)).len() == l + (16 - l % 16) % 16);
    assert(pad16(frame_bits(w, p)).len() % 8 == 0) by (nonlinear_arith)
        requires
            pad16(frame_bits(w, p)).len() == l + (16 - l % 16) % 16,
            l >= 0,
    ;
}

/// A frame of `n` samples with `22 n + 32 <= 8 * 0x7fe0` (at most 11900
/// samples, the default 10000 among them) always fits its header.
pub proof fn lemma_small_frame_fits(w: Seq<i16>, p: Parameters)
    requires
        p.valid(),
        w.len() >= 1,
        22 * w.len() + 32 <= 8 * FRAME_MAX_LENGTH,
    ensures
        frame_fits(w, p),
{
    lemma_payload_len(w, p);
}

} // verus!
