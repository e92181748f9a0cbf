//! Codec parameters, Rice code descriptors and the frame and archive layout.

use vstd::prelude::*;
use crate::error::X3Error;
use crate::crc::{crc16, crc16_of};

verus! {

/// Most samples in a block.
pub const MAX_BLOCK_LENGTH: usize = 60;

/// Zig-zag index of a delta: 0, -1, 1, -2, 2, ... become 0, 1, 2, 3, 4, ...
pub open spec fn zigzag(d: int) -> nat {
    if d >= 0 {
        (2 * d) as nat
    } else {
        (-2 * d - 1) as nat
    }
}

/// The delta with zig-zag index `u`.
pub open spec fn unzigzag(u: nat) -> int {
    if u % 2 == 0 {
        (u / 2) as int
    } else {
        -((u + 1) / 2)
    }
}

/// `2^k` for the suffix widths in use.
pub open spec fn level_of(k: nat) -> nat {
    if k == 0 {
        1
    } else if k == 1 {
        2
    } else if k == 2 {
        4
    } else {
        8
    }
}

/// A Rice code family: codewords `0^q 1 s` for the zig-zag index
/// `u = q * 2^nsubs + s` of a delta, with an `nsubs`-bit suffix `s`.
#[derive(Clone, Copy, Debug, PartialEq, Eq)]
pub struct RiceCode {
    /// Number of suffix bits.
    pub nsubs: usize,
    /// Offset of delta zero in the encode tables.
    pub offset: usize,
    /// Length of the encode tables: deltas from `-offset` to
    /// `code_len - offset - 1` can be encoded.
    pub code_len: usize,
    /// Number of usable entries of the inverse table.
    pub inv_len: usize,
}

/// The descriptor of Rice family `k`.
pub open spec fn rice_code_spec(k: nat) -> RiceCode {
    if k == 0 {
        RiceCode { nsubs: 0, offset: 6, code_len: 14, inv_len: 16 }
    } else if k == 1 {
        RiceCode { nsubs: 1, offset: 11, code_len: 22, inv_len: 26 }
    } else if k == 2 {
        RiceCode { nsubs: 2, offset: 20, code_len: 40, inv_len: 44 }
    } else {
        RiceCode { nsubs: 3, offset: 28, code_len: 56, inv_len: 60 }
    }
}

/// Largest magnitude such that both signs of it can be encoded.
pub open spec fn rice_limit(rc: RiceCode) -> int {
    if rc.code_len >= 2 * rc.offset + 1 {
        rc.offset as int
    } else {
        rc.offset - 1
    }
}

impl RiceCode {
    /// `2^nsubs`.
    pub open spec fn level_spec(&self) -> nat {
        level_of(self.nsubs as nat)
    }

    pub fn level(&self) -> (r: usize)
        requires
            self.nsubs <= 3,
        ensures
            r == self.level_spec(),
    {
        if self.nsubs == 0 {
            1
        } else if self.nsubs == 1 {
            2
        } else if self.nsubs == 2 {
            4
        } else {
            8
        }
    }

    /// Zig-zag index of the delta at table index `i`.
    pub open spec fn index_spec(&self, i: int) -> nat {
        zigzag(i - self.offset)
    }

    /// Encode prefix payload at table index `i`: the terminating one bit
    /// followed by the suffix.
    pub open spec fn code_spec(&self, i: int) -> nat {
        self.level_spec() + self.index_spec(i) % self.level_spec()
    }

    /// Codeword length at table index `i`.
    pub open spec fn num_bits_spec(&self, i: int) -> nat {
        self.index_spec(i) / self.level_spec() + 1 + self.nsubs as nat
    }

    pub fn code(&self, i: usize) -> (r: usize)
        requires
            self == rice_code_spec(self.nsubs as nat),
            self.nsubs <= 3,
            i < self.code_len,
        ensures
            r == self.code_spec(i as int),
    {
        let u = if i >= self.offset {
            2 * (i - self.offset)
        } else {
            2 * (self.offset - i) - 1
        };
        let level = self.level();
        level + u % level
    }

    pub fn num_bits(&self, i: usize) -> (r: usize)
        requires
            self == rice_code_spec(self.nsubs as nat),
            self.nsubs <= 3,
            i < self.code_len,
        ensures
            r == self.num_bits_spec(i as int),
    {
        let u = if i >= self.offset {
            2 * (i - self.offset)
        } else {
            2 * (self.offset - i) - 1
        };
        u / self.level() + 1 + self.nsubs
    }

    /// The delta with zig-zag index `i`: 0, -1, 1, -2, 2, ...
    pub fn inv(&self, i: usize) -> (r: i16)
        requires
            i < self.inv_len,
            self.inv_len <= 60,
        ensures
            r as int == unzigzag(i as nat),
    {
        if i % 2 == 0 {
            (i / 2) as i16
        } else {
            -(((i + 1) / 2) as i16)
        }
    }
}

pub struct RiceCodes {}

impl RiceCodes {
    /// The descriptors of the three Rice families named by `code_list`.
    pub fn get(code_list: [usize; 3]) -> (r: [RiceCode; 3])
        requires
            code_list[0] < 4,
            code_list[1] < 4,
            code_list[2] < 4,
        ensures
            r[0] == rice_code_spec(code_list[0] as nat),
            r[1] == rice_code_spec(code_list[1] as nat),
            r[2] == rice_code_spec(code_list[2] as nat),
    {
        [Self::family(code_list[0]), Self::family(code_list[1]), Self::family(code_list[2])]
    }

    fn family(k: usize) -> (r: RiceCode)
        requires
            k < 4,
        ensures
            r == rice_code_spec(k as nat),
    {
        if k == 0 {
            RiceCode { nsubs: 0, offset: 6, code_len: 14, inv_len: 16 }
        } else if k == 1 {
            RiceCode { nsubs: 1, offset: 11, code_len: 22, inv_len: 26 }
        } else if k == 2 {
            RiceCode { nsubs: 2, offset: 20, code_len: 40, inv_len: 44 }
        } else {
            RiceCode { nsubs: 3, offset: 28, code_len: 56, inv_len: 60 }
        }
    }
}

/// Per-stream coding parameters.
#[derive(Clone, Copy, Debug)]
pub struct Parameters {
    pub channel_count: usize,
    pub block_len: usize,
    pub blocks_per_frame: usize,
    /// The Rice families in use, each from 0 to 3.
    pub codes: [usize; 3],
    pub thresholds: [usize; 3],
    pub rice_codes: [RiceCode; 3],
}

pub const DEFAULT_BLOCK_LENGTH: usize = 20;

pub const DEFAULT_BLOCKS_PER_FRAME: usize = 500;

impl Parameters {
    /// What every `Parameters` built by this library satisfies.
    pub open spec fn valid(&self) -> bool {
        &&& self.channel_count == 1
        &&& 1 <= self.block_len <= MAX_BLOCK_LENGTH
        &&& 1 <= self.blocks_per_frame
        &&& forall|k: int|
            0 <= k < 3 ==> self.codes[k] < 4 && #[trigger] self.rice_codes[k] == rice_code_spec(
                self.codes[k] as nat,
            )
        &&& self.thresholds[0] <= self.rice_codes[0].offset
        &&& self.thresholds[1] <= self.rice_codes[1].offset
    }

    /// Build parameters; a threshold of the first two Rice families above its
    /// offset is refused.
    pub fn new(block_len: usize, blocks_per_frame: usize, codes: [usize; 3], thresholds: [usize; 3]) -> (r: Result<Self, X3Error>)
        requires
            1 <= block_len <= MAX_BLOCK_LENGTH,
            1 <= blocks_per_frame,
            codes[0] < 4,
            codes[1] < 4,
            codes[2] < 4,
        ensures
            r is Ok <==> thresholds[0] <= rice_code_spec(codes[0] as nat).offset
                && thresholds[1] <= rice_code_spec(codes[1] as nat).offset,
            r is Err ==> r == Err::<Self, X3Error>(X3Error::InvalidEncodingThresh),
            r matches Ok(p) ==> p.valid() && p.block_len == block_len && p.blocks_per_frame
                == blocks_per_frame && p.codes == codes && p.thresholds == thresholds,
    {
        let rice_codes = RiceCodes::get(codes);
        let mut k: usize = 0;
        while k < 2
            invariant
                k <= 2,
                rice_codes[0] == rice_code_spec(codes[0] as nat),
                rice_codes[1] == rice_code_spec(codes[1] as nat),
                forall|j: int| 0 <= j < k ==> thresholds[j] <= rice_codes[j].offset,
            decreases 2 - k,
        {
            if thresholds[k] > rice_codes[k].offset {
                return Err(X3Error::InvalidEncodingThresh);
            }
            k += 1;
        }
        let p = Parameters {
            channel_count: 1,
            block_len,
            blocks_per_frame,
            codes,
            thresholds,
            rice_codes,
        };
        assert(forall|j: int| 0 <= j < 3 ==> p.rice_codes[j] == rice_code_spec(p.codes[j] as nat));
        Ok(p)
    }

    /// Block length 20, 500 blocks a frame, Rice families (0, 1, 3) and
    /// thresholds (3, 8, 20).
    pub open spec fn is_default(&self) -> bool {
        &&& self.valid()
        &&& self.block_len == DEFAULT_BLOCK_LENGTH
        &&& self.blocks_per_frame == DEFAULT_BLOCKS_PER_FRAME
        &&& self.codes == [0usize, 1, 3]
        &&& self.thresholds == [3usize, 8, 20]
    }
}

impl Default for Parameters {
    fn default() -> (r: Self)
        ensures
            r.is_default(),
    {
        let codes: [usize; 3] = [0, 1, 3];
        let rice_codes = RiceCodes::get(codes);
        let p = Parameters {
            channel_count: 1,
            block_len: DEFAULT_BLOCK_LENGTH,
            blocks_per_frame: DEFAULT_BLOCKS_PER_FRAME,
            codes,
            thresholds: [3, 8, 20],
            rice_codes,
        };
        assert(forall|j: int| 0 <= j < 3 ==> p.rice_codes[j] == rice_code_spec(p.codes[j] as nat));
        p
    }
}

/// What the archive header says of a stream.
#[derive(Clone, Copy, Debug)]
pub struct X3aSpec {
    /// Samples per second.
    pub sample_rate: u32,
    pub params: Parameters,
    pub channels: u8,
}

/// One channel of audio to encode.
pub struct Channel {
    pub id: u16,
    pub wav: Vec<i16>,
    pub sample_rate: u32,
    pub params: Parameters,
}

impl Channel {
    pub fn new(id: u16, wav: Vec<i16>, sample_rate: u32, params: Parameters) -> (r: Self)
        ensures
            r.id == id,
            r.wav@ == wav@,
            r.sample_rate == sample_rate,
            r.params == params,
    {
        Channel { id, wav, sample_rate, params }
    }
}

/// A channel whose samples arrive in pieces; see `StreamEncoder`.
pub struct IterChannel {
    pub id: u16,
    pub sample_rate: u32,
    pub params: Parameters,
}

impl IterChannel {
    pub fn new(id: u16, sample_rate: u32, params: Parameters) -> (r: Self)
        ensures
            r.id == id,
            r.sample_rate == sample_rate,
            r.params == params,
    {
        IterChannel { id, sample_rate, params }
    }
}

/// Channels to decode into and the compressed input.
pub struct Decoder {
    pub channels: Vec<Channel>,
    pub x3_inp: Vec<u8>,
}

/// The archive container.
pub struct Archive {}

/// Length of the archive magic.
pub const ARCHIVE_ID_LEN: usize = 8;

/// The archive magic, `X3ARCHIV`.
pub open spec fn archive_id_spec() -> Seq<u8> {
    seq![0x58u8, 0x33, 0x41, 0x52, 0x43, 0x48, 0x49, 0x56]
}

impl Archive {
    pub fn id() -> (r: [u8; 8])
        ensures
            r@ == archive_id_spec(),
    {
        let r: [u8; 8] = [0x58, 0x33, 0x41, 0x52, 0x43, 0x48, 0x49, 0x56];
        assert(r@ =~= archive_id_spec());
        r
    }
}

/// Frame limits.
pub struct Frame {}

/// Payload lengths must stay below this.
pub const FRAME_MAX_LENGTH: usize = 0x7fe0;

/// Length of a frame header.
pub const FRAME_HEADER_LENGTH: usize = 20;

/// The frame key "x3".
pub const FRAME_KEY: u16 = 0x7833;

/// The fields of a frame header.
#[derive(Clone, Copy, Debug, PartialEq, Eq)]
pub struct FrameHeader {
    pub source_id: u8,
    pub samples: u16,
    pub channels: u8,
    pub payload_len: usize,
    pub payload_crc: u16,
}

/// Header bytes 0 to 15: key, source id, channel count, sample count,
/// payload length (both big-endian) and eight zero time bytes.
pub open spec fn header_prefix_spec(source_id: u8, channels: u8, samples: u16, payload_len: u16) -> Seq<u8> {
    seq![
        0x78u8,
        0x33u8,
        source_id,
        channels,
        (samples / 256) as u8,
        (samples % 256) as u8,
        (payload_len / 256) as u8,
        (payload_len % 256) as u8,
        0u8,
        0u8,
        0u8,
        0u8,
        0u8,
        0u8,
        0u8,
        0u8,
    ]
}

/// A complete 20-byte frame header: the prefix, its CRC and the payload CRC,
/// both big-endian.
pub open spec fn frame_header_spec(source_id: u8, channels: u8, samples: u16, payload_len: u16, payload_crc: u16) -> Seq<u8> {
    let h = header_prefix_spec(source_id, channels, samples, payload_len);
    h + seq![
        (crc16_of(h) / 256) as u8,
        (crc16_of(h) % 256) as u8,
        (payload_crc / 256) as u8,
        (payload_crc % 256) as u8,
    ]
}

/// The 20 bytes of a frame header.
pub fn frame_header_bytes(source_id: u8, channels: u8, samples: u16, payload_len: u16, payload_crc: u16) -> (r: Vec<u8>)
    ensures
        r@ == frame_header_spec(source_id, channels, samples, payload_len, payload_crc),
{
    let mut h: Vec<u8> = Vec::new();
    h.push(0x78);
    h.push(0x33);
    h.push(source_id);
    h.push(channels);
    h.push((samples / 256) as u8);
    h.push((samples % 256) as u8);
    h.push((payload_len / 256) as u8);
    h.push((payload_len % 256) as u8);
    let mut i: usize = 0;
    while i < 8
        invariant
            i <= 8,
            h@.len() == 8 + i,
            h@ =~= header_prefix_spec(source_id, channels, samples, payload_len).subrange(0, 8 + i as int),
        decreases 8 - i,
    {
        h.push(0);
        i += 1;
    }
    let ghost hp = header_prefix_spec(source_id, channels, samples, payload_len);
    assert(hp.subrange(0, 16) =~= hp);
    assert(h@ == hp);
    let header_crc = crc16(h.as_slice());
    h.push((header_crc / 256) as u8);
    h.push((header_crc % 256) as u8);
    h.push((payload_crc / 256) as u8);
    h.push((payload_crc % 256) as u8);
    assert(h@ =~= frame_header_spec(source_id, channels, samples, payload_len, payload_crc));
    h
}

} // verus!
