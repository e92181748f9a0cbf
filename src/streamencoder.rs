//! Incremental encoder: samples arrive in pieces; each block is encoded as
//! soon as it is full and each frame goes to the byte sink when complete.

use vstd::prelude::*;
use crate::bitpacker::{BitPacker, packed, value_bits, lemma_packed_concat};
use crate::bytewriter::ByteWriter;
use crate::roundtrip::lemma_frames_unique;
use crate::encoder::{pad16, frame_fits, frames_fit, chunk, 
    x3_encode_block, block_bits, blocks_bits, diff_spec, frame_bits, raw16, raw16_word,
    deltas_in_range, is_frames_of, lemma_frames_push, lemma_blocks_extend, lemma_is_frame,
    finish_payload, frame_bytes, payload_len_spec, lemma_payload_len,
};
use crate::error::X3Error;
use crate::x3::{Parameters, FRAME_HEADER_LENGTH, FRAME_MAX_LENGTH};

verus! {

/// Samples in a frame of the stream encoder: the first sample and
/// `blocks_per_frame` blocks.
pub open spec fn stream_frame_samples(p: Parameters) -> int {
    1 + p.block_len * p.blocks_per_frame
}

/// The sample count of a stream encoder frame fits its header.
pub open spec fn frame_size_ok(p: Parameters) -> bool {
    stream_frame_samples(p) <= 65535
}

/// Bytes of the frames of `wav` cut into frames of `size` samples, the last
/// one possibly shorter.
pub open spec fn frames_len(wav: Seq<i16>, p: Parameters, size: int) -> int
    decreases wav.len(),
{
    if wav.len() == 0 || size <= 0 {
        0
    } else {
        let n = vstd::math::min(size, wav.len() as int);
        FRAME_HEADER_LENGTH + payload_len_spec(wav.subrange(0, n), p) + frames_len(wav.subrange(n, wav.len() as int), p, size)
    }
}

/// The frame bytes of whole frames and of what follows them add up.
pub proof fn lemma_frames_len_concat(a: Seq<i16>, b: Seq<i16>, p: Parameters, size: int)
    requires
        size >= 1,
        (a.len() as int) % size == 0,
    ensures
        frames_len(a + b, p, size) == frames_len(a, p, size) + frames_len(b, p, size),
    decreases a.len(),
{
    if a.len() == 0 {
        assert(a + b =~= b);
    } else {
        assert((a.len() as int) >= size) by (nonlinear_arith)
            requires
                (a.len() as int) % size == 0,
                (a.len() as int) > 0,
                size >= 1,
        ;
        let t = a.subrange(size, a.len() as int);
        assert((t.len() as int) % size == 0) by (nonlinear_arith)
            requires
                (a.len() as int) % size == 0,
                (t.len() as int) == (a.len() as int) - size,
                size >= 1,
        ;
        assert((a + b).subrange(0, size) =~= a.subrange(0, size));
        assert((a + b).subrange(size, (a + b).len() as int) =~= t + b);
        lemma_frames_len_concat(t, b, p, size);
    }
}

/// A frame completed at sample `c + size` of `w`, before `cf`, the end of
/// the whole frames: it is one of the frames counted up to `cf`, and the
/// frame bytes up to `cf` split at it.
proof fn lemma_completed_frame(w: Seq<i16>, c: int, cf: int, size: int, p: Parameters, upto: int)
    requires
        size >= 1,
        c % size == 0,
        0 <= c,
        c + size <= upto <= w.len(),
        cf == (w.len() as int / size) * size,
    ensures
        c + size <= cf,
        cf <= w.len(),
        (cf - (c + size)) % size == 0,
        frames_fit(w.subrange(0, cf), p, size) ==> frame_fits(w.subrange(c, c + size), p),
        frames_len(w.subrange(0, cf), p, size) == frames_len(w.subrange(0, c), p, size) + FRAME_HEADER_LENGTH
            + payload_len_spec(w.subrange(c, c + size), p) + frames_len(w.subrange(c + size, cf), p, size),
{
    let n = w.len() as int;
    let q = n / size;
    let j = c / size;
    vstd::arithmetic::div_mod::lemma_fundamental_div_mod(n, size);
    vstd::arithmetic::div_mod::lemma_fundamental_div_mod(c, size);
    assert(c == j * size);
    assert(0 <= n % size < size);
    assert(cf == q * size);
    assert((j + 1) * size == c + size) by (nonlinear_arith)
        requires
            c == j * size,
    ;
    assert(j + 1 <= q) by (nonlinear_arith)
        requires
            size >= 1,
            n == size * q + n % size,
            0 <= n % size < size,
            (j + 1) * size <= n,
    ;
    assert(cf - (c + size) == (q - j - 1) * size) by (nonlinear_arith)
        requires
            cf == q * size,
            c == j * size,
    ;
    assert(c + size <= cf) by (nonlinear_arith)
        requires
            j + 1 <= q,
            size >= 1,
            cf == q * size,
            c == j * size,
    ;
    vstd::arithmetic::div_mod::lemma_mod_multiples_basic(q - j - 1, size);
    let whole = w.subrange(0, cf);
    let f = w.subrange(c, c + size);
    assert(chunk(whole, c, size) =~= f);
    lemma_frames_len_concat(w.subrange(0, c), w.subrange(c, cf), p, size);
    assert(w.subrange(0, c) + w.subrange(c, cf) =~= whole);
    assert(w.subrange(c, cf).subrange(0, size) =~= f);
    assert(w.subrange(c, cf).subrange(size, cf - c) =~= w.subrange(c + size, cf));
}

/// After a frame `f` completed at sample `c + size` was written, the room
/// promised for the frames up to `c` carries to those up to `c + size`.
proof fn lemma_room_carries<W: ByteWriter>(ow: W, bw: W, aw: W, w: Seq<i16>, c: int, size: int, p: Parameters)
    requires
        size >= 1,
        c % size == 0,
        0 <= c,
        c + size <= w.len(),
        frame_fits(w.subrange(c, c + size), p),
        forall|k: nat| #[trigger] ow.accepts((frames_len(w.subrange(0, c), p, size) + k) as nat) ==> bw.accepts(k),
        forall|k: nat|
            frame_fits(w.subrange(c, c + size), p) && #[trigger] bw.accepts(
                (FRAME_HEADER_LENGTH + payload_len_spec(w.subrange(c, c + size), p) + k) as nat,
            ) ==> aw.accepts(k),
    ensures
        forall|k: nat| #[trigger] ow.accepts((frames_len(w.subrange(0, c + size), p, size) + k) as nat) ==> aw.accepts(k),
{
    let f = w.subrange(c, c + size);
    lemma_frames_len_concat(w.subrange(0, c), f, p, size);
    assert(w.subrange(0, c) + f =~= w.subrange(0, c + size));
    assert(f.subrange(0, size) =~= f);
    assert(f.subrange(size, f.len() as int) =~= Seq::<i16>::empty());
    assert(frames_len(Seq::<i16>::empty(), p, size) == 0);
    assert(f.len() == size);
    assert(vstd::math::min(size, f.len() as int) == size);
    assert(frames_len(f, p, size) == FRAME_HEADER_LENGTH + payload_len_spec(f, p));
    assert forall|k: nat| #[trigger] ow.accepts((frames_len(w.subrange(0, c + size), p, size) + k) as nat) implies aw.accepts(k) by {
        let k1 = (FRAME_HEADER_LENGTH + payload_len_spec(f, p) + k) as nat;
        assert(ow.accepts((frames_len(w.subrange(0, c), p, size) + k1) as nat));
        assert(bw.accepts(k1));
    }
}

/// With room for all the frames completed up to `cf`, the frame completed
/// at `c + size` is written.
proof fn lemma_room_suffices<W: ByteWriter>(ow: W, bw: W, ok: bool, w: Seq<i16>, c: int, cf: int, size: int, p: Parameters)
    requires
        size >= 1,
        c % size == 0,
        0 <= c,
        c + size <= w.len(),
        cf == (w.len() as int / size) * size,
        frames_fit(w.subrange(0, cf), p, size),
        ow.accepts(frames_len(w.subrange(0, cf), p, size) as nat),
        forall|k: nat| #[trigger] ow.accepts((frames_len(w.subrange(0, c), p, size) + k) as nat) ==> bw.accepts(k),
        forall|k: nat|
            frame_fits(w.subrange(c, c + size), p) && #[trigger] bw.accepts(
                (FRAME_HEADER_LENGTH + payload_len_spec(w.subrange(c, c + size), p) + k) as nat,
            ) ==> ok,
    ensures
        ok,
        frame_fits(w.subrange(c, c + size), p),
{
    lemma_completed_frame(w, c, cf, size, p, c + size);
    let f = w.subrange(c, c + size);
    let rest = frames_len(w.subrange(c + size, cf), p, size);
    lemma_frames_len_nonneg(w.subrange(c + size, cf), p, size);
    let k1 = (FRAME_HEADER_LENGTH + payload_len_spec(f, p) + rest) as nat;
    assert(ow.accepts((frames_len(w.subrange(0, c), p, size) + k1) as nat));
    assert(bw.accepts(k1));
}

proof fn lemma_frames_len_nonneg(wav: Seq<i16>, p: Parameters, size: int)
    ensures
        frames_len(wav, p, size) >= 0,
    decreases wav.len(),
{
    if wav.len() > 0 && size > 0 {
        let n = vstd::math::min(size, wav.len() as int);
        lemma_frames_len_nonneg(wav.subrange(n, wav.len() as int), p, size);
    }
}

/// Encodes a mono stream of samples given in pieces, holding at most one
/// block of samples.
pub struct StreamEncoder<W: ByteWriter> {
    writer: W,
    params: Parameters,
    frame_len: usize,
    /// Payload bits of the frame being built.
    bp: BitPacker,
    /// Whether the frame being built has its first sample.
    started: bool,
    /// The last sample given.
    filter_state: i16,
    /// Samples of the block being collected, and their deltas.
    block: Vec<i16>,
    diffs: Vec<i32>,
    /// Blocks of the current frame already encoded.
    block_count: usize,
    /// Samples of the frame being built.
    frame_samples: usize,
    /// Every sample given so far.
    consumed: Ghost<Seq<i16>>,
    /// How many of them are in frames already written.
    done: Ghost<int>,
    /// Writer position when the encoder was made.
    start: Ghost<int>,
}

impl<W: ByteWriter> StreamEncoder<W> {
    /// Samples of the frame being built.
    closed spec fn frame_wav(&self) -> Seq<i16> {
        self.consumed@.subrange(self.done@, self.consumed@.len() as int)
    }

    /// What holds between calls, except how much of the frame is encoded.
    closed spec fn base(&self) -> bool {
        &&& self.params.valid()
        &&& self.frame_len == stream_frame_samples(self.params)
        &&& frame_size_ok(self.params)
        &&& 0 <= self.done@ <= self.consumed@.len()
        &&& self.done@ % (self.frame_len as int) == 0
        &&& 0 <= self.start@ <= self.writer.position() <= self.writer.contents().len()
        &&& is_frames_of(
            self.writer.contents().subrange(self.start@, self.writer.position()),
            self.consumed@.subrange(0, self.done@),
            self.params,
            self.frame_len as int,
        )
        &&& self.bp.wf()
        &&& self.frame_samples == self.frame_wav().len()
    }

    /// The blocks before the one being collected are encoded.
    closed spec fn collecting(&self) -> bool {
        let fw = self.frame_wav();
        let bl = self.params.block_len as int;
        let n1 = 1 + self.block_count * bl;
        &&& self.base()
        &&& !self.started ==> fw.len() == 0 && self.block@.len() == 0 && self.diffs@.len() == 0 && self.block_count == 0
        &&& self.started ==> {
            &&& self.block_count < self.params.blocks_per_frame
            &&& fw.len() == n1 + self.block@.len()
            &&& self.block@.len() <= bl
            &&& self.block@ == fw.subrange(n1, fw.len() as int)
            &&& self.diffs@ == diff_spec(fw).subrange(n1 - 1, fw.len() - 1)
            &&& self.filter_state == fw.last()
            &&& self.bp.bits() == packed(
                Seq::empty(),
                0,
                value_bits(raw16(fw[0]) as usize, 16) + blocks_bits(fw.subrange(0, n1), 1, self.params),
            )
            &&& self.bp.pos() == (value_bits(raw16(fw[0]) as usize, 16) + blocks_bits(
                fw.subrange(0, n1),
                1,
                self.params,
            )).len()
        }
    }

    /// The whole frame being built is encoded.
    closed spec fn all_coded(&self) -> bool {
        let fw = self.frame_wav();
        &&& self.base()
        &&& self.started
        &&& fw.len() >= 1
        &&& fw.len() <= self.frame_len
        &&& self.block@.len() == 0
        &&& self.diffs@.len() == 0
        &&& self.filter_state == fw.last()
        &&& self.bp.bits() == packed(Seq::empty(), 0, frame_bits(fw, self.params))
        &&& self.bp.pos() == frame_bits(fw, self.params).len()
    }

    pub closed spec fn wf(&self) -> bool {
        &&& self.collecting()
        &&& self.started ==> self.block@.len() < self.params.block_len
    }

    /// Every sample given so far.
    pub closed spec fn samples(&self) -> Seq<i16> {
        self.consumed@
    }

    /// The samples of the frame being built.
    pub closed spec fn pending(&self) -> Seq<i16> {
        self.frame_wav()
    }

    /// The samples of the frames already written.
    pub closed spec fn written(&self) -> Seq<i16> {
        self.consumed@.subrange(0, self.done@)
    }

    /// The sink holds the frames of `written()`, from `start_pos()` on, and
    /// the frame being built is not yet full.
    pub open spec fn consistent(&self) -> bool {
        &&& self.parameters().valid()
        &&& self.samples() == self.written() + self.pending()
        &&& (self.written().len() as int) % stream_frame_samples(self.parameters()) == 0
        &&& self.pending().len() < stream_frame_samples(self.parameters())
        &&& 0 <= self.start_pos() <= self.sink().position() <= self.sink().contents().len()
        &&& is_frames_of(
            self.sink().contents().subrange(self.start_pos(), self.sink().position()),
            self.written(),
            self.parameters(),
            stream_frame_samples(self.parameters()),
        )
    }

    proof fn lemma_consistent(&self)
        requires
            self.wf(),
        ensures
            self.consistent(),
    {
        assert(self.consumed@ =~= self.written() + self.pending());
        if self.started {
            let bl = self.params.block_len as int;
            assert(self.frame_wav().len() < 1 + bl * self.params.blocks_per_frame) by (nonlinear_arith)
                requires
                    self.frame_wav().len() == 1 + self.block_count * bl + self.block@.len(),
                    self.block@.len() < bl,
                    self.block_count < self.params.blocks_per_frame,
                    self.block_count >= 0,
            ;
        }
    }

    /// The parameters in use.
    pub closed spec fn parameters(&self) -> Parameters {
        self.params
    }

    /// Where the frames start in the sink.
    pub closed spec fn start_pos(&self) -> int {
        self.start@
    }

    /// The sink.
    pub closed spec fn sink(&self) -> W {
        self.writer
    }

    pub fn new(writer: W, params: &Parameters) -> (r: Self)
        requires
            params.valid(),
            frame_size_ok(*params),
            0 <= writer.position() <= writer.contents().len(),
        ensures
            r.wf(),
            r.consistent(),
            r.pending() == Seq::<i16>::empty(),
            r.samples() == Seq::<i16>::empty(),
            r.parameters() == *params,
            r.start_pos() == writer.position(),
            r.sink() == writer,
    {
        assert(params.block_len * params.blocks_per_frame <= 65534) by (nonlinear_arith)
            requires
                1 + params.block_len * params.blocks_per_frame <= 65535,
        ;
        let frame_len = 1 + params.block_len * params.blocks_per_frame;
        let r = StreamEncoder {
            writer,
            params: *params,
            frame_len,
            bp: BitPacker::new(Vec::new()),
            started: false,
            filter_state: 0,
            block: Vec::new(),
            diffs: Vec::new(),
            block_count: 0,
            frame_samples: 0,
            consumed: Ghost(Seq::empty()),
            done: Ghost(0),
            start: Ghost(writer.position()),
        };
        assert(r.writer.contents().subrange(r.start@, r.writer.position()) =~= Seq::<u8>::empty());
        assert(r.consumed@.subrange(0, 0) =~= Seq::<i16>::empty());
        assert(r.frame_wav() =~= Seq::<i16>::empty());
        proof {
            r.lemma_consistent();
        }
        r
    }

    /// Encode the collected block (full, or the last one of the stream).
    #[verifier::rlimit(60)]
    fn encode_block(&mut self)
        requires
            old(self).collecting(),
            old(self).started,
            old(self).block@.len() >= 1,
        ensures
            final(self).all_coded(),
            final(self).consumed@ == old(self).consumed@,
            final(self).done@ == old(self).done@,
            final(self).start@ == old(self).start@,
            final(self).params == old(self).params,
            final(self).writer == old(self).writer,
            final(self).frame_len == old(self).frame_len,
            final(self).block_count == old(self).block_count + 1,
    {
        let ghost fw = self.frame_wav();
        let ghost bl = self.params.block_len as int;
        let ghost n1 = 1 + self.block_count * bl;
        let ghost h = value_bits(raw16(fw[0]) as usize, 16);
        let ghost e: Seq<bool> = Seq::empty();
        proof {
            assert((n1 - 1) % bl == 0) by (nonlinear_arith)
                requires
                    n1 == 1 + self.block_count * bl,
                    bl >= 1,
            ;
            lemma_blocks_extend(fw, n1, 1, self.params);
            assert(fw.subrange(n1, fw.len() as int) == self.block@);
            assert(deltas_in_range(self.diffs@)) by {
                assert forall|i: int| 0 <= i < self.diffs@.len() implies -65535 <= #[trigger] self.diffs@[i] <= 65535 by {
                    assert(self.diffs@[i] == diff_spec(fw)[n1 - 1 + i]);
                }
            }
            let b = block_bits(self.block@, self.diffs@, self.params);
            lemma_packed_concat(e, 0, h + blocks_bits(fw.subrange(0, n1), 1, self.params), b);
            assert(h + blocks_bits(fw.subrange(0, n1), 1, self.params) + b =~= h + blocks_bits(fw, 1, self.params));
        }
        proof {
            let bc = self.block_count as int;
            let bpf = self.params.blocks_per_frame as int;
            assert(fw.len() <= 1 + bl * bpf) by (nonlinear_arith)
                requires
                    fw.len() == 1 + bc * bl + self.block@.len(),
                    self.block@.len() <= bl,
                    bc < bpf,
                    bc >= 0,
            ;
        }
        let _ = x3_encode_block(self.block.as_slice(), self.diffs.as_slice(), &mut self.bp, &self.params);
        self.block_count += 1;
        self.block.clear();
        self.diffs.clear();
        assert(self.frame_wav() == fw);
        assert(frame_bits(fw, self.params) == h + blocks_bits(fw, 1, self.params));
    }

    /// Write the frame being built and start a new one.
    #[verifier::rlimit(60)]
    fn complete_frame(&mut self) -> (r: Result<(), X3Error>)
        requires
            old(self).all_coded(),
        ensures
            r is Ok ==> 0 <= final(self).start@ <= final(self).writer.position() <= final(self).writer.contents().len()
                && is_frames_of(
                final(self).writer.contents().subrange(final(self).start@, final(self).writer.position()),
                final(self).consumed@,
                final(self).params,
                final(self).frame_len as int,
            ),
            r is Ok && old(self).frame_wav().len() == old(self).frame_len ==> final(self).wf(),
            r is Ok ==> final(self).done@ == final(self).consumed@.len(),
            forall|k: nat|
                frame_fits(old(self).frame_wav(), old(self).params) && #[trigger] old(self).writer.accepts(
                    (FRAME_HEADER_LENGTH + payload_len_spec(old(self).frame_wav(), old(self).params) + k) as nat,
                ) ==> r is Ok && final(self).writer.accepts(k),
            !frame_fits(old(self).frame_wav(), old(self).params) ==> r == Err::<(), X3Error>(X3Error::FrameLength),
            r is Err ==> final(self).writer.contents() == old(self).writer.contents() && final(self).writer.position()
                == old(self).writer.position() && final(self).done@ == old(self).done@,
            final(self).consumed@ == old(self).consumed@,
            final(self).start@ == old(self).start@,
            final(self).params == old(self).params,
            final(self).frame_len == old(self).frame_len,
    {
        let ghost fw = self.frame_wav();
        let ghost pos0 = self.writer.position();
        let payload = finish_payload(&mut self.bp, Ghost(frame_bits(fw, self.params)));
        proof {
            assert(8 * payload@.len() == pad16(frame_bits(fw, self.params)).len());
            assert(payload@.len() == payload_len_spec(fw, self.params));
            assert(fw.len() <= 65535);
        }
        let frame = match frame_bytes(self.frame_samples, payload.as_slice(), &self.params) {
            Ok(v) => v,
            Err(e) => {
                return Err(e);
            },
        };
        proof {
            lemma_is_frame(frame@, payload@, fw, self.params);
            assert(frame@.len() == FRAME_HEADER_LENGTH + payload_len_spec(fw, self.params));
        }
        let ghost w0 = self.writer;
        match self.writer.write_all(frame.as_slice()) {
            Ok(()) => {},
            Err(e) => {
                assert forall|k: nat|
                    frame_fits(fw, self.params) && #[trigger] w0.accepts(
                        (FRAME_HEADER_LENGTH + payload_len_spec(fw, self.params) + k) as nat,
                    ) implies false by {
                    assert(w0.accepts(frame@.len() + k));
                }
                return Err(e);
            },
        }
        assert forall|k: nat|
            frame_fits(fw, self.params) && #[trigger] w0.accepts(
                (FRAME_HEADER_LENGTH + payload_len_spec(fw, self.params) + k) as nat,
            ) implies self.writer.accepts(k) by {
            assert(w0.accepts(frame@.len() + k));
        }
        proof {
            let c = self.writer.contents();
            let st = self.start@;
            let seg = c.subrange(st, self.writer.position());
            let n = pos0 - st;
            let all = self.consumed@;
            let done = self.done@;
            let size = self.frame_len as int;
            assert(seg.subrange(0, n) =~= old(self).writer.contents().subrange(st, pos0)) by {
                assert forall|j: int| 0 <= j < n implies #[trigger] seg.subrange(0, n)[j] == old(self).writer.contents().subrange(st, pos0)[j] by {
                    assert(c.subrange(0, pos0)[st + j] == old(self).writer.contents().subrange(0, pos0)[st + j]);
                }
            }
            assert(seg.subrange(n, seg.len() as int) =~= frame@);
            lemma_frames_push(seg, n, all, done, self.params, size);
            assert(all.subrange(0, all.len() as int) =~= all);
            if fw.len() == size {
                let al = all.len() as int;
                assert(al % size == 0) by (nonlinear_arith)
                    requires
                        al == done + size,
                        done % size == 0,
                        size >= 1,
                ;
            }
            self.done@ = all.len() as int;
        }
        self.bp = BitPacker::new(Vec::new());
        self.started = false;
        self.block_count = 0;
        self.frame_samples = 0;
        assert(self.frame_wav() =~= Seq::<i16>::empty());
        Ok(())
    }

    /// Take one more sample.
    #[verifier::rlimit(60)]
    fn push_sample(&mut self, x: i16) -> (r: Result<(), X3Error>)
        requires
            old(self).wf(),
        ensures
            r is Ok ==> final(self).wf(),
            old(self).frame_wav().len() + 1 < old(self).frame_len ==> r is Ok && final(self).writer == old(self).writer
                && final(self).frame_wav() == old(self).frame_wav().push(x) && final(self).done@ == old(self).done@,
            old(self).frame_wav().len() + 1 >= old(self).frame_len ==> (forall|k: nat|
                frame_fits(old(self).frame_wav().push(x), old(self).params) && #[trigger] old(self).writer.accepts(
                    (FRAME_HEADER_LENGTH + payload_len_spec(old(self).frame_wav().push(x), old(self).params) + k) as nat,
                ) ==> r is Ok && final(self).writer.accepts(k)),
            old(self).frame_wav().len() + 1 >= old(self).frame_len && r is Ok ==> final(self).done@ == final(self).consumed@.len(),
            r is Err ==> final(self).writer.contents() == old(self).writer.contents() && final(self).writer.position()
                == old(self).writer.position() && final(self).done@ == old(self).done@,
            final(self).frame_len == old(self).frame_len,
            final(self).consumed@ == old(self).consumed@.push(x),
            final(self).start@ == old(self).start@,
            final(self).params == old(self).params,
    {
        let ghost fw0 = self.frame_wav();
        assert(self.frame_samples < self.frame_len) by {
            if self.started {
                let bl = self.params.block_len as int;
                assert(fw0.len() < 1 + bl * self.params.blocks_per_frame) by (nonlinear_arith)
                    requires
                        fw0.len() == 1 + self.block_count * bl + self.block@.len(),
                        self.block@.len() < bl,
                        self.block_count < self.params.blocks_per_frame,
                ;
            }
        }
        self.frame_samples += 1;
        proof {
            let c = self.consumed@;
            self.consumed@ = c.push(x);
            assert(self.consumed@.subrange(0, self.done@) =~= c.subrange(0, self.done@));
            assert(self.frame_wav() =~= fw0.push(x));
        }
        if !self.started {
            let mut bp = BitPacker::new(Vec::new());
            let ghost e: Seq<bool> = Seq::empty();
            assert(bp.bits() =~= e);
            bp.write_bits(raw16_word(x), 16);
            self.bp = bp;
            self.started = true;
            self.filter_state = x;
            proof {
                let fw = self.frame_wav();
                let h = value_bits(raw16(fw[0]) as usize, 16);
                assert(blocks_bits(fw.subrange(0, 1), 1, self.params) == Seq::<bool>::empty());
                assert(h + Seq::<bool>::empty() =~= h);
                assert(self.block_count == 0);
                let bl = self.params.block_len as int;
                assert(0 * bl == 0) by (nonlinear_arith);
                assert(fw.subrange(1, 1) =~= self.block@);
                assert(diff_spec(fw).subrange(0, 0) =~= self.diffs@);
                assert(fw.len() == 1);
                assert(self.bp.bits() == packed(Seq::empty(), 0, h + blocks_bits(fw.subrange(0, 1), 1, self.params)));
                assert(self.collecting());
                self.lemma_consistent();
                assert(self.frame_wav() == fw0.push(x));
            }
            return Ok(());
        }
        let d = x as i32 - self.filter_state as i32;
        self.block.push(x);
        self.diffs.push(d);
        self.filter_state = x;
        proof {
            let fw = self.frame_wav();
            let bl = self.params.block_len as int;
            let n1 = 1 + self.block_count * bl;
            assert(fw.subrange(0, n1) =~= fw0.subrange(0, n1));
            assert(self.block@ =~= fw.subrange(n1, fw.len() as int));
            assert(self.diffs@ =~= diff_spec(fw).subrange(n1 - 1, fw.len() - 1)) by {
                assert forall|i: int| 0 <= i < self.diffs@.len() implies #[trigger] self.diffs@[i] == diff_spec(fw).subrange(n1 - 1, fw.len() - 1)[i] by {
                    if i < self.diffs@.len() - 1 {
                        assert(self.diffs@[i] == diff_spec(fw0).subrange(n1 - 1, fw0.len() - 1)[i]);
                    }
                }
            }
        }
        if self.block.len() == self.params.block_len {
            self.encode_block();
            if self.block_count == self.params.blocks_per_frame {
                proof {
                    let bl = self.params.block_len as int;
                    assert(self.frame_wav().len() == 1 + bl * self.params.blocks_per_frame) by (nonlinear_arith)
                        requires
                            self.frame_wav().len() == 1 + (self.block_count - 1) * bl + bl,
                            self.block_count == self.params.blocks_per_frame,
                    ;
                }
                return self.complete_frame();
            }
            proof {
                let fw = self.frame_wav();
                let bl = self.params.block_len as int;
                let n1 = 1 + self.block_count * bl;
                assert(fw.len() == n1) by (nonlinear_arith)
                    requires
                        fw.len() == 1 + (self.block_count - 1) * bl + bl,
                        n1 == 1 + self.block_count * bl,
                ;
                assert(fw.subrange(0, n1) =~= fw);
                assert(fw.subrange(n1, fw.len() as int) =~= self.block@);
                assert(diff_spec(fw).subrange(n1 - 1, fw.len() - 1) =~= self.diffs@);
            }
        }
        proof {
            self.lemma_consistent();
        }
        Ok(())
    }

    /// Take more samples; blocks are encoded as they fill and frames written
    /// as they complete. It succeeds when every frame it completes fits its
    /// header and the sink has room for them all; in particular while no
    /// frame completes, when nothing is written. On an error the sink still
    /// holds whole frames of the samples written so far.
    #[verifier::rlimit(100)]
    #[verifier::spinoff_prover]
    pub fn process_interleaved(&mut self, samples: &[i16]) -> (r: Result<(), X3Error>)
        requires
            old(self).wf(),
        ensures
            r is Ok ==> final(self).wf() && final(self).consistent() && final(self).samples() == old(self).samples() + samples@,
            old(self).pending().len() + samples@.len() < stream_frame_samples(old(self).parameters()) ==> r is Ok
                && final(self).sink() == old(self).sink() && final(self).pending() == old(self).pending() + samples@,
            ({
                let size = stream_frame_samples(old(self).parameters());
                let w = old(self).pending() + samples@;
                let c = w.subrange(0, (w.len() as int / size) * size);
                frames_fit(c, old(self).parameters(), size) && old(self).sink().accepts(frames_len(c, old(self).parameters(), size) as nat)
                    ==> r is Ok
            }),
            r is Err ==> 0 <= final(self).start_pos() <= final(self).sink().position() <= final(self).sink().contents().len()
                && is_frames_of(
                final(self).sink().contents().subrange(final(self).start_pos(), final(self).sink().position()),
                final(self).written(),
                final(self).parameters(),
                stream_frame_samples(final(self).parameters()),
            ) && final(self).written() == (old(self).samples() + samples@).subrange(0, final(self).written().len() as int),
            final(self).parameters() == old(self).parameters(),
            final(self).start_pos() == old(self).start_pos(),
    {
        let ghost size = self.frame_len as int;
        let ghost m = self.frame_wav().len() as int;
        let ghost w = old(self).frame_wav() + samples@;
        let ghost cf = (w.len() as int / size) * size;
        let ghost pp = self.params;
        let ghost big_p = frames_fit(w.subrange(0, cf), pp, size) && old(self).writer.accepts(frames_len(w.subrange(0, cf), pp, size) as nat);
        let ghost mut c: int = 0;
        proof {
            self.lemma_consistent();
            assert(size >= 1);
            assert(w.subrange(0, 0) =~= Seq::<i16>::empty());
            assert(frames_len(Seq::<i16>::empty(), pp, size) == 0);
            assert(w.subrange(0, m) =~= old(self).frame_wav());
            vstd::arithmetic::div_mod::lemma_fundamental_div_mod(w.len() as int, size);
            let nn = w.len() as int;
            let qq = nn / size;
            assert(0 <= nn % size);
            assert(qq >= 0) by (nonlinear_arith)
                requires
                    nn >= 0,
                    size >= 1,
                    qq == nn / size,
            ;
            assert(cf == qq * size);
            assert(0 <= qq * size) by (nonlinear_arith)
                requires
                    qq >= 0,
                    size >= 1,
            ;
            assert(size * qq == qq * size) by (nonlinear_arith);
        }
        let mut i: usize = 0;
        assert(old(self).frame_wav() + samples@.subrange(0, 0) =~= old(self).frame_wav());
        while i < samples.len()
            invariant
                self.wf(),
                i <= samples@.len(),
                self.consumed@ == old(self).consumed@ + samples@.subrange(0, i as int),
                self.params == old(self).params,
                pp == self.params,
                self.frame_len == old(self).frame_len,
                size == self.frame_len,
                size >= 1,
                self.start@ == old(self).start@,
                w == old(self).frame_wav() + samples@,
                m == old(self).frame_wav().len(),
                cf == (w.len() as int / size) * size,
                0 <= cf <= w.len(),
                old(self).frame_wav().len() + samples@.len() < old(self).frame_len ==> self.writer == old(self).writer
                    && self.frame_wav() == old(self).frame_wav() + samples@.subrange(0, i as int) && self.done@ == old(self).done@,
                c % size == 0,
                0 <= c <= m + i,
                self.frame_wav() == w.subrange(c, m + i),
                big_p == (frames_fit(w.subrange(0, cf), pp, size) && old(self).writer.accepts(frames_len(w.subrange(0, cf), pp, size) as nat)),
                big_p ==> forall|k: nat| #[trigger] old(self).writer.accepts((frames_len(w.subrange(0, c), pp, size) + k) as nat) ==> self.writer.accepts(k),
            decreases samples@.len() - i,
        {
            let ghost fw = self.frame_wav();
            let ghost before = *self;
            let ghost x = samples@[i as int];
            proof {
                assert(fw.push(x) =~= w.subrange(c, m + i + 1));
                self.lemma_consistent();
            }
            match self.push_sample(samples[i]) {
                Ok(()) => {},
                Err(e) => {
                    proof {
                        if big_p && fw.len() + 1 >= size {
                            assert(fw.push(x) =~= w.subrange(c, c + size));
                            lemma_room_suffices(old(self).writer, before.writer, false, w, c, cf, size, pp);
                        }
                        assert(self.consumed@ =~= (old(self).samples() + samples@).subrange(0, old(self).consumed@.len() + i + 1));
                        assert(self.consumed@.subrange(0, self.done@) =~= before.consumed@.subrange(0, before.done@));
                        assert(self.written() =~= (old(self).samples() + samples@).subrange(0, self.written().len() as int));
                        assert(self.sink().contents().subrange(self.start_pos(), self.sink().position())
                            == before.sink().contents().subrange(before.start_pos(), before.sink().position()));
                    }
                    return Err(e);
                },
            }
            proof {
                if fw.len() + 1 >= size {
                    assert(fw.push(x) =~= w.subrange(c, c + size));
                    if big_p {
                        lemma_room_suffices(old(self).writer, before.writer, true, w, c, cf, size, pp);
                        lemma_room_carries(old(self).writer, before.writer, self.writer, w, c, size, pp);
                    }
                    c = c + size;
                    assert(c % size == 0) by {
                        vstd::arithmetic::div_mod::lemma_mod_add_multiples_vanish(c - size, size);
                    }
                    assert(self.frame_wav() =~= w.subrange(c, m + i + 1));
                } else {
                    assert(self.frame_wav() =~= w.subrange(c, m + i + 1));
                }
            }
            assert(old(self).consumed@ + samples@.subrange(0, i + 1) =~= self.consumed@);
            assert(old(self).frame_wav().len() + samples@.len() < old(self).frame_len ==> fw.push(samples@[i as int]) =~= old(self).frame_wav() + samples@.subrange(0, i + 1));
            i += 1;
        }
        assert(samples@.subrange(0, samples@.len() as int) =~= samples@);
        proof {
            self.lemma_consistent();
        }
        Ok(())
    }

    /// Encode what is left as a last, shorter frame and hand back the sink.
    #[verifier::rlimit(60)]
    pub fn close(self) -> (r: Result<W, X3Error>)
        requires
            self.wf(),
        ensures
            self.pending().len() == 0 ==> (r matches Ok(w) && w == self.sink()),
            frame_fits(self.pending(), self.parameters()) && self.sink().accepts(
                (FRAME_HEADER_LENGTH + payload_len_spec(self.pending(), self.parameters())) as nat,
            ) ==> r is Ok,
            self.pending().len() > 0 && !frame_fits(self.pending(), self.parameters()) ==> r == Err::<W, X3Error>(X3Error::FrameLength),
            r matches Ok(w) ==> self.start_pos() <= w.position() <= w.contents().len() && is_frames_of(
                w.contents().subrange(self.start_pos(), w.position()),
                self.samples(),
                self.parameters(),
                stream_frame_samples(self.parameters()),
            ),
    {
        let mut this = self;
        if this.started {
            if this.block.len() > 0 {
                this.encode_block();
            } else {
                proof {
                    let fw = this.frame_wav();
                    let bl = this.params.block_len as int;
                    let bc = this.block_count as int;
                    let n1 = 1 + bc * bl;
                    assert(fw.subrange(0, n1) =~= fw);
                    assert(n1 <= 1 + bl * this.params.blocks_per_frame) by (nonlinear_arith)
                        requires
                            n1 == 1 + bc * bl,
                            bc < this.params.blocks_per_frame,
                            bc >= 0,
                            bl >= 1,
                    ;
                    assert(this.all_coded());
                }
            }
            let ghost w0 = this.writer;
            let ghost fw = this.frame_wav();
            assert(((FRAME_HEADER_LENGTH + payload_len_spec(fw, this.params) + 0nat) as nat) == ((FRAME_HEADER_LENGTH + payload_len_spec(fw, this.params)) as nat));
            match this.complete_frame() {
                Ok(()) => {},
                Err(e) => {
                    assert(!(frame_fits(fw, this.params) && w0.accepts(((FRAME_HEADER_LENGTH + payload_len_spec(fw, this.params) + 0nat) as nat))));
                    return Err(e);
                },
            }
        }
        assert(this.consumed@.subrange(0, this.consumed@.len() as int) =~= this.consumed@);
        Ok(this.writer)
    }
}

/// How the samples are handed over in pieces does not show: two stream
/// encoders with the same parameters that were given the same samples have
/// written the same frames and hold the same unwritten samples.
pub proof fn lemma_split_invariance<W1: ByteWriter, W2: ByteWriter>(e1: &StreamEncoder<W1>, e2: &StreamEncoder<W2>)
    requires
        e1.consistent(),
        e2.consistent(),
        e1.samples() == e2.samples(),
        e1.parameters() == e2.parameters(),
    ensures
        e1.written() == e2.written(),
        e1.pending() == e2.pending(),
        e1.sink().contents().subrange(e1.start_pos(), e1.sink().position()) == e2.sink().contents().subrange(
            e2.start_pos(),
            e2.sink().position(),
        ),
{
    let p = e1.parameters();
    let size = stream_frame_samples(p);
    let n = e1.samples().len() as int;
    let a = e1.written().len() as int;
    let b = e2.written().len() as int;
    assert(size >= 1) by (nonlinear_arith)
        requires
            size == 1 + p.block_len * p.blocks_per_frame,
            p.block_len >= 1,
            p.blocks_per_frame >= 1,
    ;
    assert(a == b) by (nonlinear_arith)
        requires
            a % size == 0,
            b % size == 0,
            0 <= n - a < size,
            0 <= n - b < size,
            a >= 0,
            b >= 0,
            size >= 1,
    ;
    assert(e1.written() =~= e1.samples().subrange(0, a));
    assert(e2.written() =~= e2.samples().subrange(0, b));
    assert(e1.pending() =~= e1.samples().subrange(a, n));
    assert(e2.pending() =~= e2.samples().subrange(b, n));
    lemma_frames_unique(
        e1.sink().contents().subrange(e1.start_pos(), e1.sink().position()),
        e2.sink().contents().subrange(e2.start_pos(), e2.sink().position()),
        e1.written(),
        p,
        size,
    );
}

} // verus!
