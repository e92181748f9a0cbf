//! The `.x3a` archive header: the magic `X3ARCHIV` and a pseudo-frame whose
//! payload is XML describing the codec parameters.

use vstd::prelude::*;
use vstd::string::StringSliceAdditionalSpecFns;
use crate::crc::{crc16, crc16_of, crc_byte, update_crc16};
use crate::error::X3Error;
use crate::x3::{Archive, Parameters, FrameHeader, archive_id_spec, frame_header_bytes, frame_header_spec, rice_code_spec, DEFAULT_BLOCKS_PER_FRAME, MAX_BLOCK_LENGTH, ARCHIVE_ID_LEN, FRAME_HEADER_LENGTH};
use crate::decoder::{read_frame_header, read_frame_header_spec};

verus! {

/// The decimal digits of `n`, most significant first, no leading zeros.
pub open spec fn dec_digits(n: nat) -> Seq<u8>
    decreases n,
{
    if n < 10 {
        seq![(48 + n) as u8]
    } else {
        dec_digits(n / 10).push((48 + n % 10) as u8)
    }
}

/// Relies on `itoa::Buffer::format`: the decimal representation of `n`.
#[verifier::external_body]
fn decimal(n: u64) -> (r: Vec<u8>)
    ensures
        r@ == dec_digits(n as nat),
{
    itoa::Buffer::new().format(n).as_bytes().to_vec()
}

fn push_str(out: &mut Vec<u8>, s: &str)
    ensures
        final(out)@ == old(out)@ + s.spec_bytes(),
{
    let b = s.as_bytes();
    let mut i: usize = 0;
    while i < b.len()
        invariant
            i <= b@.len(),
            b@ == s.spec_bytes(),
            out@ == old(out)@ + b@.subrange(0, i as int),
        decreases b@.len() - i,
    {
        out.push(b[i]);
        assert(out@ =~= old(out)@ + b@.subrange(0, i + 1));
        i += 1;
    }
    assert(b@.subrange(0, b@.len() as int) =~= b@);
}

fn push_dec(out: &mut Vec<u8>, n: u64)
    ensures
        final(out)@ == old(out)@ + dec_digits(n as nat),
{
    let d = decimal(n);
    let mut i: usize = 0;
    while i < d.len()
        invariant
            i <= d@.len(),
            d@ == dec_digits(n as nat),
            out@ == old(out)@ + d@.subrange(0, i as int),
        decreases d@.len() - i,
    {
        out.push(d[i]);
        assert(out@ =~= old(out)@ + d@.subrange(0, i + 1));
        i += 1;
    }
    assert(d@.subrange(0, d@.len() as int) =~= d@);
}

/// The XML metadata of an archive with sample rate `sample_rate`.
pub open spec fn archive_xml_spec(sample_rate: u32, p: Parameters) -> Seq<u8> {
    "<X3ARCH PROG=\"x3new.m\" VERSION=\"2.0\" /><CFG ID=\"0\" FTYPE=\"XML\" /><CFG ID=\"1\" FTYPE=\"WAV\"><FS UNIT=\"Hz\">".spec_bytes()
        + dec_digits(sample_rate as nat)
        + "</FS><SUFFIX>wav</SUFFIX><CODEC TYPE=\"X3\" VERS=\"2\"><BLKLEN>".spec_bytes()
        + dec_digits(p.block_len as nat)
        + "</BLKLEN><CODES N=\"4\">RICE".spec_bytes()
        + dec_digits(p.codes[0] as nat)
        + ",RICE".spec_bytes()
        + dec_digits(p.codes[1] as nat)
        + ",RICE".spec_bytes()
        + dec_digits(p.codes[2] as nat)
        + ",BFP</CODES><FILTER>DIFF</FILTER><NBITS>16</NBITS><T N=\"3\">".spec_bytes()
        + dec_digits(p.thresholds[0] as nat)
        + ",".spec_bytes()
        + dec_digits(p.thresholds[1] as nat)
        + ",".spec_bytes()
        + dec_digits(p.thresholds[2] as nat)
        + "</T></CODEC></CFG>".spec_bytes()
}

/// `x` with one zero byte added when its length is odd.
pub open spec fn pad_even(x: Seq<u8>) -> Seq<u8> {
    if x.len() % 2 == 1 {
        x.push(0u8)
    } else {
        x
    }
}

/// The archive header: magic, pseudo-frame header (no samples, no
/// channels) and the XML padded to an even length.
pub open spec fn archive_header_spec(sample_rate: u32, p: Parameters) -> Seq<u8> {
    let payload = pad_even(archive_xml_spec(sample_rate, p));
    archive_id_spec() + frame_header_spec(0, 0, 0, payload.len() as u16, crc16_of(payload)) + payload
}

/// The XML metadata bytes.
pub fn archive_xml(sample_rate: u32, params: &Parameters) -> (r: Vec<u8>)
    ensures
        r@ == archive_xml_spec(sample_rate, *params),
{
    let mut x: Vec<u8> = Vec::new();
    push_str(&mut x, "<X3ARCH PROG=\"x3new.m\" VERSION=\"2.0\" /><CFG ID=\"0\" FTYPE=\"XML\" /><CFG ID=\"1\" FTYPE=\"WAV\"><FS UNIT=\"Hz\">");
    push_dec(&mut x, sample_rate as u64);
    push_str(&mut x, "</FS><SUFFIX>wav</SUFFIX><CODEC TYPE=\"X3\" VERS=\"2\"><BLKLEN>");
    push_dec(&mut x, params.block_len as u64);
    push_str(&mut x, "</BLKLEN><CODES N=\"4\">RICE");
    push_dec(&mut x, params.codes[0] as u64);
    push_str(&mut x, ",RICE");
    push_dec(&mut x, params.codes[1] as u64);
    push_str(&mut x, ",RICE");
    push_dec(&mut x, params.codes[2] as u64);
    push_str(&mut x, ",BFP</CODES><FILTER>DIFF</FILTER><NBITS>16</NBITS><T N=\"3\">");
    push_dec(&mut x, params.thresholds[0] as u64);
    push_str(&mut x, ",");
    push_dec(&mut x, params.thresholds[1] as u64);
    push_str(&mut x, ",");
    push_dec(&mut x, params.thresholds[2] as u64);
    push_str(&mut x, "</T></CODEC></CFG>");
    x
}

/// The bytes that start an archive: the magic, then the XML pseudo-frame.
/// XML longer than a frame header can describe is refused.
#[verifier::rlimit(60)]
pub fn create_archive_header(sample_rate: u32, params: &Parameters) -> (r: Result<Vec<u8>, X3Error>)
    ensures
        pad_even(archive_xml_spec(sample_rate, *params)).len() <= u16::MAX ==> (r matches Ok(v) && v@ == archive_header_spec(sample_rate, *params)),
        pad_even(archive_xml_spec(sample_rate, *params)).len() > u16::MAX ==> r == Err::<Vec<u8>, X3Error>(X3Error::FrameLength),
{
    let mut payload = archive_xml(sample_rate, params);
    let mut payload_crc = crc16(payload.as_slice());
    if payload.len() % 2 == 1 {
        let ghost x = payload@;
        payload.push(0u8);
        payload_crc = update_crc16(payload_crc, &0u8);
        proof {
            assert(payload@.drop_last() =~= x);
        }
    }
    if payload.len() > 65535 {
        return Err(X3Error::FrameLength);
    }
    let id = Archive::id();
    let mut out: Vec<u8> = Vec::new();
    let mut i: usize = 0;
    while i < 8
        invariant
            i <= 8,
            id@ == archive_id_spec(),
            out@ == id@.subrange(0, i as int),
        decreases 8 - i,
    {
        out.push(id[i]);
        assert(out@ =~= id@.subrange(0, i + 1));
        i += 1;
    }
    assert(id@.subrange(0, 8) =~= id@);
    let header = frame_header_bytes(0, 0, 0, payload.len() as u16, payload_crc);
    let ghost o1 = out@;
    out.extend_from_slice(header.as_slice());
    let ghost o2 = out@;
    out.extend_from_slice(payload.as_slice());
    assert(out@ =~= archive_id_spec() + header@ + payload@);
    Ok(out)
}

/// The comma-separated fields of `s` (one empty field for an empty `s`).
pub open spec fn fields(s: Seq<u8>) -> Seq<Seq<u8>>
    decreases s.len(),
{
    if s.len() == 0 {
        seq![Seq::empty()]
    } else {
        let f = fields(s.drop_last());
        if s.last() == 44 {
            f.push(Seq::empty())
        } else {
            f.update(f.len() - 1, f.last().push(s.last()))
        }
    }
}

proof fn lemma_fields_nonempty(s: Seq<u8>)
    ensures
        fields(s).len() >= 1,
    decreases s.len(),
{
    if s.len() > 0 {
        lemma_fields_nonempty(s.drop_last());
    }
}

/// Split `s` at its commas.
pub fn split_fields(s: &[u8]) -> (r: Vec<Vec<u8>>)
    ensures
        r@.len() == fields(s@).len(),
        forall|i: int| 0 <= i < r@.len() ==> #[trigger] r@[i]@ == fields(s@)[i],
{
    let mut done: Vec<Vec<u8>> = Vec::new();
    let mut cur: Vec<u8> = Vec::new();
    let mut i: usize = 0;
    while i < s.len()
        invariant
            i <= s@.len(),
            done@.len() + 1 == fields(s@.subrange(0, i as int)).len(),
            forall|j: int| 0 <= j < done@.len() ==> #[trigger] done@[j]@ == fields(s@.subrange(0, i as int))[j],
            cur@ == fields(s@.subrange(0, i as int)).last(),
        decreases s@.len() - i,
    {
        proof {
            lemma_fields_nonempty(s@.subrange(0, i as int));
            assert(s@.subrange(0, i + 1).drop_last() =~= s@.subrange(0, i as int));
        }
        if s[i] == 44 {
            let c = cur;
            done.push(c);
            cur = Vec::new();
            assert(cur@ =~= Seq::<u8>::empty());
        } else {
            cur.push(s[i]);
        }
        i += 1;
    }
    proof {
        assert(s@.subrange(0, s@.len() as int) =~= s@);
        lemma_fields_nonempty(s@);
    }
    done.push(cur);
    done
}

/// `s` is a non-empty string of decimal digits.
pub open spec fn is_decimal(s: Seq<u8>) -> bool {
    s.len() > 0 && forall|i: int| 0 <= i < s.len() ==> 48 <= #[trigger] s[i] <= 57
}

/// The number that the digits of `s` spell.
pub open spec fn dec_value(s: Seq<u8>) -> nat
    decreases s.len(),
{
    if s.len() == 0 {
        0
    } else {
        dec_value(s.drop_last()) * 10 + (s.last() - 48) as nat
    }
}

/// `s` read as a decimal number that fits in a `usize`.
pub open spec fn decimal_of(s: Seq<u8>) -> Option<usize> {
    if is_decimal(s) && dec_value(s) <= usize::MAX {
        Some(dec_value(s) as usize)
    } else {
        None
    }
}

proof fn lemma_dec_value_grows(s: Seq<u8>, t: Seq<u8>)
    requires
        is_decimal(s + t),
    ensures
        dec_value(s + t) >= dec_value(s),
    decreases t.len(),
{
    if t.len() > 0 {
        assert((s + t).drop_last() =~= s + t.drop_last());
        if t.len() > 1 {
            lemma_dec_value_grows(s, t.drop_last());
        } else {
            assert(s + t.drop_last() =~= s);
        }
    } else {
        assert(s + t =~= s);
    }
}

/// Parse a decimal number that fits in a `usize`.
pub fn parse_decimal(s: &[u8]) -> (r: Option<usize>)
    ensures
        r == decimal_of(s@),
{
    if s.len() == 0 {
        return None;
    }
    let mut v: usize = 0;
    let mut i: usize = 0;
    while i < s.len()
        invariant
            i <= s@.len(),
            s@.len() > 0,
            is_decimal(s@.subrange(0, i as int)) || i == 0,
            v as nat == dec_value(s@.subrange(0, i as int)),
        decreases s@.len() - i,
    {
        assert(s@.subrange(0, i + 1).drop_last() =~= s@.subrange(0, i as int));
        if s[i] < 48 || s[i] > 57 {
            assert(!is_decimal(s@));
            return None;
        }
        let d = (s[i] - 48) as usize;
        if v > (usize::MAX - d) / 10 {
            proof {
                assert(v * 10 + d > usize::MAX) by (nonlinear_arith)
                    requires
                        v > (usize::MAX - d) / 10,
                        d <= 9,
                ;
                if is_decimal(s@) {
                    assert(s@ =~= s@.subrange(0, i + 1) + s@.subrange(i + 1, s@.len() as int));
                    lemma_dec_value_grows(s@.subrange(0, i + 1), s@.subrange(i + 1, s@.len() as int));
                }
            }
            return None;
        }
        assert(v * 10 + d <= usize::MAX) by (nonlinear_arith)
            requires
                v <= (usize::MAX - d) / 10,
                d <= 9,
        ;
        v = v * 10 + d;
        i += 1;
    }
    assert(s@.subrange(0, s@.len() as int) =~= s@);
    Some(v)
}

/// The Rice family that a token of the `CODES` list names: `k` for `RICEk`
/// (k from 0 to 3); any other token (`BFP` among them) names none and is
/// ignored.
pub open spec fn code_token(t: Seq<u8>) -> Option<usize> {
    if t.len() == 5 && t.subrange(0, 4) == seq![82u8, 73, 67, 69] && 48 <= t[4] <= 51 {
        Some((t[4] - 48) as usize)
    } else {
        None
    }
}

fn classify_code(t: &[u8]) -> (r: Option<usize>)
    ensures
        r == code_token(t@),
{
    if t.len() == 5 && t[0] == 82 && t[1] == 73 && t[2] == 67 && t[3] == 69 && t[4] >= 48 && t[4] <= 51 {
        assert(t@.subrange(0, 4) =~= seq![82u8, 73, 67, 69]);
        return Some((t[4] - 48) as usize);
    }
    assert(t@.len() == 5 && 48 <= t@[4] <= 51 ==> t@.subrange(0, 4) != seq![82u8, 73, 67, 69]) by {
        if t@.len() == 5 && 48 <= t@[4] <= 51 && t@.subrange(0, 4) == seq![82u8, 73, 67, 69] {
            assert(t@.subrange(0, 4)[0] == t@[0]);
            assert(t@.subrange(0, 4)[1] == t@[1]);
            assert(t@.subrange(0, 4)[2] == t@[2]);
            assert(t@.subrange(0, 4)[3] == t@[3]);
        }
    }
    None
}

/// The Rice family ids that the `CODES` tokens name, in order.
pub open spec fn code_ids(toks: Seq<Seq<u8>>) -> Seq<usize>
    decreases toks.len(),
{
    if toks.len() == 0 {
        Seq::empty()
    } else {
        match code_token(toks.last()) {
            None => code_ids(toks.drop_last()),
            Some(k) => code_ids(toks.drop_last()).push(k),
        }
    }
}

/// The threshold values of the `T` tokens, or `ArchiveHeaderXMLInvalid`
/// for one that is not a number.
pub open spec fn threshold_values(toks: Seq<Seq<u8>>) -> Result<Seq<usize>, X3Error>
    decreases toks.len(),
{
    if toks.len() == 0 {
        Ok(Seq::empty())
    } else {
        match threshold_values(toks.drop_last()) {
            Err(e) => Err(e),
            Ok(v) => match decimal_of(toks.last()) {
                None => Err(X3Error::ArchiveHeaderXMLInvalid),
                Some(x) => Ok(v.push(x)),
            },
        }
    }
}

/// The sample rate and parameters that the texts of the `FS`, `BLKLEN`,
/// `CODES` and `T` elements describe: numbers must be decimal (the rate
/// within 32 bits), the block length from 1 to 60, at least three Rice
/// codes and three thresholds given (the first three are used; other
/// `CODES` tokens are ignored); frames get the default number of blocks.
pub open spec fn archive_fields_spec(fs: Seq<u8>, blklen: Seq<u8>, codes: Seq<u8>, t: Seq<u8>) -> Result<(u32, [usize; 3], [usize; 3], usize), X3Error> {
    let ids = code_ids(fields(codes));
    match (decimal_of(fs), decimal_of(blklen), threshold_values(fields(t))) {
        (Some(rate), Some(bl), Ok(th)) => {
            if rate > u32::MAX || bl < 1 || bl > MAX_BLOCK_LENGTH {
                Err(X3Error::ArchiveHeaderXMLInvalid)
            } else if ids.len() < 3 {
                Err(X3Error::ArchiveHeaderXMLRiceCode)
            } else if th.len() < 3 {
                Err(X3Error::ArchiveHeaderXMLInvalid)
            } else {
                Ok((rate as u32, [ids[0], ids[1], ids[2]], [th[0], th[1], th[2]], bl))
            }
        },
        (None, _, _) => Err(X3Error::ArchiveHeaderXMLInvalid),
        (_, None, _) => Err(X3Error::ArchiveHeaderXMLInvalid),
        (_, _, Err(e)) => Err(e),
    }
}

fn parse_code_ids(codes: &[u8]) -> (r: Vec<usize>)
    ensures
        r@ == code_ids(fields(codes@)),
{
    let toks = split_fields(codes);
    let mut ids: Vec<usize> = Vec::new();
    let mut i: usize = 0;
    let ghost tv = fields(codes@);
    while i < toks.len()
        invariant
            i <= toks@.len(),
            tv == fields(codes@),
            toks@.len() == tv.len(),
            forall|j: int| 0 <= j < toks@.len() ==> #[trigger] toks@[j]@ == tv[j],
            code_ids(tv.subrange(0, i as int)) == ids@,
        decreases toks@.len() - i,
    {
        assert(tv.subrange(0, i + 1).drop_last() =~= tv.subrange(0, i as int));
        assert(tv.subrange(0, i + 1).last() == toks@[i as int]@);
        match classify_code(toks[i].as_slice()) {
            None => {},
            Some(k) => {
                ids.push(k);
            },
        }
        i += 1;
    }
    assert(tv.subrange(0, tv.len() as int) =~= tv);
    ids
}

proof fn lemma_thresholds_err_extends(tv: Seq<Seq<u8>>, i: int)
    requires
        0 <= i <= tv.len(),
        threshold_values(tv.subrange(0, i)) is Err,
    ensures
        threshold_values(tv) == threshold_values(tv.subrange(0, i)),
    decreases tv.len() - i,
{
    if i < tv.len() {
        assert(tv.subrange(0, i + 1).drop_last() =~= tv.subrange(0, i));
        lemma_thresholds_err_extends(tv, i + 1);
    } else {
        assert(tv.subrange(0, i) =~= tv);
    }
}

fn parse_thresholds(t: &[u8]) -> (r: Result<Vec<usize>, X3Error>)
    ensures
        match threshold_values(fields(t@)) {
            Ok(v) => r matches Ok(x) && x@ == v,
            Err(e) => r == Err::<Vec<usize>, X3Error>(e),
        },
{
    let toks = split_fields(t);
    let mut vals: Vec<usize> = Vec::new();
    let mut i: usize = 0;
    let ghost tv = fields(t@);
    while i < toks.len()
        invariant
            i <= toks@.len(),
            tv == fields(t@),
            toks@.len() == tv.len(),
            forall|j: int| 0 <= j < toks@.len() ==> #[trigger] toks@[j]@ == tv[j],
            threshold_values(tv.subrange(0, i as int)) == Ok::<Seq<usize>, X3Error>(vals@),
        decreases toks@.len() - i,
    {
        assert(tv.subrange(0, i + 1).drop_last() =~= tv.subrange(0, i as int));
        assert(tv.subrange(0, i + 1).last() == toks@[i as int]@);
        match parse_decimal(toks[i].as_slice()) {
            None => {
                proof {
                    lemma_thresholds_err_extends(tv, i as int + 1);
                }
                return Err(X3Error::ArchiveHeaderXMLInvalid);
            },
            Some(x) => {
                vals.push(x);
            },
        }
        i += 1;
    }
    assert(tv.subrange(0, tv.len() as int) =~= tv);
    Ok(vals)
}

/// Build the sample rate and parameters from the texts of the `FS`,
/// `BLKLEN`, `CODES` and `T` elements of the archive XML.
#[verifier::rlimit(60)]
pub fn parse_archive_fields(fs: &[u8], blklen: &[u8], codes: &[u8], t: &[u8]) -> (r: Result<(u32, Parameters), X3Error>)
    ensures
        match archive_fields_spec(fs@, blklen@, codes@, t@) {
            Err(e) => r == Err::<(u32, Parameters), X3Error>(e),
            Ok((rate, c, th, bl)) => {
                if th[0] <= rice_code_spec(c[0] as nat).offset && th[1] <= rice_code_spec(c[1] as nat).offset {
                    r matches Ok((rate2, p)) && rate2 == rate && p.valid() && p.codes == c && p.thresholds == th && p.block_len == bl && p.blocks_per_frame == DEFAULT_BLOCKS_PER_FRAME
                } else {
                    r == Err::<(u32, Parameters), X3Error>(X3Error::InvalidEncodingThresh)
                }
            },
        },
{
    let rate = parse_decimal(fs);
    let bl = parse_decimal(blklen);
    let ids = parse_code_ids(codes);
    let th = parse_thresholds(t);
    let rate = match rate {
        Some(v) => v,
        None => {
            return Err(X3Error::ArchiveHeaderXMLInvalid);
        },
    };
    let bl = match bl {
        Some(v) => v,
        None => {
            return Err(X3Error::ArchiveHeaderXMLInvalid);
        },
    };
    let th = match th {
        Ok(v) => v,
        Err(e) => {
            return Err(e);
        },
    };
    if rate > 0xFFFF_FFFF || bl < 1 || bl > MAX_BLOCK_LENGTH {
        return Err(X3Error::ArchiveHeaderXMLInvalid);
    }
    if ids.len() < 3 {
        return Err(X3Error::ArchiveHeaderXMLRiceCode);
    }
    if th.len() < 3 {
        return Err(X3Error::ArchiveHeaderXMLInvalid);
    }
    proof {
        lemma_code_ids_small(fields(codes@));
    }
    let c: [usize; 3] = [ids[0], ids[1], ids[2]];
    let tt: [usize; 3] = [th[0], th[1], th[2]];
    match Parameters::new(bl, DEFAULT_BLOCKS_PER_FRAME, c, tt) {
        Ok(p) => Ok((rate as u32, p)),
        Err(e) => Err(e),
    }
}

proof fn lemma_code_ids_small(toks: Seq<Seq<u8>>)
    ensures
        forall|i: int| 0 <= i < code_ids(toks).len() ==> #[trigger] code_ids(toks)[i] < 4,
    decreases toks.len(),
{
    if toks.len() > 0 {
        lemma_code_ids_small(toks.drop_last());
        let prev = code_ids(toks.drop_last());
        match code_token(toks.last()) {
            None => {},
            Some(k) => {
                assert(k < 4);
                assert forall|i: int| 0 <= i < prev.push(k).len() implies #[trigger] prev.push(k)[i] < 4 by {
                    if i < prev.len() {
                        assert(prev.push(k)[i] == prev[i]);
                    }
                }
            },
        }
    }
}

/// What an archive starts with: the magic, then the header of the XML
/// pseudo-frame and its payload, whose CRC must match. On success: the
/// header, the XML and the number of bytes taken.
pub open spec fn archive_header_read_spec(b: Seq<u8>) -> Result<(FrameHeader, Seq<u8>, int), X3Error> {
    if b.len() < ARCHIVE_ID_LEN || b.subrange(0, ARCHIVE_ID_LEN as int) != archive_id_spec() {
        Err(X3Error::ArchiveHeaderXMLInvalidKey)
    } else {
        match read_frame_header_spec(b.subrange(ARCHIVE_ID_LEN as int, b.len() as int)) {
            Err(e) => Err(e),
            Ok(h) => {
                let end = ARCHIVE_ID_LEN + FRAME_HEADER_LENGTH + h.payload_len;
                if end > b.len() {
                    Err(X3Error::FrameHeaderInvalidPayloadLen)
                } else if crc16_of(b.subrange(ARCHIVE_ID_LEN + FRAME_HEADER_LENGTH, end)) != h.payload_crc {
                    Err(X3Error::FrameHeaderInvalidPayloadCRC)
                } else {
                    Ok((h, b.subrange(ARCHIVE_ID_LEN + FRAME_HEADER_LENGTH, end), end))
                }
            },
        }
    }
}

/// Check the magic and the XML pseudo-frame at the start of an archive.
#[verifier::rlimit(60)]
pub fn read_archive_header(bytes: &[u8]) -> (r: Result<(FrameHeader, Vec<u8>, usize), X3Error>)
    ensures
        match archive_header_read_spec(bytes@) {
            Err(e) => r == Err::<(FrameHeader, Vec<u8>, usize), X3Error>(e),
            Ok((h, x, n)) => r matches Ok((h2, x2, n2)) && h2 == h && x2@ == x && n2 == n,
        },
{
    let len = bytes.len();
    if len < ARCHIVE_ID_LEN {
        return Err(X3Error::ArchiveHeaderXMLInvalidKey);
    }
    let id = Archive::id();
    let mut i: usize = 0;
    while i < ARCHIVE_ID_LEN
        invariant
            i <= ARCHIVE_ID_LEN,
            bytes@.len() >= ARCHIVE_ID_LEN,
            id@ == archive_id_spec(),
            forall|j: int| 0 <= j < i ==> bytes@[j] == id@[j],
        decreases ARCHIVE_ID_LEN - i,
    {
        if bytes[i] != id[i] {
            assert(bytes@.subrange(0, ARCHIVE_ID_LEN as int)[i as int] != archive_id_spec()[i as int]);
            return Err(X3Error::ArchiveHeaderXMLInvalidKey);
        }
        i += 1;
    }
    assert(bytes@.subrange(0, ARCHIVE_ID_LEN as int) =~= archive_id_spec());
    let rest = vstd::slice::slice_subrange(bytes, ARCHIVE_ID_LEN, len);
    let h = match read_frame_header(rest) {
        Ok(h) => h,
        Err(e) => {
            return Err(e);
        },
    };
    let start = ARCHIVE_ID_LEN + FRAME_HEADER_LENGTH;
    if h.payload_len > len - start {
        return Err(X3Error::FrameHeaderInvalidPayloadLen);
    }
    let payload = vstd::slice::slice_subrange(bytes, start, start + h.payload_len);
    if crc16(payload) != h.payload_crc {
        return Err(X3Error::FrameHeaderInvalidPayloadCRC);
    }
    Ok((h, vstd::slice::slice_to_vec(payload), start + h.payload_len))
}

/// Index of the first of `names` equal to `name`, if any.
pub open spec fn first_index(names: Seq<Vec<u8>>, name: Seq<u8>, from: int) -> Option<int>
    decreases names.len() - from,
{
    if from < 0 || from >= names.len() {
        None
    } else if names[from]@ == name {
        Some(from)
    } else {
        first_index(names, name, from + 1)
    }
}

proof fn lemma_first_index_bounds(names: Seq<Vec<u8>>, name: Seq<u8>, from: int)
    ensures
        first_index(names, name, from) matches Some(i) ==> from <= i < names.len(),
    decreases names.len() - from,
{
    if 0 <= from < names.len() && names[from]@ != name {
        lemma_first_index_bounds(names, name, from + 1);
    }
}

/// The text of the first element called `name`.
pub open spec fn first_text(names: Seq<Vec<u8>>, texts: Seq<Vec<u8>>, name: Seq<u8>) -> Option<Seq<u8>> {
    match first_index(names, name, 0) {
        Some(i) => Some(texts[i]@),
        None => None,
    }
}

/// Element names `FS`, `BLKLEN`, `CODES` and `T`.
pub open spec fn fs_name() -> Seq<u8> {
    seq![70u8, 83]
}

pub open spec fn blklen_name() -> Seq<u8> {
    seq![66u8, 76, 75, 76, 69, 78]
}

pub open spec fn codes_name() -> Seq<u8> {
    seq![67u8, 79, 68, 69, 83]
}

pub open spec fn t_name() -> Seq<u8> {
    seq![84u8]
}

fn bytes_eq(a: &[u8], b: &[u8]) -> (r: bool)
    ensures
        r == (a@ == b@),
{
    if a.len() != b.len() {
        return false;
    }
    let mut i: usize = 0;
    while i < a.len()
        invariant
            i <= a@.len(),
            a@.len() == b@.len(),
            forall|j: int| 0 <= j < i ==> a@[j] == b@[j],
        decreases a@.len() - i,
    {
        if a[i] != b[i] {
            return false;
        }
        i += 1;
    }
    assert(a@ =~= b@);
    true
}

fn find_first(names: &[Vec<u8>], name: &[u8]) -> (r: Option<usize>)
    ensures
        match first_index(names@, name@, 0) {
            Some(i) => r == Some(i as usize),
            None => r is None,
        },
{
    let mut i: usize = 0;
    while i < names.len()
        invariant
            i <= names@.len(),
            first_index(names@, name@, 0) == first_index(names@, name@, i as int),
        decreases names@.len() - i,
    {
        if bytes_eq(names[i].as_slice(), name) {
            return Some(i);
        }
        i += 1;
    }
    None
}

/// Build the sample rate and parameters from the elements of the archive
/// XML, given as their names and texts in document order: the first `FS`,
/// `BLKLEN`, `CODES` and `T` elements count, and a missing one is an error.
pub fn parse_archive_elements(names: &[Vec<u8>], texts: &[Vec<u8>]) -> (r: Result<(u32, Parameters), X3Error>)
    requires
        names@.len() == texts@.len(),
    ensures
        match (
            first_text(names@, texts@, fs_name()),
            first_text(names@, texts@, blklen_name()),
            first_text(names@, texts@, codes_name()),
            first_text(names@, texts@, t_name()),
        ) {
            (Some(a), Some(b), Some(c), Some(d)) => match archive_fields_spec(a, b, c, d) {
                Err(e) => r == Err::<(u32, Parameters), X3Error>(e),
                Ok((rate, cs, th, bl)) => {
                    if th[0] <= rice_code_spec(cs[0] as nat).offset && th[1] <= rice_code_spec(cs[1] as nat).offset {
                        r matches Ok((rate2, p)) && rate2 == rate && p.valid() && p.codes == cs && p.thresholds == th
                            && p.block_len == bl && p.blocks_per_frame == DEFAULT_BLOCKS_PER_FRAME
                    } else {
                        r == Err::<(u32, Parameters), X3Error>(X3Error::InvalidEncodingThresh)
                    }
                },
            },
            _ => r == Err::<(u32, Parameters), X3Error>(X3Error::ArchiveHeaderXMLInvalid),
        },
{
    let fs_n: Vec<u8> = vec![70u8, 83];
    let bl_n: Vec<u8> = vec![66u8, 76, 75, 76, 69, 78];
    let codes_n: Vec<u8> = vec![67u8, 79, 68, 69, 83];
    let t_n: Vec<u8> = vec![84u8];
    assert(fs_n@ =~= fs_name());
    assert(bl_n@ =~= blklen_name());
    assert(codes_n@ =~= codes_name());
    assert(t_n@ =~= t_name());
    proof {
        lemma_first_index_bounds(names@, fs_name(), 0);
        lemma_first_index_bounds(names@, blklen_name(), 0);
        lemma_first_index_bounds(names@, codes_name(), 0);
        lemma_first_index_bounds(names@, t_name(), 0);
    }
    let a = find_first(names, fs_n.as_slice());
    let b = find_first(names, bl_n.as_slice());
    let c = find_first(names, codes_n.as_slice());
    let d = find_first(names, t_n.as_slice());
    match (a, b, c, d) {
        (Some(a), Some(b), Some(c), Some(d)) => parse_archive_fields(
            texts[a].as_slice(),
            texts[b].as_slice(),
            texts[c].as_slice(),
            texts[d].as_slice(),
        ),
        _ => Err(X3Error::ArchiveHeaderXMLInvalid),
    }
}

} // verus!
