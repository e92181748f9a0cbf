use x3::archive::{archive_xml, create_archive_header, parse_archive_elements, parse_archive_fields, read_archive_header};
use x3::filetype::{get_filetype, AudioFiles};
use x3::bitpacker::BitPacker;
use x3::bitreader::BitReader;
use x3::bytereader::ByteReader;
use x3::crc::{crc16, update_crc16, update_crc16_bytes};
use x3::decoder::{decode_block, decode_frame, decode_frames, read_frame_header};
use x3::encoder::{count_bits, diff, encode, encode_frame, x3_encode_block};
use x3::error::X3Error;
use x3::x3::{Channel, FrameHeader, Parameters};

fn encode_all(samples: &[i16], params: Parameters) -> Vec<u8> {
    let mut bp = BitPacker::new(Vec::new());
    encode(&[Channel::new(0, samples.to_vec(), 44100, params)], &mut bp).unwrap();
    bp.as_bytes().to_vec()
}

/// Block type (2 bits) written for the block `s[1..]` after `s[0]`.
fn block_type(s: &[i16]) -> u32 {
    let params = Parameters::default();
    let d = diff(s);
    let mut bp = BitPacker::new(Vec::new());
    x3_encode_block(&s[1..], &d, &mut bp, &params).unwrap();
    let bytes = bp.array().to_vec();
    let mut br = BitReader::new(&bytes);
    br.read_nbits(2)
}

#[test]
fn zeros_frame_bytes() {
    let s = [0i16; 20];
    let mut bp = BitPacker::new(Vec::new());
    encode_frame(&s, &mut bp, &Parameters::default()).unwrap();
    let expected: &[u8] = &[
        0x78, 0x33, 0x01, 0x01, 0x00, 0x14, 0x00, 0x06, 0, 0, 0, 0, 0, 0, 0, 0, 0xC2, 0xF2, 0xCD, 0x80, 0x00, 0x00,
        0x7F, 0xFF, 0xF8, 0x00,
    ];
    assert_eq!(bp.as_bytes(), expected);
    let (decoded, errors) = decode_frames(bp.as_bytes(), &Parameters::default());
    assert_eq!(errors, 0);
    assert_eq!(decoded, s.to_vec());
}

#[test]
fn rice_family_zero_block_round_trip() {
    let s: [i16; 20] = [
        -373, -375, -372, -374, -374, -376, -376, -373, -374, -373, -372, -375, -372, -375, -374, -375, -375, -373,
        -376, -373,
    ];
    assert_eq!(block_type(&s), 1);
    let bytes = encode_all(&s, Parameters::default());
    let (decoded, errors) = decode_frames(&bytes, &Parameters::default());
    assert_eq!(errors, 0);
    assert_eq!(decoded, s.to_vec());
}

#[test]
fn rice_family_two_block_round_trip() {
    let s: [i16; 20] = [
        -3461, -3452, -3441, -3456, -3462, -3453, -3461, -3461, -3449, -3457, -3463, -3460, -3454, -3450, -3449,
        -3452, -3450, -3449, -3463, -3462,
    ];
    assert_eq!(block_type(&s), 3);
    let bytes = encode_all(&s, Parameters::default());
    let (decoded, errors) = decode_frames(&bytes, &Parameters::default());
    assert_eq!(errors, 0);
    assert_eq!(decoded, s.to_vec());
}

#[test]
fn pass_through_block_round_trip() {
    let s: [i16; 20] = [
        -32341, -16767, 4562, -1601, 9638, 22598, 14100, -12957, -10471, 29926, -14190, 31863, 29234, -16603, 31762,
        1319, 11044, -28931, 17888, -14247,
    ];
    assert_eq!(block_type(&s), 0);
    let mut bp = BitPacker::new(Vec::new());
    let d = diff(&s);
    x3_encode_block(&s[1..], &d, &mut bp, &Parameters::default()).unwrap();
    // header 00 then width field 1111
    assert_eq!(bp.array()[0] >> 2, 0b001111);
    let bytes = encode_all(&s, Parameters::default());
    let (decoded, errors) = decode_frames(&bytes, &Parameters::default());
    assert_eq!(errors, 0);
    assert_eq!(decoded, s.to_vec());
}

#[test]
fn bfp_block_round_trip() {
    let s: [i16; 20] = [
        -3511, -3493, -3494, -3487, -3501, -3502, -3467, -3483, -3506, -3500, -3491, -3501, -3483, -3490, -3495,
        -3500, -3495, -3492, -3493, -3490,
    ];
    assert_eq!(block_type(&s), 0);
    let d = diff(&s);
    let max = d.iter().map(|x| x.unsigned_abs()).max().unwrap();
    let mut bp = BitPacker::new(Vec::new());
    x3_encode_block(&s[1..], &d, &mut bp, &Parameters::default()).unwrap();
    assert_eq!((bp.array()[0] >> 2) as u32, count_bits(max));
    let bytes = encode_all(&s, Parameters::default());
    let (decoded, errors) = decode_frames(&bytes, &Parameters::default());
    assert_eq!(errors, 0);
    assert_eq!(decoded, s.to_vec());
}

fn test_signal(n: usize, seed: u32) -> Vec<i16> {
    let mut x = seed;
    let mut v = 0i32;
    (0..n)
        .map(|_| {
            x = x.wrapping_mul(1103515245).wrapping_add(12345);
            v += ((x >> 16) % 41) as i32 - 20;
            v = v.clamp(-30000, 30000);
            v as i16
        })
        .collect()
}

#[test]
fn corrupt_payload_resyncs_on_next_frame() {
    let s = test_signal(20000, 7);
    let params = Parameters::default();
    let mut bytes = encode_all(&s, params);
    let first = read_frame_header(&bytes).unwrap();
    assert_eq!(first.samples, 10000);
    let second_at = 20 + first.payload_len;
    let second = read_frame_header(&bytes[second_at..]).unwrap();
    assert_eq!(second.samples, 10000);
    bytes[20 + first.payload_len / 2] ^= 0x5a;
    let (decoded, errors) = decode_frames(&bytes, &params);
    assert_eq!(errors, 1);
    assert_eq!(decoded, s[10000..].to_vec());
}

#[test]
fn round_trip_crosses_blocks_and_frames() {
    let params = Parameters::new(7, 3, [0, 1, 2], [2, 9, 19]).unwrap();
    for n in [1usize, 2, 7, 8, 21, 22, 23, 44, 100] {
        let s = test_signal(n, n as u32);
        let bytes = encode_all(&s, params);
        let (decoded, errors) = decode_frames(&bytes, &params);
        assert_eq!(errors, 0);
        assert_eq!(decoded, s);
    }
    let jumps: Vec<i16> = (0..50).map(|i| if i % 2 == 0 { 12000 } else { -12000 }).collect();
    let bytes = encode_all(&jumps, Parameters::default());
    assert_eq!(decode_frames(&bytes, &Parameters::default()), (jumps, 0));
}

#[test]
fn narrow_block_above_last_threshold_uses_first_fitting_rice_family() {
    // every threshold below the deltas, but deltas of four bits: the first
    // family that can code them (Rice 1, deltas -11 to 10)
    let params = Parameters::new(4, 2, [0, 1, 2], [0, 0, 0]).unwrap();
    let s: Vec<i16> = vec![0, 9, 0, 9, 0];
    let d = diff(&s);
    let mut bp = BitPacker::new(Vec::new());
    assert_eq!(x3_encode_block(&s[1..], &d, &mut bp, &params), Ok(1));
    assert_eq!(bp.array()[0] >> 6, 2);
    let bytes = encode_all(&s, params);
    assert_eq!(decode_frames(&bytes, &params), (s, 0));
}

#[test]
fn narrow_block_too_wide_for_last_family_uses_bfp_width_five() {
    // the last family (Rice 0) covers deltas from -6 to 7 only
    let params = Parameters::new(4, 2, [0, 0, 0], [0, 0, 0]).unwrap();
    let s: Vec<i16> = vec![0, 9, 0, 9, 0];
    let d = diff(&s);
    let mut bp = BitPacker::new(Vec::new());
    assert_eq!(x3_encode_block(&s[1..], &d, &mut bp, &params), Ok(4));
    assert_eq!(bp.array()[0] >> 2, 5);
    let bytes = encode_all(&s, params);
    assert_eq!(decode_frames(&bytes, &params), (s, 0));
}

#[test]
fn delta_of_minus_offset_is_rice_coded() {
    // family 1 covers deltas from -11 to 10; the largest magnitude is 11
    let params = Parameters::new(4, 2, [0, 1, 3], [3, 11, 20]).unwrap();
    let s: Vec<i16> = vec![100, 89, 90, 85, 80];
    let d = diff(&s);
    let mut bp = BitPacker::new(Vec::new());
    assert_eq!(x3_encode_block(&s[1..], &d, &mut bp, &params), Ok(1));
    assert_eq!(bp.array()[0] >> 6, 2);
    let bytes = encode_all(&s, params);
    assert_eq!(decode_frames(&bytes, &params), (s, 0));
}

#[test]
fn archive_elements_select_first_occurrence() {
    let n = |x: &str| x.as_bytes().to_vec();
    let names = vec![n("SUFFIX"), n("FS"), n("BLKLEN"), n("CODES"), n("FS"), n("T")];
    let texts = vec![n("wav"), n("8000"), n("20"), n("RICE0,RICE1,RICE3,BFP"), n("16000"), n("3,8,20")];
    let (rate, p) = parse_archive_elements(&names, &texts).unwrap();
    assert_eq!(rate, 8000);
    assert_eq!(p.codes, [0, 1, 3]);
    assert_eq!(parse_archive_elements(&names[..5], &texts[..5]).err(), Some(X3Error::ArchiveHeaderXMLInvalid));
}

#[test]
fn crc_of_concatenation() {
    let a = b"123456789";
    assert_eq!(crc16(a), 0x29B1);
    let (x, y) = a.split_at(4);
    assert_eq!(update_crc16_bytes(crc16(x), y), crc16(a));
    assert_eq!(update_crc16(crc16(&a[..8]), &a[8]), crc16(a));
    assert_eq!(crc16(&[]), 0xFFFF);
}

#[test]
fn threshold_too_large_is_refused() {
    assert!(matches!(Parameters::new(20, 500, [0, 1, 3], [7, 8, 20]), Err(X3Error::InvalidEncodingThresh)));
    assert!(matches!(Parameters::new(20, 500, [0, 1, 3], [6, 12, 20]), Err(X3Error::InvalidEncodingThresh)));
    assert!(Parameters::new(20, 500, [0, 1, 3], [6, 11, 99]).is_ok());
}

#[test]
fn frame_header_errors() {
    let s = [5i16; 30];
    let mut bp = BitPacker::new(Vec::new());
    encode_frame(&s, &mut bp, &Parameters::default()).unwrap();
    let good = bp.as_bytes().to_vec();
    let h = read_frame_header(&good).unwrap();
    assert_eq!(h, FrameHeader { source_id: 1, samples: 30, channels: 1, payload_len: h.payload_len, payload_crc: h.payload_crc });
    assert_eq!(read_frame_header(&good[..19]), Err(X3Error::FrameDecodeUnexpectedEnd));
    let mut bad = good.clone();
    bad[5] ^= 1;
    assert_eq!(read_frame_header(&bad), Err(X3Error::FrameHeaderInvalidHeaderCRC));
    let (decoded, errors) = decode_frames(&bad, &Parameters::default());
    assert_eq!((decoded.len(), errors), (0, 1));
    let mut bp = BitPacker::new(Vec::new());
    bp.write_bits(1, 3);
    assert_eq!(encode_frame(&s, &mut bp, &Parameters::default()), Err(X3Error::BitPack(x3::bitpacker::BitPackError::NotByteAligned)));
}

#[test]
fn decode_errors() {
    // block type 0, width field 4 (five bits): refused
    let bytes = [0b0001_0000u8, 0];
    let mut br = BitReader::new(&bytes);
    let mut wav = [0i16; 3];
    let mut last = 0i16;
    assert_eq!(decode_block(&mut br, &mut wav, &mut last, &Parameters::default()), Err(X3Error::FrameDecodeInvalidBPF));
    // Rice family 0 with a run of 16 zeros: past the inverse table
    let bytes = [0b0100_0000u8, 0, 0x20];
    let mut br = BitReader::new(&bytes);
    assert_eq!(decode_block(&mut br, &mut wav, &mut last, &Parameters::default()), Err(X3Error::OutOfBoundsInverse));
    let mut buf = [0i16; 4];
    assert_eq!(decode_frame(&[1], &mut buf, &Parameters::default(), 2), Err(X3Error::FrameDecodeUnexpectedEnd));
    assert_eq!(decode_frame(&[0x12, 0x34], &mut buf, &Parameters::default(), 1), Ok(Some(1)));
    assert_eq!(buf[0], 0x1234);
}

#[test]
fn more_than_one_channel_is_refused() {
    let p = Parameters::default();
    let mut bp = BitPacker::new(Vec::new());
    let chans = [Channel::new(0, vec![1, 2], 8000, p), Channel::new(1, vec![1, 2], 8000, p)];
    assert_eq!(encode(&chans, &mut bp), Err(X3Error::MoreThanOneChannel));
}

#[test]
fn archive_header_layout() {
    let p = Parameters::default();
    let xml = archive_xml(44100, &p);
    let text = String::from_utf8(xml.clone()).unwrap();
    assert!(text.contains("<FS UNIT=\"Hz\">44100</FS>"));
    assert!(text.contains("<BLKLEN>20</BLKLEN>"));
    assert!(text.contains("RICE0,RICE1,RICE3,BFP"));
    assert!(text.contains("<T N=\"3\">3,8,20</T>"));
    let h = create_archive_header(44100, &p).unwrap();
    assert_eq!(&h[0..8], b"X3ARCHIV");
    let fh = read_frame_header(&h[8..]).unwrap();
    assert_eq!(fh.samples, 0);
    assert_eq!(fh.payload_len % 2, 0);
    assert_eq!(fh.payload_len, xml.len() + xml.len() % 2);
    assert_eq!(h.len(), 28 + fh.payload_len);
    assert_eq!(crc16(&h[28..]), fh.payload_crc);
}

#[test]
fn byte_reader_finds_key() {
    let data = [1u8, 0x78, 0x00, 0x78, 0x33, 9];
    let mut r = ByteReader::new(&data);
    assert!(r.find_le_u16(0x7833));
    assert_eq!(r.get_pos(), 3);
    assert_eq!(r.read_be_u16(), Ok(0x7833));
    assert_eq!(r.read_u8(), Ok(9));
    assert!(r.read_u8().is_err());
    r.set_pos(4);
    assert!(!r.find_le_u16(0x7833));
    assert_eq!(r.get_pos(), 5);
    r.reset();
    assert_eq!(r.read_le_i16(), Ok(0x7801));
    assert_eq!(r.remaining_bytes(), Ok(4));
    assert!(r.eq(&[0x00, 0x78]));
    assert_eq!(r.crc16(0), Ok(0xFFFF));
    assert_eq!(r.extract(1, 3).unwrap(), vec![0x78, 0x00]);
}

#[test]
fn archive_fields_parse() {
    let (rate, p) = parse_archive_fields(b"44100", b"20", b"RICE0,RICE1,RICE3,BFP", b"3,8,20").unwrap();
    assert_eq!(rate, 44100);
    assert_eq!((p.block_len, p.codes, p.thresholds, p.blocks_per_frame), (20, [0, 1, 3], [3, 8, 20], 500));
    assert_eq!(parse_archive_fields(b"44100", b"20", b"RICE0,RICE9,RICE3", b"3,8,20").err(), Some(X3Error::ArchiveHeaderXMLRiceCode));
    assert_eq!(parse_archive_fields(b"44100", b"20", b"RICE0,BFP", b"3,8,20").err(), Some(X3Error::ArchiveHeaderXMLRiceCode));
    assert_eq!(parse_archive_fields(b"4x", b"20", b"RICE0,RICE1,RICE3", b"3,8,20").err(), Some(X3Error::ArchiveHeaderXMLInvalid));
    assert_eq!(parse_archive_fields(b"8000", b"61", b"RICE0,RICE1,RICE3", b"3,8,20").err(), Some(X3Error::ArchiveHeaderXMLInvalid));
    assert_eq!(parse_archive_fields(b"8000", b"20", b"RICE0,RICE1,RICE3", b"3,8").err(), Some(X3Error::ArchiveHeaderXMLInvalid));
    assert_eq!(parse_archive_fields(b"8000", b"20", b"RICE0,RICE1,RICE3", b"9,8,20").err(), Some(X3Error::InvalidEncodingThresh));
    assert_eq!(parse_archive_fields(b"4294967296", b"20", b"RICE0,RICE1,RICE3", b"3,8,20").err(), Some(X3Error::ArchiveHeaderXMLInvalid));
    // tokens other than RICE0..RICE3 are ignored
    let (_, q) = parse_archive_fields(b"8000", b"20", b"RICE0,XYZ,RICE1,RICE9,RICE3,BFP", b"3,8,20").unwrap();
    assert_eq!(q.codes, [0, 1, 3]);
    // thresholds beyond 32 bits read back
    let (_, q) = parse_archive_fields(b"8000", b"20", b"RICE0,RICE1,RICE3", b"3,8,99999999999").unwrap();
    assert_eq!(q.thresholds, [3, 8, 99999999999]);
}

#[test]
fn archive_header_reads_back() {
    let p = Parameters::default();
    let mut bytes = create_archive_header(8000, &p).unwrap();
    let xml = archive_xml(8000, &p);
    let (h, x, n) = read_archive_header(&bytes).unwrap();
    assert_eq!(n, bytes.len());
    assert_eq!(h.samples, 0);
    assert_eq!(&x[..xml.len()], &xml[..]);
    bytes[0] = b'Y';
    assert_eq!(read_archive_header(&bytes).err(), Some(X3Error::ArchiveHeaderXMLInvalidKey));
}

#[test]
fn file_types() {
    assert_eq!(get_filetype("a.x3a"), Some(AudioFiles::X3a));
    assert_eq!(get_filetype("dir/b.wav"), Some(AudioFiles::Wav));
    assert_eq!(get_filetype("c.bin"), Some(AudioFiles::X3Bin));
    assert_eq!(get_filetype("wav"), None);
    assert_eq!(get_filetype("d.mp3"), None);
}

#[test]
fn garbage_between_frames_costs_one_error() {
    let params = Parameters::new(10, 2, [0, 1, 3], [3, 8, 20]).unwrap();
    let s = test_signal(63, 3);
    let bytes = encode_all(&s, params);
    // frames of 20 samples: split after the first two frames
    let h0 = read_frame_header(&bytes).unwrap();
    let f0 = 20 + h0.payload_len;
    let h1 = read_frame_header(&bytes[f0..]).unwrap();
    let cut = f0 + 20 + h1.payload_len;
    let mut damaged = bytes[..cut].to_vec();
    damaged.extend_from_slice(&[0x11, 0x22, 0x33, 0x44, 0x55]);
    damaged.extend_from_slice(&bytes[cut..]);
    let (decoded, errors) = decode_frames(&damaged, &params);
    assert_eq!(errors, 1);
    assert_eq!(decoded, s);
}

#[test]
fn bit_packer_len_and_crc() {
    let mut bp = BitPacker::new(Vec::new());
    bp.write_bits(0x31, 8);
    bp.bookmark();
    for b in b"123456789" {
        bp.write_bits(*b as usize, 8);
    }
    bp.write_bits(1, 3);
    assert_eq!(bp.len(), 10);
    assert_eq!(bp.crc(), 0x29B1);
}

#[test]
fn raw_words_are_twos_complement() {
    assert_eq!(x3::encoder::raw16_word(-1), 0xffff);
    assert_eq!(x3::encoder::raw16_word(-32768), 0x8000);
    assert_eq!(x3::encoder::raw16_word(1234), 1234);
}

#[test]
fn truncated_candidate_while_scanning_does_not_end_stream() {
    let params = Parameters::default();
    let s = test_signal(30, 5);
    let frame = encode_all(&s, params);
    // after a bad byte, a well-formed header whose payload reaches past the
    // end is one more bad candidate; the frame after it still decodes
    let mut bytes = vec![0x11u8];
    bytes.extend_from_slice(&x3::x3::frame_header_bytes(1, 1, 10, 0x7000, 0));
    bytes.extend_from_slice(&frame);
    let (decoded, errors) = decode_frames(&bytes, &params);
    assert_eq!((decoded, errors), (s, 1));
}
