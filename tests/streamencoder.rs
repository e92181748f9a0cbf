use x3::bytewriter::{ByteWriter, SliceByteWriter};
use x3::streamencoder::StreamEncoder;
use x3::x3::Parameters;

const NUM_SAMPLES: usize = 0x0eff;

#[test]
fn streamencoder_test_encode_frame_zeros() {
    let wav: &[i16] = &[0, 0, 0, 0, 0, 0, 0, 0, 0, 0, 0, 0, 0, 0, 0, 0, 0, 0, 0, 0];

    let wl: usize = wav.len();
    let wlh = (wl >> 8) as u8;
    let wll = (wl & 0xff) as u8;
    let expected_x3_output: &[u8] = &[
        // Frame header
        b'x', b'3', // "x3"
        1, 1, // Source Id, Num Channels
        wlh, wll, // Num samples
        0, 6, // Num encoded bytes
        0, 0, 0, 0, 0, 0, 0, 0, // Time
        194, 242, // Header CRC
        205, 128, // Payload CRC
        // Frame payload
        0, 0, 127, 255, 248, 0,
    ];
    let params = Parameters::default();
    let writer = SliceByteWriter::new(vec![0u8; NUM_SAMPLES * 2]);

    // make stream encoder
    let mut encoder = StreamEncoder::new(writer, &params);
    let (take_3, rest) = wav.split_at(3);

    // stream some samples
    let _ = encoder.process_interleaved(take_3);

    // stream remaining samples
    let _ = encoder.process_interleaved(rest);

    // close stream encoder
    let mut writer = encoder.close().unwrap();
    let valid_len = writer.stream_position().unwrap() as usize;

    assert_eq!(expected_x3_output, &writer.as_slice()[..valid_len]);
}

#[test]
fn stream_encoder_splits_frames() {
    let params = Parameters::new(2, 2, [0, 1, 3], [3, 8, 20]).unwrap();
    // frames of 1 + 2 * 2 = 5 samples
    let wav: Vec<i16> = (0..12).map(|i| (i * 3) as i16).collect();
    let mut encoder = StreamEncoder::new(SliceByteWriter::new(vec![0u8; 1024]), &params);
    encoder.process_interleaved(&wav[..7]).unwrap();
    encoder.process_interleaved(&wav[7..]).unwrap();
    let mut writer = encoder.close().unwrap();
    let len = writer.stream_position().unwrap() as usize;
    let (decoded, errors) = x3::decoder::decode_frames(&writer.as_slice()[..len], &params);
    assert_eq!(errors, 0);
    assert_eq!(decoded, wav);
    // three frames: 5, 5 and 2 samples
    assert_eq!(writer.as_slice()[5], 5);
}

#[test]
fn slice_writer_refuses_overflow() {
    let mut w = SliceByteWriter::new(vec![0u8; 4]);
    assert!(w.write_all(&[1, 2, 3]).is_ok());
    assert_eq!(w.write_all(&[4, 5]), Err(x3::error::X3Error::ByteWriterInsufficientMemory));
    assert_eq!(w.align(2), Ok(1));
    assert_eq!(w.stream_position(), Ok(4));
    assert_eq!(w.as_slice(), &[1, 2, 3, 0]);
}

#[test]
fn stream_encoder_accepts_large_frames() {
    let params = Parameters::new(60, 500, [0, 1, 3], [3, 8, 20]).unwrap();
    let wav: Vec<i16> = (0..200).map(|i| (i % 7) as i16).collect();
    let mut encoder = StreamEncoder::new(SliceByteWriter::new(vec![0u8; 4096]), &params);
    encoder.process_interleaved(&wav).unwrap();
    let mut writer = encoder.close().unwrap();
    let len = writer.stream_position().unwrap() as usize;
    assert_eq!(x3::decoder::decode_frames(&writer.as_slice()[..len], &params), (wav, 0));
}

#[test]
fn stream_encoder_without_room_keeps_whole_frames() {
    let params = Parameters::new(2, 2, [0, 1, 3], [3, 8, 20]).unwrap();
    let wav: Vec<i16> = (0..12).map(|i| (i * 3) as i16).collect();
    // room for the first frame only
    let mut full = StreamEncoder::new(SliceByteWriter::new(vec![0u8; 1024]), &params);
    full.process_interleaved(&wav[..5]).unwrap();
    let mut w = full.close().unwrap();
    let first = w.stream_position().unwrap() as usize;
    let mut encoder = StreamEncoder::new(SliceByteWriter::new(vec![0u8; first + 10]), &params);
    assert_eq!(encoder.process_interleaved(&wav), Err(x3::error::X3Error::ByteWriterInsufficientMemory));
}
