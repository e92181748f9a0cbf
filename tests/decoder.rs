use x3::bitreader::BitReader;
use x3::decoder::decode_block;
use x3::x3::Parameters;

#[test]
fn test_decode_block_ftype_1() {
  let x3_inp: &mut [u8] = &mut [
    0x01, 0x10, 0x23, 0x18, 0x14, 0x90, 0x40, 0x82, 0x58, 0x41, 0x02, 0x0C, 0x4C,
  ];
  let wav: &mut [i16] = &mut [0i16; 20];
  let expected_wavput = [
    -375, -372, -374, -374, -376, -376, -373, -374, -373, -372, -375, -372, -375, -374, -375, -375, -373, -376, -373,
  ];

  let mut last_wav = -373;
  let mut br = BitReader::new(x3_inp);
  let params = &Parameters::default();

  // Skip 6 bits
  br.read_nbits(6);

  decode_block(&mut br, wav, &mut last_wav, params).unwrap();

  assert_eq!(expected_wavput, &mut wav[0..expected_wavput.len()]);
}

#[test]
fn test_decode_block_ftype_2() {
  let x3_inp: &mut [u8] = &mut [
    0xf2, 0x76, 0xb1, 0x82, 0x14, 0xd0, 0x4, 0x4, 0x58, 0x18, 0x30, 0x20, 0x69, 0x86, 0x4, 0xfc, 0xc2, 0xf8, 0xaa,
    0x7f, 0xa1, 0xa, 0xfa, 0xad, 0xbc, 0x9d, 0x8d, 0x13, 0xc9, 0x66, 0xea, 0x5, 0xa3, 0x63, 0x94, 0xc9, 0xf4, 0x88,
    0x4e, 0xb3, 0x6, 0xc9, 0xdb, 0x8f, 0x70, 0x80, 0xb3, 0x8b, 0x6b, 0x14, 0x88, 0x5f, 0x6c, 0x2f, 0xaa, 0x5a, 0xae,
    0xf4, 0x29, 0x46, 0xd9, 0x12, 0x43, 0x4b, 0x4f, 0xd6, 0xeb, 0x24, 0xa8, 0x48, 0xc6, 0x3d, 0x1a, 0xb8, 0x71, 0x72,
    0xb5, 0x68, 0xb4, 0x5b, 0xa1, 0x7c, 0xb2, 0x48, 0x5f, 0x67, 0xd9, 0x1b, 0x65, 0x0,
  ];
  let wav: &mut [i16] = &mut [0i16; 20];
  let expected_wavput = [
    -3467, -3471, -3466, -3463, -3463, -3465, -3464, -3456, -3450, -3448, -3449, -3456, -3462, -3456, -3462, -3461,
    -3463, -3468, -3462,
  ];

  let mut last_wav = i16::from_be_bytes([x3_inp[0], x3_inp[1]]);
  let mut br = BitReader::new(&x3_inp[2..]);
  let params = &Parameters::default();
  decode_block(&mut br, wav, &mut last_wav, params).unwrap();

  assert_eq!(expected_wavput, &mut wav[0..expected_wavput.len()]);
}

#[test]
fn test_decode_block_ftype_3() {
  let x3_inp: &mut [u8] = &mut [242, 123, 202, 56, 106, 202, 124, 8, 122, 249, 136, 173, 202, 23, 80];
  let wav: &mut [i16] = &mut [0i16; 20];
  let expected_wavput = [
    -3452, -3441, -3456, -3462, -3453, -3461, -3461, -3449, -3457, -3463, -3460, -3454, -3450, -3449, -3452, -3450,
    -3449, -3463, -3462,
  ];

  let mut last_wav = i16::from_be_bytes([x3_inp[0], x3_inp[1]]);
  let mut br = BitReader::new(&x3_inp[2..]);
  let params = &Parameters::default();
  decode_block(&mut br, wav, &mut last_wav, params).unwrap();

  assert_eq!(expected_wavput, &mut wav[0..expected_wavput.len()]);
}

#[test]
fn test_decode_block_bpf_eq16() {
  let x3_inp: &mut [u8] = &mut [
    129, 171, 62, 250, 4, 71, 75, 230, 252, 150, 153, 97, 24, 220, 83, 53, 143, 92, 101, 211, 155, 34, 73, 241, 221,
    200, 202, 252, 149, 240, 72, 20, 156, 172, 146, 59, 245, 23, 131, 33, 100, 0,
  ];
  let wav: &mut [i16] = &mut [0i16; 19];
  let expected_wavput = [
    -16767, 4562, -1601, 9638, 22598, 14100, -12957, -10471, 29926, -14190, 31863, 29234, -16603, 31762, 1319, 11044,
    -28931, 17888, -14247,
  ];

  let mut last_wav = i16::from_be_bytes([x3_inp[0], x3_inp[1]]);
  let mut br = BitReader::new(&x3_inp[2..]);
  let params = &Parameters::default();
  decode_block(&mut br, wav, &mut last_wav, params).unwrap();

  assert_eq!(expected_wavput, &mut wav[0..expected_wavput.len()]);
}

#[test]
fn test_decode_block_bpf_lt16() {
  let x3_inp: &mut [u8] = &mut [
    242, 73, 24, 151, 240, 252, 191, 163, 225, 164, 48, 158, 196, 188, 251, 246, 20, 31, 240, 96,
  ];
  let wav: &mut [i16] = &mut [0i16; 19];
  let expected_wavput = [
    -3493, -3494, -3487, -3501, -3502, -3467, -3483, -3506, -3500, -3491, -3501, -3483, -3490, -3495, -3500, -3495,
    -3492, -3493, -3490,
  ];

  let mut last_wav = i16::from_be_bytes([x3_inp[0], x3_inp[1]]);
  let mut br = BitReader::new(&x3_inp[2..]);
  let params = &Parameters::default();
  decode_block(&mut br, wav, &mut last_wav, params).unwrap();

  assert_eq!(expected_wavput, &mut wav[0..expected_wavput.len()]);
}
