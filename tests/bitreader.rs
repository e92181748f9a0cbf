use x3::bitreader::BitReader;

#[test]
fn test_bitreader_init() {
  let inp_arr: &mut [u8] = &mut [0x00, 0x0f, 0xf0, 0x00];
  let br = BitReader::new(inp_arr);

  assert_eq!(32, br.rem_bit());
  assert_eq!(0x000ff000, br.leading_word());
}

#[test]
fn test_bitreader_init_short() {
  let inp_arr: &mut [u8] = &mut [0x00, 0x0f, 0xf0];
  let br = BitReader::new(inp_arr);

  assert_eq!(24, br.rem_bit());
  assert_eq!(0x000ff000, br.leading_word());
}

#[test]
fn test_count_zero_bits() {
  let inp_arr: &mut [u8] = &mut [0x00, 0x0f, 0xf0, 0x00];
  let mut br = BitReader::new(inp_arr);

  // Read first 12 zero
  {
    let zeros = br.count_zero_bits();
    assert_eq!(12, zeros);
    assert_eq!(20, br.rem_bit());
    assert_eq!(0xff000000, br.leading_word());
  }

  // Next there are no zeros
  {
    let zeros = br.count_zero_bits();
    assert_eq!(0, zeros);
    assert_eq!(20, br.rem_bit());
    assert_eq!(0xff000000, br.leading_word());
  }

  // Skip some bits
  {
    let byte = br.read_nbits(7);
    assert_eq!(0x7f, byte);
    assert_eq!(13, br.rem_bit());
    assert_eq!(0x80000000, br.leading_word());
  }
  {
    let byte = br.read_nbits(1);
    assert_eq!(0x01, byte);
    assert_eq!(12, br.rem_bit());
    assert_eq!(0x00000000, br.leading_word());
  }

  // Read to the end
  {
    let zeros = br.count_zero_bits();
    assert_eq!(12, zeros);

    assert_eq!(0, br.rem_bit());
    assert_eq!(0x00000000, br.leading_word());
  }
}

#[test]
fn test_bitreader_long_array() {
  let inp_arr: &mut [u8] = &mut [0x01, 0x23, 0x45, 0x67, 0x89, 0xab, 0xcd, 0xef, 0x01];

  let mut br = BitReader::new(inp_arr);

  // Basic load
  {
    assert_eq!(32, br.rem_bit());
    assert_eq!(0b00000001001000110100010101100111, br.leading_word());
  }

  // Load next bytes
  {
    let byte = br.read_nbits(20);
    assert_eq!(0b00000001001000110100, byte);
    assert_eq!(12, br.rem_bit());
    assert_eq!(0b010101100111 << 20, br.leading_word());
  }

  // Load next bits
  {
    let bit = br.read_nbits(1);
    assert_eq!(0b0, bit);
    assert_eq!(0b10101100111000000000000000000000, br.leading_word());

    let bit = br.read_nbits(1);
    assert_eq!(0b1, bit);
    assert_eq!(0b01011001110000000000000000000000, br.leading_word());
  }
  {
    let bits = br.read_nbits(5);
    assert_eq!(0b01011, bits);
    assert_eq!(0b00111000000000000000000000000000, br.leading_word());

    let bits = br.read_nbits(6);
    assert_eq!(0b001111, bits);
    assert_eq!(0b00010011010101111001101111011110, br.leading_word());

    let bits = br.read_nbits(31);
    assert_eq!(0x09abcdef, bits);
    assert_eq!(0x01000000, br.leading_word());

    let bits = br.read_nbits(8);
    assert_eq!(0x01, bits);
    assert_eq!(0, br.leading_word());
  }
}
