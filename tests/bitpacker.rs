use x3::bitpacker::BitPacker;

#[test]
fn bitpack_test_write_packed_bits() {
    let inp_arr: Vec<u8> = vec![0x00, 0x00, 0x00];
    let mut bp = BitPacker::new(inp_arr);
    bp.set_pos(1, 1);
    bp.write_bits(0x03, 2);
    assert_eq!(1, bp.p_byte());
    assert_eq!(3, bp.p_bit());
    assert_eq!(&[0x00, 0x60, 0x00], bp.array());

    let inp_arr: Vec<u8> = vec![0xff, 0x80, 0x00];
    let mut bp = BitPacker::new(inp_arr);
    bp.set_pos(1, 1);
    bp.write_bits(0x03, 2);
    assert_eq!(1, bp.p_byte());
    assert_eq!(3, bp.p_bit());
    assert_eq!(&[0xff, 0xE0, 0x00], bp.array());

    let inp_arr: Vec<u8> = vec![0x00, 0x00, 0x00];
    let mut bp = BitPacker::new(inp_arr);
    bp.set_pos(1, 5);
    bp.write_bits(0x1ff, 9);
    assert_eq!(2, bp.p_byte());
    assert_eq!(6, bp.p_bit());
    assert_eq!(&[0x00, 0x07, 0xfc], bp.array());

    let inp_arr: Vec<u8> = vec![0xff, 0xfc, 0x00];
    let mut bp = BitPacker::new(inp_arr);
    bp.set_pos(1, 5);
    bp.write_bits(0x1ff, 9);
    assert_eq!(2, bp.p_byte());
    assert_eq!(6, bp.p_bit());
    assert_eq!(&[0xff, 0xff, 0xfc], bp.array());

    let inp_arr: Vec<u8> = vec![0x00, 0x00, 0x00];
    let mut bp = BitPacker::new(inp_arr);
    bp.set_pos(0, 6);
    bp.write_bits(0x1f27b, 17);
    assert_eq!(2, bp.p_byte());
    assert_eq!(7, bp.p_bit());
    assert_eq!(&[0x03, 0xe4, 0xf6], bp.array());

    let inp_arr: Vec<u8> = vec![0xfe, 0x00, 0x00];
    let mut bp = BitPacker::new(inp_arr);
    bp.set_pos(0, 6);
    bp.write_bits(0x1f27b, 17);
    assert_eq!(2, bp.p_byte());
    assert_eq!(7, bp.p_bit());
    assert_eq!(&[0xff, 0xe4, 0xf6], bp.array());

    let inp_arr: Vec<u8> = vec![0x00, 0x00, 0x00];
    let mut bp = BitPacker::new(inp_arr);
    bp.set_pos(1, 4);
    bp.write_bits(0x09, 4);
    assert_eq!(2, bp.p_byte());
    assert_eq!(0, bp.p_bit());
    assert_eq!(&[0x00, 0x09, 0x00], bp.array());

    let inp_arr: Vec<u8> = vec![0xf0, 0x00, 0x00];
    let mut bp = BitPacker::new(inp_arr);
    bp.set_pos(0, 4);
    bp.write_bits(0xffffbe81, 16);
    assert_eq!(2, bp.p_byte());
    assert_eq!(4, bp.p_bit());
    assert_eq!(&[0xfb, 0xe8, 0x10], bp.array());

    let inp_arr: Vec<u8> = vec![0x00, 0x00, 0x00];
    let mut bp = BitPacker::new(inp_arr);
    bp.set_pos(1, 1);
    bp.write_bits(0xfffffffc, 6);
    assert_eq!(1, bp.p_byte());
    assert_eq!(7, bp.p_bit());
    assert_eq!(&[0x00, 0x78, 0x00], bp.array());

    let inp_arr: Vec<u8> = vec![0x00, 0x00, 0x00];
    let mut bp = BitPacker::new(inp_arr);
    bp.set_pos(1, 2);
    bp.write_bits(0xfffffffc, 6);
    assert_eq!(2, bp.p_byte());
    assert_eq!(0, bp.p_bit());
    assert_eq!(&[0x00, 0x3c, 0x00], bp.array());
  }

#[test]
fn bitpacker_test_write_packed_bits() {
        let inp_arr: Vec<u8> = vec![0x00, 0x00, 0x00];
        let mut bp = BitPacker::new(inp_arr);
        bp.set_pos(1, 1);
        bp.write_bits(0x03, 2);
        assert_eq!(1, bp.p_byte());
        assert_eq!(3, bp.p_bit());
        assert_eq!(&[0x00, 0x60, 0x00], bp.array());

        let inp_arr: Vec<u8> = vec![0xff, 0x80, 0x00];
        let mut bp = BitPacker::new(inp_arr);
        bp.set_pos(1, 1);
        bp.write_bits(0x03, 2);
        assert_eq!(1, bp.p_byte());
        assert_eq!(3, bp.p_bit());
        assert_eq!(&[0xff, 0xE0, 0x00], bp.array());

        let inp_arr: Vec<u8> = vec![0x00, 0x00, 0x00];
        let mut bp = BitPacker::new(inp_arr);
        bp.set_pos(1, 5);
        bp.write_bits(0x1ff, 9);
        assert_eq!(2, bp.p_byte());
        assert_eq!(6, bp.p_bit());
        assert_eq!(&[0x00, 0x07, 0xfc], bp.array());

        let inp_arr: Vec<u8> = vec![0xff, 0xfc, 0x00];
        let mut bp = BitPacker::new(inp_arr);
        bp.set_pos(1, 5);
        bp.write_bits(0x1ff, 9);
        assert_eq!(2, bp.p_byte());
        assert_eq!(6, bp.p_bit());
        assert_eq!(&[0xff, 0xff, 0xfc], bp.array());

        let inp_arr: Vec<u8> = vec![0x00, 0x00, 0x00];
        let mut bp = BitPacker::new(inp_arr);
        bp.set_pos(0, 6);
        bp.write_bits(0x1f27b, 17);
        assert_eq!(2, bp.p_byte());
        assert_eq!(7, bp.p_bit());
        assert_eq!(&[0x03, 0xe4, 0xf6], bp.array());

        let inp_arr: Vec<u8> = vec![0xfe, 0x00, 0x00];
        let mut bp = BitPacker::new(inp_arr);
        bp.set_pos(0, 6);
        bp.write_bits(0x1f27b, 17);
        assert_eq!(2, bp.p_byte());
        assert_eq!(7, bp.p_bit());
        assert_eq!(&[0xff, 0xe4, 0xf6], bp.array());

        let inp_arr: Vec<u8> = vec![0x00, 0x00, 0x00];
        let mut bp = BitPacker::new(inp_arr);
        bp.set_pos(1, 4);
        bp.write_bits(0x09, 4);
        assert_eq!(2, bp.p_byte());
        assert_eq!(0, bp.p_bit());
        assert_eq!(&[0x00, 0x09, 0x00], bp.array());

        let inp_arr: Vec<u8> = vec![0xf0, 0x00, 0x00];
        let mut bp = BitPacker::new(inp_arr);
        bp.set_pos(0, 4);
        bp.write_bits(0xffffbe81, 16);
        assert_eq!(2, bp.p_byte());
        assert_eq!(4, bp.p_bit());
        assert_eq!(&[0xfb, 0xe8, 0x10], bp.array());

        let inp_arr: Vec<u8> = vec![0x00, 0x00, 0x00];
        let mut bp = BitPacker::new(inp_arr);
        bp.set_pos(1, 1);
        bp.write_bits(0xfffffffc, 6);
        assert_eq!(1, bp.p_byte());
        assert_eq!(7, bp.p_bit());
        assert_eq!(&[0x00, 0x78, 0x00], bp.array());

        let inp_arr: Vec<u8> = vec![0x00, 0x00, 0x00];
        let mut bp = BitPacker::new(inp_arr);
        bp.set_pos(1, 2);
        bp.write_bits(0xfffffffc, 6);
        assert_eq!(2, bp.p_byte());
        assert_eq!(0, bp.p_bit());
        assert_eq!(&[0x00, 0x3c, 0x00], bp.array());
    }

#[test]
fn packed_bits_concatenate_from_fresh_writer() {
    let mut bp = BitPacker::new(Vec::new());
    bp.write_bits(0b101, 3);
    bp.write_bits(0xffff_fff0, 4);
    bp.write_bits(0x1, 1);
    bp.write_bits(0x2a, 6);
    // 101 0000 1 101010, padded: 1010 0001 1010 1000
    assert_eq!(bp.array(), &[0xa1, 0xa8]);
    assert_eq!(bp.as_bytes(), &[0xa1]);
    assert_eq!(bp.p_byte(), 1);
    assert_eq!(bp.p_bit(), 6);
}

#[test]
fn word_align_pads_to_even_byte() {
    let mut bp = BitPacker::new(Vec::new());
    bp.write_bits(1, 1);
    bp.word_align();
    assert_eq!(bp.p_byte(), 2);
    assert_eq!(bp.p_bit(), 0);
    assert_eq!(bp.as_bytes(), &[0x80, 0x00]);
    bp.word_align();
    assert_eq!(bp.p_byte(), 2);
}

#[test]
fn inc_counter_n_bytes_needs_alignment() {
    let mut bp = BitPacker::new(Vec::new());
    bp.write_bits(1, 3);
    assert!(bp.inc_counter_n_bytes(2).is_err());
    bp.complete_byte();
    assert!(bp.inc_counter_n_bytes(2).is_ok());
    assert_eq!(bp.p_byte(), 3);
}

#[test]
fn bookmark_round_trip() {
    let mut bp = BitPacker::new(vec![0u8; 8]);
    bp.write_bits(0xff, 8);
    bp.bookmark();
    bp.write_bits(0x12, 8);
    bp.write_bits(0x3, 4);
    assert_eq!(bp.bookmark_get_offset(), 2);
    assert_eq!(bp.bookmark_get_from(), &[0x12]);
    bp.bookmark_write(&[0xab, 0xcd]);
    assert_eq!(&bp.array()[0..3], &[0xff, 0xab, 0xcd]);
}
