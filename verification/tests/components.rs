use deflate::bits::{BitWriter, Inflater};
use deflate::block::{deflate_block_no_compression, get_btype, Btype};
use deflate::huffman::HuffmanCodeGenerator;
use deflate::tables::{
    distance_code_base, distance_code_extra, length_code_base, length_code_extra,
};
use deflate::{inflate, CodecError};

/// One fixed-Huffman block, assembled bit by bit.
fn fixed_block(final_flag: bool, body: &dyn Fn(&mut BitWriter)) -> Vec<u8> {
    let mut w = BitWriter::new();
    w.push_bit(final_flag);
    w.push_bit(true);
    w.push_bit(false);
    body(&mut w);
    w.finish()
}

#[test]
fn back_references_chain_to_three_hundred() {
    // one 'x', then lengths 258 (code 285) and 41 (code 273, 3 extra
    // bits holding 6) both at distance 1 (code 0), then end of block
    let d = fixed_block(true, &|w: &mut BitWriter| {
        w.append_msb_first(48 + (b'x' as u16), 8);
        w.append_msb_first(197, 8);
        w.append_msb_first(0, 5);
        w.append_msb_first(17, 7);
        w.append_lsb_first(6, 3);
        w.append_msb_first(0, 5);
        w.append_msb_first(0, 7);
    });
    let out = inflate(&d).unwrap();
    assert_eq!(out.len(), 300);
    assert!(out.iter().all(|&b| b == b'x'));
}

#[test]
fn overlapping_back_reference_repeats_byte() {
    // literal 'a', then length 5 (code 259) at distance 1: the copy
    // reads what it has just written, appending "aaaaa"
    let d = fixed_block(true, &|w: &mut BitWriter| {
        w.append_msb_first(48 + (b'a' as u16), 8);
        w.append_msb_first(3, 7);
        w.append_msb_first(0, 5);
        w.append_msb_first(0, 7);
    });
    let out = inflate(&d).unwrap();
    assert_eq!(out, b"aaaaaa".to_vec());
}

#[test]
fn back_reference_reaches_into_earlier_block() {
    // a stored block holding "ab", then a fixed block whose reference
    // at distance 2 copies from the stored block's output
    let mut d = deflate_block_no_compression(b"ab").unwrap();
    let mut tail = fixed_block(true, &|w: &mut BitWriter| {
        w.append_msb_first(1, 7);
        w.append_msb_first(1, 5);
        w.append_msb_first(0, 7);
    });
    d.append(&mut tail);
    let out = inflate(&d).unwrap();
    assert_eq!(out, b"ababa".to_vec());
}

#[test]
fn checksum_mismatch_rejected() {
    let mut d = deflate_block_no_compression(b"abcdef").unwrap();
    d[0] |= 0x01;
    d[3] ^= 0xff;
    assert_eq!(inflate(&d), Err(CodecError::ChecksumMismatch));
}

#[test]
fn reserved_block_type_rejected() {
    assert_eq!(inflate(&[0x07]), Err(CodecError::UnsupportedBlockType));
}

#[test]
fn dynamic_block_type_unsupported() {
    assert_eq!(inflate(&[0x05]), Err(CodecError::UnsupportedBlockType));
}

#[test]
fn back_reference_before_start_rejected() {
    // a reference as the block's first symbol: nothing has been
    // produced, so even distance 1 reaches before the start
    let d = fixed_block(true, &|w: &mut BitWriter| {
        w.append_msb_first(1, 7);
        w.append_msb_first(0, 5);
        w.append_msb_first(0, 7);
    });
    assert_eq!(inflate(&d), Err(CodecError::InvalidBackReference));
}

#[test]
fn empty_input_rejected() {
    assert_eq!(inflate(&[]), Err(CodecError::UnexpectedEndOfStream));
}

#[test]
fn truncated_stored_block_rejected() {
    assert_eq!(inflate(&[0x01, 0x05, 0x00]), Err(CodecError::UnexpectedEndOfStream));
    assert_eq!(
        inflate(&[0x01, 0x05, 0x00, 0xfa, 0xff, b'h', b'i']),
        Err(CodecError::UnexpectedEndOfStream)
    );
}

#[test]
fn unused_symbol_rejected() {
    // symbol 286 carries a code (11000110) but is invalid in the alphabet
    let d = fixed_block(true, &|w: &mut BitWriter| {
        w.append_msb_first(198, 8);
        w.append_msb_first(0, 7);
    });
    assert_eq!(inflate(&d), Err(CodecError::InvalidHuffmanCode));
}

#[test]
fn fixed_table_matches_rfc_ranges() {
    let gen = HuffmanCodeGenerator::new_fixed();
    assert_eq!(gen.code(0), 0b00110000);
    assert_eq!(gen.code_len(0), 8);
    assert_eq!(gen.code(143), 0b10111111);
    assert_eq!(gen.code(144), 0b110010000);
    assert_eq!(gen.code_len(144), 9);
    assert_eq!(gen.code(255), 0b111111111);
    assert_eq!(gen.code(256), 0b0000000);
    assert_eq!(gen.code_len(256), 7);
    assert_eq!(gen.code(279), 0b0010111);
    assert_eq!(gen.code(280), 0b11000000);
    assert_eq!(gen.code_len(280), 8);
    assert_eq!(gen.code(287), 0b11000111);
}

#[test]
fn lookup_is_exact_inverse() {
    let gen = HuffmanCodeGenerator::new_fixed();
    for i in 0..288usize {
        let code = gen.code(i);
        let len = gen.code_len(i) as usize;
        assert_eq!(gen.get_code_value(code, len), Some(i as u16));
    }
    assert_eq!(gen.get_code_value(0, 6), None);
    assert_eq!(gen.get_code_value(24, 7), None);
    assert_eq!(gen.get_code_value(47, 8), None);
    assert_eq!(gen.get_code_value(200, 8), None);
    assert_eq!(gen.get_code_value(399, 9), None);
}

#[test]
fn length_table_follows_doubling_rule() {
    assert_eq!(length_code_base(257), 3);
    assert_eq!(length_code_extra(257), 0);
    assert_eq!(length_code_base(264), 10);
    assert_eq!(length_code_base(265), 11);
    assert_eq!(length_code_extra(265), 1);
    assert_eq!(length_code_base(273), 35);
    assert_eq!(length_code_extra(273), 3);
    assert_eq!(length_code_base(284), 227);
    assert_eq!(length_code_extra(284), 5);
    assert_eq!(length_code_base(285), 258);
    assert_eq!(length_code_extra(285), 0);
}

#[test]
fn distance_table_follows_doubling_rule() {
    assert_eq!(distance_code_base(0), 1);
    assert_eq!(distance_code_extra(0), 0);
    assert_eq!(distance_code_base(3), 4);
    assert_eq!(distance_code_base(4), 5);
    assert_eq!(distance_code_extra(4), 1);
    assert_eq!(distance_code_base(14), 129);
    assert_eq!(distance_code_extra(14), 6);
    assert_eq!(distance_code_base(29), 24577);
    assert_eq!(distance_code_extra(29), 13);
}

#[test]
fn bit_cursor_round_trip_both_orders() {
    let mut w = BitWriter::new();
    w.append_lsb_first(0b1011, 4);
    w.append_msb_first(0b110, 3);
    w.append_lsb_first(0x1234, 16);
    let bytes = w.finish();
    let mut r = Inflater::new(&bytes, 0);
    assert_eq!(r.consume_bits_lsb_first(4), Ok(0b1011));
    assert_eq!(r.consume_bits_msb_first(3), Ok(0b110));
    assert_eq!(r.consume_bits_lsb_first(16), Ok(0x1234));
}

#[test]
fn bit_cursor_reports_end_of_stream() {
    let bytes = [0xffu8];
    let mut r = Inflater::new(&bytes, 0);
    assert_eq!(r.consume_bits_lsb_first(8), Ok(0xff));
    assert_eq!(r.consume_bit(), Err(CodecError::UnexpectedEndOfStream));
}

#[test]
fn btype_values_cover_all_kinds() {
    assert_eq!(get_btype(0), Btype::NoCompression);
    assert_eq!(get_btype(1), Btype::CompressedFixed);
    assert_eq!(get_btype(2), Btype::CompressedDynamic);
    assert_eq!(get_btype(3), Btype::Reserved);
}
