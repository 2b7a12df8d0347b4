use deflate::block::{
    btype_from_byte, deflate_block_fixed_compression, deflate_block_no_compression,
    inflate_block_fixed_compression, inflate_no_compression, Btype,
};
use deflate::{deflate, inflate};

const SIMPLE_STR: &str = "a very normal string. some might say it's the normalest string you've ever seen
        but ok to be honest, we're not 100% sure bout that. there is still some ongoing research. but we're
        kinda sorta right there. almost there. i can say this is a very normal string confidently.";

#[test]
fn no_compression() {
    let s = SIMPLE_STR;
    let s_bytes = s.as_bytes();
    let d = deflate_block_no_compression(s_bytes).unwrap();
    let bytes_without_header = &d[1..];
    let (consumed, got) = inflate_no_compression(bytes_without_header, 0).unwrap();
    assert_eq!(consumed, bytes_without_header.len());
    let got = std::str::from_utf8(&got).unwrap();
    assert_eq!(s, got);
}

#[test]
fn fixed_compression() {
    let s = SIMPLE_STR;
    let s_bytes = s.as_bytes();
    println!("{s_bytes:?}");
    let d = deflate_block_fixed_compression(s_bytes).unwrap();
    for b in d.iter() {
        println!("{b:0>8b} ");
    }
    let header = d[0];
    assert_eq!(btype_from_byte(header), Btype::CompressedFixed);
    let (consumed, s2_bytes) = inflate_block_fixed_compression(&d, 3).unwrap();
    assert_eq!(s_bytes, s2_bytes);
    assert_eq!(d.len(), consumed);
}

#[test]
fn sanity() {
    let s = SIMPLE_STR;
    let s_bytes = s.as_bytes();
    let d = deflate(s_bytes).unwrap();
    let i = inflate(&d).unwrap();
    let s2 = std::str::from_utf8(&i).unwrap();
    assert_eq!(s2, s);
}

#[test]
fn round_trip_empty() {
    let d = deflate(&[]).unwrap();
    let i = inflate(&d).unwrap();
    assert_eq!(i, Vec::<u8>::new());
}

#[test]
fn round_trip_single_byte() {
    let d = deflate(&[42u8]).unwrap();
    let i = inflate(&d).unwrap();
    assert_eq!(i, vec![42u8]);
}

#[test]
fn round_trip_repeated_patterns() {
    let mut input: Vec<u8> = Vec::new();
    for i in 0..1000usize {
        input.push((i % 7) as u8);
        input.push(b'z');
    }
    let d = deflate(&input).unwrap();
    let i = inflate(&d).unwrap();
    assert_eq!(i, input);
}

#[test]
fn round_trip_all_byte_values() {
    let mut input: Vec<u8> = Vec::new();
    for b in 0..=255u8 {
        input.push(b);
    }
    let d = deflate(&input).unwrap();
    let i = inflate(&d).unwrap();
    assert_eq!(i, input);
}

#[test]
fn round_trip_large_input() {
    // long enough that half the input would overflow a stored block's
    // 16-bit length field, so the fixed block carries the excess
    let mut input: Vec<u8> = Vec::new();
    for i in 0..200_000usize {
        input.push((i * 31 % 251) as u8);
    }
    let d = deflate(&input).unwrap();
    let i = inflate(&d).unwrap();
    assert_eq!(i, input);
}

#[test]
fn stored_block_scenario() {
    // a single stored block: one header byte, then 4 + 21 bytes
    let input = b"a very normal string.";
    assert_eq!(input.len(), 21);
    let mut d = deflate_block_no_compression(input).unwrap();
    assert_eq!(d.len(), 1 + 4 + 21);
    assert_eq!(d[0], 0x00);
    assert_eq!(d[1], 21);
    assert_eq!(d[2], 0);
    assert_eq!(d[3], 0xff - 21);
    assert_eq!(d[4], 0xff);
    let (consumed, got) = inflate_no_compression(&d[1..], 0).unwrap();
    assert_eq!(consumed, 4 + 21);
    assert_eq!(got, input.to_vec());
    // the same block with the final flag set decodes as a whole stream
    d[0] |= 0x01;
    let out = inflate(&d).unwrap();
    assert_eq!(out, input.to_vec());
}
