//! A codec for a subset of the DEFLATE compressed data format (RFC 1951).
//!
//! The library encodes byte buffers into a sequence of DEFLATE blocks
//! (stored and fixed-Huffman kinds) and decodes such streams back,
//! including LZ77 back-references with overlapping copies.  Every
//! executable function is verified against a specification-level model
//! of the bitstream.

pub mod bits;
pub mod block;
pub mod huffman;
pub mod tables;

use vstd::prelude::*;

verus! {

use crate::bits::stream_bits;
use crate::block::{
    spec_stored_decode, spec_decode_fixed, spec_stored_block_bytes, spec_fixed_block_bytes,
    spec_bfinal, spec_btype_bits, Btype, btype_from_byte, deflate_block_no_compression,
    deflate_fixed_block, inflate_no_compression, inflate_block_fixed_into,
    lemma_decode_fixed_bounds,
};
use crate::huffman::HuffmanCodeGenerator;

/// The ways a `deflate` or `inflate` call can fail on malformed input.
#[derive(Clone, Copy, Debug, PartialEq, Eq, Structural)]
pub enum CodecError {
    /// The block header names the dynamic-Huffman or reserved block kind.
    UnsupportedBlockType,
    /// A stored block's NLEN field is not the one's complement of LEN.
    ChecksumMismatch,
    /// No symbol matches the consumed bits within the maximum code length.
    InvalidHuffmanCode,
    /// A back-reference reaches before the start of the produced output.
    InvalidBackReference,
    /// A read would pass the end of the input buffer.
    UnexpectedEndOfStream,
}

/// How many bytes of the first half go into the leading stored block:
/// half the input, capped at the largest length a stored block's
/// 16-bit LEN field can carry.
pub open spec fn stored_part_len(n: int) -> int {
    if n / 2 > 0xffff {
        0xffff
    } else {
        n / 2
    }
}

/// The stream `deflate` produces: a stored block holding the first
/// part, then a final fixed-Huffman block holding the rest.
pub open spec fn spec_deflate(b: Seq<u8>) -> Seq<u8> {
    spec_stored_block_bytes(b.take(stored_part_len(b.len() as int)), false)
        + spec_fixed_block_bytes(b.skip(stored_part_len(b.len() as int)), true)
}

/// What decoding a whole stream from byte `pos` yields, with `acc` the
/// output of the blocks already decoded: blocks are read until one
/// carries the final flag, and every error of a block decoder is the
/// stream's error.
pub open spec fn spec_inflate_from(bytes: Seq<u8>, pos: int, acc: Seq<u8>) -> Result<
    Seq<u8>,
    CodecError,
>
    decreases bytes.len() - pos,
{
    if pos < 0 || pos >= bytes.len() {
        Err(CodecError::UnexpectedEndOfStream)
    } else {
        let hdr = bytes[pos];
        let fin = spec_bfinal(hdr);
        let bt = spec_btype_bits(hdr);
        if bt == 0 {
            match spec_stored_decode(bytes, pos + 1) {
                Err(e) => Err(e),
                Ok((consumed, data)) => {
                    if fin {
                        Ok(acc + data)
                    } else {
                        spec_inflate_from(bytes, pos + 1 + consumed, acc + data)
                    }
                },
            }
        } else if bt == 1 {
            match spec_decode_fixed(stream_bits(bytes.skip(pos)), 3, acc) {
                Err(e) => Err(e),
                Ok((endbit, data)) => {
                    if fin {
                        Ok(data)
                    } else {
                        let consumed = (endbit + 7) / 8;
                        if consumed < 1 || pos + consumed > bytes.len() {
                            Err(CodecError::UnexpectedEndOfStream)
                        } else {
                            spec_inflate_from(bytes, pos + consumed, data)
                        }
                    }
                },
            }
        } else {
            Err(CodecError::UnsupportedBlockType)
        }
    }
}

/// What decoding a whole stream yields.
pub open spec fn spec_inflate(bytes: Seq<u8>) -> Result<Seq<u8>, CodecError> {
    spec_inflate_from(bytes, 0, Seq::empty())
}

/// A stored block standing at the front of a stream decodes to
/// exactly the data it was built from, consuming `4 + LEN` bytes
/// after the header byte.
proof fn lemma_stored_block_decodes(data: Seq<u8>, fin: bool, stream: Seq<u8>)
    requires
        data.len() <= 0xffff,
        stream.len() >= 5 + data.len(),
        stream.take(5 + data.len() as int) == spec_stored_block_bytes(data, fin),
    ensures
        spec_stored_decode(stream, 1) == Ok::<(int, Seq<u8>), CodecError>(
            (4 + data.len() as int, data),
        ),
{
    let len = data.len() as int;
    let nlen = 0xffff - len;
    let block = spec_stored_block_bytes(data, fin);
    vstd::arithmetic::div_mod::lemma_fundamental_div_mod(len, 256);
    vstd::arithmetic::div_mod::lemma_fundamental_div_mod(nlen, 256);
    assert(0 <= len % 256 < 256 && 0 <= len / 256 < 256 && 0 <= nlen % 256 < 256 && 0 <= nlen / 256
        < 256) by (nonlinear_arith)
        requires
            0 <= len <= 0xffff && nlen == 0xffff - len,
    ;
    assert(stream[1] == block[1] && stream[2] == block[2] && stream[3] == block[3] && stream[4]
        == block[4]) by {
        assert(stream.take(5 + len)[1] == stream[1]);
        assert(stream.take(5 + len)[2] == stream[2]);
        assert(stream.take(5 + len)[3] == stream[3]);
        assert(stream.take(5 + len)[4] == stream[4]);
    }
    assert(stream[1] as int == len % 256 && stream[2] as int == len / 256);
    assert(stream[3] as int == nlen % 256 && stream[4] as int == nlen / 256);
    assert(stream[1] + 256 * stream[2] == len);
    assert(stream[3] + 256 * stream[4] == nlen);
    assert(stream.subrange(5, 5 + len) =~= data) by {
        assert forall|j: int| 0 <= j < len implies stream[5 + j] == data[j] by {
            assert(stream.take(5 + len)[5 + j] == stream[5 + j]);
            assert(block[5 + j] == data[j]);
        }
    }
}

/// Round trip of the stored kind: a final stored block built from any
/// byte sequence short enough for its 16-bit length field decodes to
/// exactly that sequence.
pub proof fn lemma_stored_round_trip(b: Seq<u8>)
    requires
        b.len() <= 0xffff,
    ensures
        spec_inflate(spec_stored_block_bytes(b, true)) == Ok::<Seq<u8>, CodecError>(b),
{
    let bytes = spec_stored_block_bytes(b, true);
    assert(bytes[0] == 1u8);
    assert(1u8 & 1 == 1 && (1u8 & 6) >> 1u8 == 0) by (bit_vector);
    assert(bytes.take(5 + b.len() as int) =~= bytes);
    lemma_stored_block_decodes(b, true, bytes);
    assert(Seq::<u8>::empty() + b =~= b);
}

/// The first step of the round trip: the stream `deflate` builds
/// starts with its stored block, which decodes to the first part and
/// leaves the cursor at the fixed block.
#[verifier::rlimit(100)]
proof fn lemma_round_trip_stored_step(b: Seq<u8>)
    ensures
        spec_inflate(spec_deflate(b)) == spec_inflate_from(
            spec_deflate(b),
            5 + stored_part_len(b.len() as int),
            b.take(stored_part_len(b.len() as int)),
        ),
{
    let n = b.len() as int;
    let k = stored_part_len(n);
    assert(0 <= n / 2 <= n) by (nonlinear_arith)
        requires
            n >= 0,
    ;
    let part1 = b.take(k);
    let part2 = b.skip(k);
    let sb = spec_stored_block_bytes(part1, false);
    let fb = spec_fixed_block_bytes(part2, true);
    let bytes = sb + fb;
    crate::block::lemma_fixed_block_front(part2, true);
    assert(bytes[0] == sb[0] && sb[0] == 0u8);
    assert(0u8 & 1 == 0 && (0u8 & 6) >> 1u8 == 0) by (bit_vector);
    assert(bytes.take(5 + k) =~= sb);
    lemma_stored_block_decodes(part1, false, bytes);
    assert(5 + k < bytes.len());
    assert(Seq::<u8>::empty() + part1 =~= part1);
}

/// The second step of the round trip: from the fixed block on, the
/// stream decodes to the whole input.
#[verifier::rlimit(100)]
proof fn lemma_round_trip_fixed_step(b: Seq<u8>)
    ensures
        spec_inflate_from(
            spec_deflate(b),
            5 + stored_part_len(b.len() as int),
            b.take(stored_part_len(b.len() as int)),
        ) == Ok::<Seq<u8>, CodecError>(b),
{
    let n = b.len() as int;
    let k = stored_part_len(n);
    assert(0 <= n / 2 <= n) by (nonlinear_arith)
        requires
            n >= 0,
    ;
    let part1 = b.take(k);
    let part2 = b.skip(k);
    let sb = spec_stored_block_bytes(part1, false);
    let fb = spec_fixed_block_bytes(part2, true);
    let bytes = sb + fb;
    let pos1 = 5 + k;
    crate::block::lemma_fixed_block_front(part2, true);
    assert(pos1 < bytes.len());
    assert(bytes[pos1] == fb[0]);
    let fstream = stream_bits(fb);
    assert(bytes.skip(pos1) =~= fb);
    assert(fstream.subrange(3, 3 + crate::block::lit_bits(part2).len() as int + 7)
        =~= crate::block::lit_bits(part2) + crate::huffman::sym_bits(256));
    crate::block::lemma_decode_literals(fstream, 3, part2, part1);
    assert(part1 + part2 =~= b);
}

/// Round trip of the whole codec: decompressing what `deflate`
/// produces gives back the original bytes, for every byte sequence.
pub proof fn lemma_round_trip(b: Seq<u8>)
    ensures
        spec_inflate(spec_deflate(b)) == Ok::<Seq<u8>, CodecError>(b),
{
    lemma_round_trip_stored_step(b);
    lemma_round_trip_fixed_step(b);
}

/// Rejection of a corrupt stored block: when the NLEN field is not the
/// one's complement of LEN, decoding fails with a checksum mismatch.
pub proof fn lemma_checksum_mismatch_rejected(bytes: Seq<u8>)
    requires
        bytes.len() >= 5,
        spec_btype_bits(bytes[0]) == 0,
        bytes[3] + 256 * bytes[4] != 0xffff - (bytes[1] + 256 * bytes[2]),
    ensures
        spec_inflate(bytes) == Err::<Seq<u8>, CodecError>(CodecError::ChecksumMismatch),
{
}

/// Rejection of the block kinds this codec does not implement: a
/// header naming the dynamic-Huffman or reserved kind fails at once.
pub proof fn lemma_unsupported_type_rejected(bytes: Seq<u8>)
    requires
        bytes.len() >= 1,
        spec_btype_bits(bytes[0]) == 2 || spec_btype_bits(bytes[0]) == 3,
    ensures
        spec_inflate(bytes) == Err::<Seq<u8>, CodecError>(CodecError::UnsupportedBlockType),
{
}

/// Compress `bytes` into a DEFLATE stream: a stored block with the
/// first part, then a final fixed-Huffman block with the rest.
pub fn deflate(bytes: &[u8]) -> (r: Result<Vec<u8>, CodecError>)
    ensures
        r is Ok,
        r->Ok_0@ == spec_deflate(bytes@),
{
    let mut block_size = bytes.len() / 2;
    if block_size > 0xffff {
        block_size = 0xffff;
    }
    let part1 = &bytes[0..block_size];
    let mut blocks = match deflate_block_no_compression(part1) {
        Ok(b) => b,
        Err(e) => {
            return Err(e);
        },
    };
    let part2 = &bytes[block_size..bytes.len()];
    let gen = HuffmanCodeGenerator::new_fixed();
    let mut block = deflate_fixed_block(part2, true, &gen);
    blocks.append(&mut block);
    proof {
        assert(bytes@.subrange(0, stored_part_len(bytes@.len() as int)) =~= bytes@.take(
            stored_part_len(bytes@.len() as int),
        ));
        assert(bytes@.subrange(
            stored_part_len(bytes@.len() as int),
            bytes@.len() as int,
        ) =~= bytes@.skip(stored_part_len(bytes@.len() as int)));
    }
    Ok(blocks)
}

/// Decompress a DEFLATE stream: decode blocks, appending each block's
/// output to the buffer later back-references read from, until the
/// final-block flag stops the loop.
pub fn inflate(bytes: &[u8]) -> (r: Result<Vec<u8>, CodecError>)
    ensures
        match spec_inflate(bytes@) {
            Ok(data) => r is Ok && r->Ok_0@ == data,
            Err(e) => r == Err::<Vec<u8>, CodecError>(e),
        },
{
    let gen = HuffmanCodeGenerator::new_fixed();
    let mut output: Vec<u8> = Vec::new();
    let mut bstart: usize = 0;
    proof {
        assert(output@ =~= Seq::<u8>::empty());
    }
    loop
        invariant
            gen.wf(),
            0 <= bstart <= bytes@.len(),
            spec_inflate(bytes@) == spec_inflate_from(bytes@, bstart as int, output@),
        decreases bytes@.len() - bstart,
    {
        if bstart >= bytes.len() {
            return Err(CodecError::UnexpectedEndOfStream);
        }
        let hdr = bytes[bstart];
        let is_final_block = (hdr & 0x01) != 0;
        proof {
            assert((hdr & 1) == 1 || (hdr & 1) == 0) by (bit_vector);
        }
        let btype = btype_from_byte(hdr);
        proof {
            assert(((hdr & 6) >> 1u8) < 4) by (bit_vector);
        }
        match btype {
            Btype::NoCompression => {
                let (consumed, mut block) = match inflate_no_compression(bytes, bstart + 1) {
                    Ok(p) => p,
                    Err(e) => {
                        return Err(e);
                    },
                };
                output.append(&mut block);
                if is_final_block {
                    return Ok(output);
                }
                bstart = bstart + 1 + consumed;
            },
            Btype::CompressedFixed => {
                let remaining_bytes = &bytes[bstart..bytes.len()];
                proof {
                    assert(remaining_bytes@ =~= bytes@.skip(bstart as int));
                    lemma_decode_fixed_bounds(stream_bits(remaining_bytes@), 3, output@);
                }
                let consumed = match inflate_block_fixed_into(
                    remaining_bytes,
                    3,
                    &mut output,
                    &gen,
                ) {
                    Ok(c) => c,
                    Err(e) => {
                        return Err(e);
                    },
                };
                if is_final_block {
                    return Ok(output);
                }
                bstart = bstart + consumed;
            },
            _ => {
                return Err(CodecError::UnsupportedBlockType);
            },
        }
    }
}

} // verus!
