//! The block codec: one DEFLATE block of either supported kind.
//!
//! A block starts with a 1-bit final flag and a 2-bit type.  A stored
//! block is byte-aligned: a 16-bit little-endian length, its one's
//! complement as a check, then the raw bytes.  A fixed-Huffman block is
//! a dense bitstream of Huffman codes: literals, back-references and
//! the end-of-block symbol 256.  Decoding of each kind is specified by
//! a spec-level decoder and the executable code proved equal to it.

use vstd::prelude::*;

verus! {

use crate::CodecError;
use crate::bits::{
    stream_bits, lsb_val, msb_val, msb_bits, pack_bits, lemma_lsb_val_bound, Inflater, BitWriter,
};
use crate::huffman::{HuffmanCodeGenerator, spec_consume_code, sym_bits, fixed_code_len};
use crate::tables::{
    length_base, length_extra, dist_base, dist_extra, length_code_base, length_code_extra,
    distance_code_base, distance_code_extra, lemma_length_range, lemma_dist_range,
    lemma_two_pow_values,
};

/// The block kinds of the 2-bit type field.
#[derive(Clone, Copy, Debug, PartialEq, Eq, Structural)]
pub enum Btype {
    NoCompression,
    CompressedFixed,
    CompressedDynamic,
    Reserved,
}

/// The kind named by a 2-bit type value.
pub open spec fn spec_btype(bits: int) -> Btype {
    if bits == 0 {
        Btype::NoCompression
    } else if bits == 1 {
        Btype::CompressedFixed
    } else if bits == 2 {
        Btype::CompressedDynamic
    } else {
        Btype::Reserved
    }
}

/// The kind from a 2-bit type value.
pub fn get_btype(bits: u8) -> (r: Btype)
    requires
        bits < 4,
    ensures
        r == spec_btype(bits as int),
{
    match bits {
        0 => Btype::NoCompression,
        1 => Btype::CompressedFixed,
        2 => Btype::CompressedDynamic,
        _ => Btype::Reserved,
    }
}

/// The 2-bit type value inside a block's first byte.
pub open spec fn spec_btype_bits(b: u8) -> int {
    ((b & 6) >> 1u8) as int
}

/// Whether a block's first byte carries the final-block flag.
pub open spec fn spec_bfinal(b: u8) -> bool {
    b & 1 == 1
}

/// The kind a block header byte names.
pub fn btype_from_byte(b: u8) -> (r: Btype)
    ensures
        r == spec_btype(spec_btype_bits(b)),
{
    proof {
        assert((b & 6) >> 1u8 < 4) by (bit_vector);
    }
    get_btype((b & 6) >> 1)
}

/// The low byte of a 16-bit value.
fn bottom_half_16(n: u16) -> (r: u8)
    ensures
        r as int == n as int % 256,
{
    proof {
        assert((n & 0x00ff) == n % 256 && n % 256 < 256) by (bit_vector);
    }
    (n & 0x00ff) as u8
}

/// The high byte of a 16-bit value.
fn top_half_16(n: u16) -> (r: u8)
    ensures
        r as int == n as int / 256,
{
    proof {
        assert(((n & 0xff00) >> 8u16) == n / 256 && n / 256 < 256) by (bit_vector);
    }
    ((n & 0xff00) >> 8) as u8
}

/// The one's complement of a 16-bit value.
pub open spec fn complement16(len: int) -> int {
    0xffff - len
}

/// The bytes of a stored block: the header byte (final flag only, type
/// bits zero), LEN and NLEN as little-endian 16-bit fields, then the
/// raw data.
pub open spec fn spec_stored_block_bytes(data: Seq<u8>, fin: bool) -> Seq<u8> {
    let len = data.len() as int;
    let nlen = complement16(len);
    seq![
        (if fin {
            1u8
        } else {
            0u8
        }),
        (len % 256) as u8,
        (len / 256) as u8,
        (nlen % 256) as u8,
        (nlen / 256) as u8,
    ] + data
}

/// What decoding a stored block's body (after its header byte) yields:
/// the bytes consumed past `start` and the raw data, a checksum error
/// when NLEN does not complement LEN, and an end-of-stream error when
/// the fields or the data run past the buffer.
pub open spec fn spec_stored_decode(bytes: Seq<u8>, start: int) -> Result<
    (int, Seq<u8>),
    CodecError,
> {
    if start + 4 > bytes.len() {
        Err(CodecError::UnexpectedEndOfStream)
    } else {
        let len = bytes[start] + 256 * bytes[start + 1];
        let nlen = bytes[start + 2] + 256 * bytes[start + 3];
        if nlen != complement16(len as int) {
            Err(CodecError::ChecksumMismatch)
        } else if start + 4 + len > bytes.len() {
            Err(CodecError::UnexpectedEndOfStream)
        } else {
            Ok((4 + len as int, bytes.subrange(start + 4, start + 4 + len)))
        }
    }
}

/// Encode a stored block with the final flag clear; `deflate` sets the
/// flag on the stream's last block.
pub fn deflate_block_no_compression(bytes: &[u8]) -> (r: Result<Vec<u8>, CodecError>)
    requires
        bytes@.len() <= 0xffff,
    ensures
        r is Ok,
        r->Ok_0@ == spec_stored_block_bytes(bytes@, false),
{
    let header: u8 = 0x00;
    let len = bytes.len() as u16;
    let nlen = !len;
    proof {
        assert(!len == 0xffff - len) by (bit_vector);
    }
    let mut data: Vec<u8> = Vec::new();
    data.push(header);
    data.push(bottom_half_16(len));
    data.push(top_half_16(len));
    data.push(bottom_half_16(nlen));
    data.push(top_half_16(nlen));
    data.extend_from_slice(bytes);
    proof {
        assert(data@ =~= spec_stored_block_bytes(bytes@, false));
    }
    Ok(data)
}

/// Decode a stored block's body, `bstart` bytes into `bytes` (the
/// header byte is not part of it): LEN and NLEN, the checksum test,
/// then the raw data; consumed bytes are `4 + LEN`.
pub fn inflate_no_compression(bytes: &[u8], bstart: usize) -> (r: Result<
    (usize, Vec<u8>),
    CodecError,
>)
    ensures
        match spec_stored_decode(bytes@, bstart as int) {
            Ok((consumed, data)) => r is Ok && r->Ok_0.0 as int == consumed && r->Ok_0.1@ == data,
            Err(e) => r == Err::<(usize, Vec<u8>), CodecError>(e),
        },
{
    let n = bytes.len();
    if n < 4 || bstart > n - 4 {
        return Err(CodecError::UnexpectedEndOfStream);
    }
    let len: usize = (bytes[bstart] as usize) + 256 * (bytes[bstart + 1] as usize);
    let nlen: usize = (bytes[bstart + 2] as usize) + 256 * (bytes[bstart + 3] as usize);
    if nlen != 0xffff - len {
        return Err(CodecError::ChecksumMismatch);
    }
    if len > n - (bstart + 4) {
        return Err(CodecError::UnexpectedEndOfStream);
    }
    let mut data: Vec<u8> = Vec::new();
    let mut i: usize = 0;
    while i < len
        invariant
            i <= len,
            n == bytes@.len(),
            bstart + 4 + len <= bytes@.len(),
            data@ == bytes@.subrange(bstart as int + 4, bstart as int + 4 + i),
        decreases len - i,
    {
        data.push(bytes[bstart + 4 + i]);
        proof {
            assert(data@ =~= bytes@.subrange(bstart as int + 4, bstart as int + 4 + i + 1));
        }
        i = i + 1;
    }
    Ok((len + 4, data))
}

/// The output after appending `n` bytes copied from `dist` bytes
/// before the end, one byte at a time: a copy may read bytes it has
/// itself just written, which repeats the pattern.
pub open spec fn copied(s: Seq<u8>, dist: int, n: int) -> Seq<u8>
    decreases n,
{
    if n <= 0 {
        s
    } else {
        let p = copied(s, dist, n - 1);
        p.push(p[p.len() - dist])
    }
}

/// Append `len` bytes read from `dist` bytes before the current end of
/// `out`, byte by byte, so that a reference with `dist < len` repeats
/// the pattern it is writing.
pub fn apply_back_reference(out: &mut Vec<u8>, dist: usize, len: usize)
    requires
        1 <= dist <= old(out)@.len(),
    ensures
        final(out)@ == copied(old(out)@, dist as int, len as int),
{
    let mut i: usize = 0;
    while i < len
        invariant
            i <= len,
            1 <= dist <= old(out)@.len(),
            out@ == copied(old(out)@, dist as int, i as int),
            out@.len() == old(out)@.len() + i,
        decreases len - i,
    {
        let b = out[out.len() - dist];
        out.push(b);
        i = i + 1;
    }
}

/// A back-reference's copy keeps what stood before it and appends the
/// repeating pattern: byte `i` of the appended run is the byte `dist`
/// positions before it, so with `dist < n` the copy reads bytes it has
/// itself just written and the `dist` bytes before the end repeat.
pub proof fn lemma_back_reference_repeats(s: Seq<u8>, dist: int, n: int)
    requires
        1 <= dist <= s.len(),
        0 <= n,
    ensures
        copied(s, dist, n).len() == s.len() + n,
        forall|j: int| 0 <= j < s.len() ==> copied(s, dist, n)[j] == s[j],
        forall|i: int|
            0 <= i < n ==> #[trigger] copied(s, dist, n)[s.len() + i] == s[s.len() - dist + (
            i % dist)],
    decreases n,
{
    if n > 0 {
        lemma_back_reference_repeats(s, dist, n - 1);
        let p = copied(s, dist, n - 1);
        let i = n - 1;
        if i < dist {
            assert(i % dist == i) by (nonlinear_arith)
                requires
                    0 <= i < dist,
            ;
            assert(p[p.len() - dist] == s[s.len() - dist + i]);
        } else {
            assert(p[p.len() - dist] == p[s.len() + (i - dist)]);
            assert(p[s.len() + (i - dist)] == s[s.len() - dist + ((i - dist) % dist)]);
            assert((i - dist) % dist == i % dist) by (nonlinear_arith)
                requires
                    dist >= 1 && i >= dist,
            ;
        }
    }
}

/// Rejection of an overreaching back-reference: when a length code's
/// resolved distance exceeds the bytes produced so far, the block
/// decoder fails with `InvalidBackReference`.
pub proof fn lemma_back_reference_rejected(
    bits: Seq<bool>,
    pos: int,
    out: Seq<u8>,
    sym: u16,
    pos2: int,
)
    requires
        spec_consume_code(bits, pos) == Ok::<(u16, int), CodecError>((sym, pos2)),
        257 <= sym <= 285,
        pos2 + length_extra(sym as int) + 5 <= bits.len(),
        ({
            let pos3 = pos2 + length_extra(sym as int);
            let dcode = msb_val(bits.subrange(pos3, pos3 + 5));
            &&& 0 <= dcode <= 29
            &&& pos3 + 5 + dist_extra(dcode) <= bits.len()
            &&& dist_base(dcode) + lsb_val(
                bits.subrange(pos3 + 5, pos3 + 5 + dist_extra(dcode)),
            ) > out.len()
        }),
    ensures
        spec_decode_fixed(bits, pos, out) == Err::<(int, Seq<u8>), CodecError>(
            CodecError::InvalidBackReference,
        ),
{
}

/// Decoding a literal-only encoding returns exactly the encoded bytes:
/// when the bits at `pos` are the codes of `data`'s bytes followed by
/// the end-of-block code, the block decoder appends `data` and stops
/// right after the end code.
pub proof fn lemma_decode_literals(bits: Seq<bool>, pos: int, data: Seq<u8>, out: Seq<u8>)
    requires
        0 <= pos,
        pos + lit_bits(data).len() + 7 <= bits.len(),
        bits.subrange(pos, pos + lit_bits(data).len() + 7) == lit_bits(data) + sym_bits(256),
    ensures
        spec_decode_fixed(bits, pos, out) == Ok::<(int, Seq<u8>), CodecError>(
            (pos + lit_bits(data).len() + 7, out + data),
        ),
    decreases data.len(),
{
    crate::huffman::lemma_code_in_range(256);
    if data.len() == 0 {
        assert(lit_bits(data) + sym_bits(256) =~= sym_bits(256));
        assert(bits.subrange(pos, pos + 7) == sym_bits(256));
        crate::huffman::lemma_code_decodes(bits, pos, 256);
        assert(out + data =~= out);
    } else {
        let d0 = data[0] as int;
        let rest = data.skip(1);
        let len0 = fixed_code_len(d0);
        crate::huffman::lemma_code_in_range(d0);
        assert(lit_bits(data) == sym_bits(d0) + lit_bits(rest));
        assert(sym_bits(d0).len() == len0);
        assert(bits.subrange(pos, pos + len0) =~= sym_bits(d0)) by {
            let whole = bits.subrange(pos, pos + lit_bits(data).len() + 7);
            assert forall|k: int| 0 <= k < len0 implies bits[pos + k] == sym_bits(d0)[k] by {
                assert(whole[k] == (lit_bits(data) + sym_bits(256))[k]);
            }
        }
        crate::huffman::lemma_code_decodes(bits, pos, d0);
        let pos2 = pos + len0;
        assert(bits.subrange(pos2, pos2 + lit_bits(rest).len() + 7) =~= lit_bits(rest) + sym_bits(
            256,
        )) by {
            let whole = bits.subrange(pos, pos + lit_bits(data).len() + 7);
            assert forall|k: int| 0 <= k < lit_bits(rest).len() + 7 implies bits[pos2 + k] == (
            lit_bits(rest) + sym_bits(256))[k] by {
                assert(whole[len0 + k] == (lit_bits(data) + sym_bits(256))[len0 + k]);
            }
        }
        lemma_decode_literals(bits, pos2, rest, out.push(data[0]));
        assert(out.push(data[0]) + rest =~= out + data);
        assert(spec_decode_fixed(bits, pos, out) == spec_decode_fixed(bits, pos2, out.push(
            data[0],
        )));
    }
}

/// What decoding a fixed-Huffman block's symbol stream from bit
/// position `pos` yields, with `out` the output produced so far (which
/// back-references may reach into): the bit position just past the
/// end-of-block symbol and the extended output, or the first error.
pub open spec fn spec_decode_fixed(bits: Seq<bool>, pos: int, out: Seq<u8>) -> Result<
    (int, Seq<u8>),
    CodecError,
>
    decreases bits.len() - pos,
{
    match spec_consume_code(bits, pos) {
        Err(e) => Err(e),
        Ok((sym, pos2)) => {
            if sym == 256 {
                Ok((pos2, out))
            } else if sym < 256 {
                spec_decode_fixed(bits, pos2, out.push(sym as u8))
            } else if sym <= 285 {
                let eb = length_extra(sym as int);
                if pos2 + eb > bits.len() {
                    Err(CodecError::UnexpectedEndOfStream)
                } else {
                    let len = length_base(sym as int) + lsb_val(bits.subrange(pos2, pos2 + eb));
                    let pos3 = pos2 + eb;
                    if pos3 + 5 > bits.len() {
                        Err(CodecError::UnexpectedEndOfStream)
                    } else {
                        let dcode = msb_val(bits.subrange(pos3, pos3 + 5));
                        let pos4 = pos3 + 5;
                        if dcode > 29 {
                            Err(CodecError::InvalidHuffmanCode)
                        } else {
                            let deb = dist_extra(dcode);
                            if pos4 + deb > bits.len() {
                                Err(CodecError::UnexpectedEndOfStream)
                            } else {
                                let dist = dist_base(dcode) + lsb_val(
                                    bits.subrange(pos4, pos4 + deb),
                                );
                                let pos5 = pos4 + deb;
                                if dist > out.len() {
                                    Err(CodecError::InvalidBackReference)
                                } else {
                                    spec_decode_fixed(bits, pos5, copied(out, dist, len))
                                }
                            }
                        }
                    }
                }
            } else {
                Err(CodecError::InvalidHuffmanCode)
            }
        },
    }
}

/// Decode a fixed-Huffman block whose symbols start at bit
/// `block_data_start` of `bytes`, appending to `out` (whose existing
/// contents back-references may reach); return the whole bytes the
/// block occupies, its final partial byte included.
pub(crate) fn inflate_block_fixed_into(
    bytes: &[u8],
    block_data_start: usize,
    out: &mut Vec<u8>,
    gen: &HuffmanCodeGenerator,
) -> (r: Result<usize, CodecError>)
    requires
        gen.wf(),
        block_data_start < 8,
    ensures
        old(out)@.is_prefix_of(final(out)@),
        match spec_decode_fixed(stream_bits(bytes@), block_data_start as int, old(out)@) {
            Ok((endbit, data)) => r is Ok && r->Ok_0 as int == (endbit + 7) / 8 && final(out)@
                == data,
            Err(e) => r == Err::<usize, CodecError>(e),
        },
{
    let ghost all = stream_bits(bytes@);
    let ghost start = block_data_start as int;
    let ghost out0 = out@;
    if bytes.len() == 0 {
        return Err(CodecError::UnexpectedEndOfStream);
    }
    let mut inflater = Inflater::new(bytes, block_data_start);
    loop
        invariant
            inflater.wf(),
            gen.wf(),
            inflater.data() == bytes@,
            all == stream_bits(bytes@),
            start == block_data_start as int,
            out0 == old(out)@,
            out0.is_prefix_of(out@),
            0 <= inflater.bit_pos() <= 8 * bytes@.len(),
            spec_decode_fixed(all, start, out0) == spec_decode_fixed(
                all,
                inflater.bit_pos(),
                out@,
            ),
        decreases 8 * bytes@.len() - inflater.bit_pos(),
    {
        let ghost pos = inflater.bit_pos();
        let ghost prev_out = out@;
        let value = match inflater.consume_code(gen) {
            Ok(v) => v,
            Err(e) => {
                return Err(e);
            },
        };
        let ghost pos2 = inflater.bit_pos();
        if value == 256 {
            let consumed = inflater.bytes_touched();
            return Ok(consumed);
        } else if value < 256 {
            out.push(value as u8);
        } else if value <= 285 {
            proof {
                lemma_length_range(value as int);
                lemma_dist_range(0);
            }
            let eb = length_code_extra(value);
            let extra = match inflater.consume_bits_lsb_first(eb) {
                Ok(v) => v,
                Err(e) => {
                    return Err(e);
                },
            };
            proof {
                lemma_lsb_val_bound(all.subrange(pos2, pos2 + eb));
                lemma_two_pow_values();
            }
            let length = length_code_base(value) + extra;
            let ghost pos3 = inflater.bit_pos();
            let dcode = match inflater.consume_bits_msb_first(5) {
                Ok(v) => v,
                Err(e) => {
                    return Err(e);
                },
            };
            let ghost pos4 = inflater.bit_pos();
            if dcode > 29 {
                return Err(CodecError::InvalidHuffmanCode);
            }
            proof {
                lemma_dist_range(dcode as int);
            }
            let deb = distance_code_extra(dcode);
            let dextra = match inflater.consume_bits_lsb_first(deb) {
                Ok(v) => v,
                Err(e) => {
                    return Err(e);
                },
            };
            proof {
                lemma_lsb_val_bound(all.subrange(pos4, pos4 + deb));
                lemma_two_pow_values();
            }
            let dist = distance_code_base(dcode) + dextra;
            if (dist as usize) > out.len() {
                return Err(CodecError::InvalidBackReference);
            }
            let ghost before_copy = out@;
            apply_back_reference(out, dist as usize, length as usize);
            proof {
                lemma_back_reference_repeats(before_copy, dist as int, length as int);
                assert(out@.take(before_copy.len() as int) =~= before_copy);
            }
        } else {
            return Err(CodecError::InvalidHuffmanCode);
        }
    }
}

/// A decoded fixed block ends after its first code and within the
/// stream: its end position bounds the bytes it occupies.
pub proof fn lemma_decode_fixed_bounds(bits: Seq<bool>, pos: int, out: Seq<u8>)
    requires
        0 <= pos,
    ensures
        spec_decode_fixed(bits, pos, out) is Ok ==> pos + 7 <= spec_decode_fixed(
            bits,
            pos,
            out,
        )->Ok_0.0 <= bits.len(),
    decreases bits.len() - pos,
{
    match spec_consume_code(bits, pos) {
        Err(e) => {},
        Ok((sym, pos2)) => {
            if sym == 256 {
            } else if sym < 256 {
                lemma_decode_fixed_bounds(bits, pos2, out.push(sym as u8));
            } else if sym <= 285 {
                let eb = length_extra(sym as int);
                if pos2 + eb <= bits.len() {
                    let len = length_base(sym as int) + lsb_val(bits.subrange(pos2, pos2 + eb));
                    let pos3 = pos2 + eb;
                    if pos3 + 5 <= bits.len() {
                        let dcode = msb_val(bits.subrange(pos3, pos3 + 5));
                        let pos4 = pos3 + 5;
                        if dcode <= 29 {
                            let deb = dist_extra(dcode);
                            if pos4 + deb <= bits.len() {
                                let dist = dist_base(dcode) + lsb_val(
                                    bits.subrange(pos4, pos4 + deb),
                                );
                                let pos5 = pos4 + deb;
                                if dist <= out.len() {
                                    assert(dist_extra(dcode) >= 0);
                                    lemma_decode_fixed_bounds(bits, pos5, copied(out, dist, len));
                                }
                            }
                        }
                    }
                }
            }
        },
    }
}

/// The code bits of a run of literal bytes, in order.
pub open spec fn lit_bits(data: Seq<u8>) -> Seq<bool>
    decreases data.len(),
{
    if data.len() == 0 {
        Seq::empty()
    } else {
        sym_bits(data[0] as int) + lit_bits(data.skip(1))
    }
}

/// Literal code bits concatenate as the data does.
pub proof fn lemma_lit_bits_append(a: Seq<u8>, b: Seq<u8>)
    ensures
        lit_bits(a + b) == lit_bits(a) + lit_bits(b),
    decreases a.len(),
{
    if a.len() == 0 {
        assert(a + b =~= b);
        assert(lit_bits(a) + lit_bits(b) =~= lit_bits(b));
    } else {
        assert((a + b).skip(1) =~= a.skip(1) + b);
        lemma_lit_bits_append(a.skip(1), b);
        assert(lit_bits(a + b) =~= lit_bits(a) + lit_bits(b));
    }
}

/// The bits of a fixed-Huffman block that encodes `data` as literals
/// only: the three header bits, one code per byte, the end-of-block
/// code.
pub open spec fn fixed_block_bits(data: Seq<u8>, fin: bool) -> Seq<bool> {
    seq![fin, true, false] + lit_bits(data) + sym_bits(256)
}

/// The bytes of that block, the last byte zero-padded.
pub open spec fn spec_fixed_block_bytes(data: Seq<u8>, fin: bool) -> Seq<u8> {
    pack_bits(fixed_block_bits(data, fin))
}

/// The face a fixed-Huffman block shows the stream decoder: its first
/// byte carries the final flag and the type bits `01`, and its stream
/// bits are the block's bits followed by the final byte's padding.
pub proof fn lemma_fixed_block_front(data: Seq<u8>, fin: bool)
    ensures
        spec_fixed_block_bytes(data, fin).len() == (fixed_block_bits(data, fin).len() + 7) / 8,
        spec_fixed_block_bytes(data, fin).len() >= 2,
        stream_bits(spec_fixed_block_bytes(data, fin)) == fixed_block_bits(data, fin)
            + crate::bits::zero_bits(crate::bits::pad_len(fixed_block_bits(data, fin).len())),
        spec_bfinal(spec_fixed_block_bytes(data, fin)[0]) == fin,
        spec_btype_bits(spec_fixed_block_bytes(data, fin)[0]) == 1,
    decreases data.len(),
{
    let fbits = fixed_block_bits(data, fin);
    let fb = spec_fixed_block_bytes(data, fin);
    crate::bits::lemma_pack_bits_roundtrip(fbits);
    assert(fbits.len() == 10 + lit_bits(data).len());
    assert(fb.len() >= 2) by (nonlinear_arith)
        requires
            fb.len() == (fbits.len() + 7) / 8 && fbits.len() >= 10,
    ;
    let h = fb[0];
    let fstream = stream_bits(fb);
    crate::bits::lemma_stream_bits_index(fb, 0, 0);
    crate::bits::lemma_stream_bits_index(fb, 0, 1);
    crate::bits::lemma_stream_bits_index(fb, 0, 2);
    assert(fb.len() * 8 >= 3) by (nonlinear_arith)
        requires
            fb.len() >= 2,
    ;
    assert(fb == crate::bits::pack_bits(fbits));
    assert(fstream == fbits + crate::bits::zero_bits(crate::bits::pad_len(fbits.len())));
    assert(fstream[0] == fbits[0] && fstream[1] == fbits[1] && fstream[2] == fbits[2]);
    assert(fbits[0] == fin && fbits[1] == true && fbits[2] == false) by {
        let hdr3 = seq![fin, true, false];
        assert(hdr3[0] == fin && hdr3[1] == true && hdr3[2] == false);
        assert(fbits[0] == hdr3[0] && fbits[1] == hdr3[1] && fbits[2] == hdr3[2]);
    }
    assert(fstream[8 * 0int + 0] == crate::bits::bit_of(fb[0], 0));
    assert(fstream[8 * 0int + 1] == crate::bits::bit_of(fb[0], 1));
    assert(fstream[8 * 0int + 2] == crate::bits::bit_of(fb[0], 2));
    assert(crate::bits::bit_of(h, 0) == fin && crate::bits::bit_of(h, 1)
        && !crate::bits::bit_of(h, 2));
    if fin {
        assert(h & 1 == 1 && (h & 6) >> 1u8 == 1) by (bit_vector)
            requires
                crate::bits::bit_of(h, 0) && crate::bits::bit_of(h, 1) && !crate::bits::bit_of(
                    h,
                    2,
                ),
        ;
    } else {
        assert(h & 1 == 0 && (h & 6) >> 1u8 == 1) by (bit_vector)
            requires
                !crate::bits::bit_of(h, 0) && crate::bits::bit_of(h, 1) && !crate::bits::bit_of(
                    h,
                    2,
                ),
        ;
    }
}

/// Encode `data` as one fixed-Huffman block of literal codes.  This
/// encoder never emits back-references; decoders must still accept
/// them, since any conformant encoder may produce them.
pub(crate) fn deflate_fixed_block(
    bytes: &[u8],
    fin: bool,
    gen: &HuffmanCodeGenerator,
) -> (r: Vec<u8>)
    requires
        gen.wf(),
    ensures
        r@ == spec_fixed_block_bytes(bytes@, fin),
{
    let mut writer = BitWriter::new();
    writer.push_bit(fin);
    writer.push_bit(true);
    writer.push_bit(false);
    proof {
        assert(lit_bits(bytes@.take(0)) =~= Seq::<bool>::empty());
        assert(writer@ =~= seq![fin, true, false] + lit_bits(bytes@.take(0)));
    }
    let n = bytes.len();
    let mut i: usize = 0;
    while i < n
        invariant
            i <= n,
            n == bytes@.len(),
            gen.wf(),
            writer.wf(),
            writer@ == seq![fin, true, false] + lit_bits(bytes@.take(i as int)),
        decreases n - i,
    {
        let sym = bytes[i] as usize;
        let code = gen.code(sym);
        let code_len = gen.code_len(sym) as usize;
        writer.append_msb_first(code, code_len);
        proof {
            assert(bytes@.take(i + 1) =~= bytes@.take(i as int) + seq![bytes@[i as int]]);
            lemma_lit_bits_append(bytes@.take(i as int), seq![bytes@[i as int]]);
            assert(lit_bits(seq![bytes@[i as int]]) =~= sym_bits(bytes@[i as int] as int)) by {
                assert(seq![bytes@[i as int]].skip(1) =~= Seq::<u8>::empty());
                assert(lit_bits(seq![bytes@[i as int]].skip(1)) == Seq::<bool>::empty());
                assert(sym_bits(bytes@[i as int] as int) + Seq::<bool>::empty() =~= sym_bits(
                    bytes@[i as int] as int,
                ));
            }
            assert(writer@ =~= seq![fin, true, false] + lit_bits(bytes@.take(i + 1)));
        }
        i = i + 1;
    }
    writer.append_msb_first(0, 7);
    proof {
        assert(bytes@.take(n as int) =~= bytes@);
        assert(sym_bits(256) =~= msb_bits(0u16, 7nat));
        assert(writer@ =~= fixed_block_bits(bytes@, fin));
    }
    writer.finish()
}

/// Encode `bytes` as one fixed-Huffman block with the final flag
/// clear; `deflate` sets the flag on the stream's last block.
pub fn deflate_block_fixed_compression(bytes: &[u8]) -> (r: Result<Vec<u8>, CodecError>)
    ensures
        r is Ok,
        r->Ok_0@ == spec_fixed_block_bytes(bytes@, false),
{
    let hfgen = HuffmanCodeGenerator::new_fixed();
    Ok(deflate_fixed_block(bytes, false, &hfgen))
}

/// Decode one fixed-Huffman block standing on its own: its symbols
/// start at bit `block_data_start` of `bytes`, and its output starts
/// empty.
pub fn inflate_block_fixed_compression(bytes: &[u8], block_data_start: usize) -> (r: Result<
    (usize, Vec<u8>),
    CodecError,
>)
    requires
        block_data_start < 8,
    ensures
        match spec_decode_fixed(stream_bits(bytes@), block_data_start as int, Seq::empty()) {
            Ok((endbit, data)) => r is Ok && r->Ok_0.0 as int == (endbit + 7) / 8 && r->Ok_0.1@
                == data,
            Err(e) => r == Err::<(usize, Vec<u8>), CodecError>(e),
        },
{
    let gen = HuffmanCodeGenerator::new_fixed();
    let mut out: Vec<u8> = Vec::new();
    proof {
        assert(out@ =~= Seq::<u8>::empty());
    }
    match inflate_block_fixed_into(bytes, block_data_start, &mut out, &gen) {
        Ok(consumed) => Ok((consumed, out)),
        Err(e) => Err(e),
    }
}

} // verus!
