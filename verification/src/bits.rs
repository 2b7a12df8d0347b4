//! The bit-level model of a DEFLATE stream and the two cursors over it.
//!
//! A byte buffer is viewed as a flat sequence of bits, least-significant
//! bit of each byte first (`stream_bits`).  Huffman code patterns are
//! packed into that sequence most-significant bit of the pattern first
//! (`msb_bits`), while length fields and extra bits are packed least
//! significant bit first (`lsb_bits`).  `BitWriter` appends bits and
//! `Inflater` consumes them; both are specified against `stream_bits`.

use vstd::prelude::*;

verus! {

use crate::CodecError;
use crate::huffman::{HuffmanCodeGenerator, lookup_spec, spec_consume_code};

/// True when bit `k` (counting from the least significant) of `b` is set.
pub open spec fn bit_of(b: u8, k: int) -> bool {
    (b >> (k as u8)) & 1 == 1
}

/// The bits of a byte buffer as one flat sequence, least-significant
/// bit of each byte first.
pub open spec fn stream_bits(bytes: Seq<u8>) -> Seq<bool> {
    Seq::new(bytes.len() * 8, |i: int| bit_of(bytes[i / 8], i % 8))
}

/// The low `n` bits of `v`, least significant first.
pub open spec fn lsb_bits(v: u16, n: nat) -> Seq<bool> {
    Seq::new(n, |i: int| (v >> (i as u16)) & 1 == 1)
}

/// The low `n` bits of `v`, most significant of the `n` first.
pub open spec fn msb_bits(v: u16, n: nat) -> Seq<bool> {
    Seq::new(n, |i: int| (v >> ((n - 1 - i) as u16)) & 1 == 1)
}

/// The value of a bit sequence read least-significant bit first.
pub open spec fn lsb_val(bits: Seq<bool>) -> int
    decreases bits.len(),
{
    if bits.len() == 0 {
        0
    } else {
        (if bits[0] {
            1int
        } else {
            0int
        }) + 2 * lsb_val(bits.skip(1))
    }
}

/// The value of a bit sequence read most-significant bit first,
/// the order in which a decoder accumulates a Huffman code.
pub open spec fn msb_val(bits: Seq<bool>) -> int
    decreases bits.len(),
{
    if bits.len() == 0 {
        0
    } else {
        2 * msb_val(bits.drop_last()) + (if bits.last() {
            1int
        } else {
            0int
        })
    }
}

/// Two to the power `e`, by the doubling rule.
pub open spec fn two_pow(e: int) -> int
    decreases e,
{
    if e <= 0 {
        1
    } else {
        2 * two_pow(e - 1)
    }
}

/// A bit sequence's value is bounded by two to its length.
pub proof fn lemma_lsb_val_bound(bits: Seq<bool>)
    ensures
        0 <= lsb_val(bits) < two_pow(bits.len() as int),
    decreases bits.len(),
{
    if bits.len() > 0 {
        lemma_lsb_val_bound(bits.skip(1));
    }
}

/// Bit `i` of a bit sequence as 0 or 1, with 0 past either end.
pub open spec fn bit01(bits: Seq<bool>, i: int) -> u8 {
    if 0 <= i < bits.len() && bits[i] {
        1
    } else {
        0
    }
}

/// The byte whose bits are `bits[j..j + 8]`, zero-padded past the end.
pub open spec fn byte_at(bits: Seq<bool>, j: int) -> u8 {
    bit01(bits, j) | (bit01(bits, j + 1) << 1) | (bit01(bits, j + 2) << 2) | (bit01(bits, j + 3)
        << 3) | (bit01(bits, j + 4) << 4) | (bit01(bits, j + 5) << 5) | (bit01(bits, j + 6) << 6)
        | (bit01(bits, j + 7) << 7)
}

/// The number of padding bits that align `n` bits to a byte boundary.
pub open spec fn pad_len(n: nat) -> nat {
    ((8 - n % 8) % 8) as nat
}

/// The bit sequence packed into bytes, the final partial byte padded
/// with zero bits.
pub open spec fn pack_bits(bits: Seq<bool>) -> Seq<u8> {
    Seq::new((bits.len() + 7) / 8, |i: int| byte_at(bits, 8 * i))
}

/// A run of `n` zero bits.
pub open spec fn zero_bits(n: nat) -> Seq<bool> {
    Seq::new(n, |i: int| false)
}

/// Building a byte from eight 0-or-1 values and taking a bit back are
/// inverse operations.
proof fn lemma_byte_build_bits(b0: u8, b1: u8, b2: u8, b3: u8, b4: u8, b5: u8, b6: u8, b7: u8)
    by (bit_vector)
    requires
        b0 <= 1 && b1 <= 1 && b2 <= 1 && b3 <= 1 && b4 <= 1 && b5 <= 1 && b6 <= 1 && b7 <= 1,
    ensures
        ((b0 | (b1 << 1) | (b2 << 2) | (b3 << 3) | (b4 << 4) | (b5 << 5) | (b6 << 6) | (b7 << 7))
            >> 0) & 1 == b0,
        ((b0 | (b1 << 1) | (b2 << 2) | (b3 << 3) | (b4 << 4) | (b5 << 5) | (b6 << 6) | (b7 << 7))
            >> 1) & 1 == b1,
        ((b0 | (b1 << 1) | (b2 << 2) | (b3 << 3) | (b4 << 4) | (b5 << 5) | (b6 << 6) | (b7 << 7))
            >> 2) & 1 == b2,
        ((b0 | (b1 << 1) | (b2 << 2) | (b3 << 3) | (b4 << 4) | (b5 << 5) | (b6 << 6) | (b7 << 7))
            >> 3) & 1 == b3,
        ((b0 | (b1 << 1) | (b2 << 2) | (b3 << 3) | (b4 << 4) | (b5 << 5) | (b6 << 6) | (b7 << 7))
            >> 4) & 1 == b4,
        ((b0 | (b1 << 1) | (b2 << 2) | (b3 << 3) | (b4 << 4) | (b5 << 5) | (b6 << 6) | (b7 << 7))
            >> 5) & 1 == b5,
        ((b0 | (b1 << 1) | (b2 << 2) | (b3 << 3) | (b4 << 4) | (b5 << 5) | (b6 << 6) | (b7 << 7))
            >> 6) & 1 == b6,
        ((b0 | (b1 << 1) | (b2 << 2) | (b3 << 3) | (b4 << 4) | (b5 << 5) | (b6 << 6) | (b7 << 7))
            >> 7) & 1 == b7,
{
}

/// Each bit of `byte_at(bits, j)` is the corresponding bit of `bits`.
pub proof fn lemma_byte_at_bit(bits: Seq<bool>, j: int, k: int)
    requires
        0 <= k < 8,
    ensures
        bit_of(byte_at(bits, j), k) == (0 <= j + k < bits.len() && bits[j + k]),
{
    lemma_byte_build_bits(
        bit01(bits, j),
        bit01(bits, j + 1),
        bit01(bits, j + 2),
        bit01(bits, j + 3),
        bit01(bits, j + 4),
        bit01(bits, j + 5),
        bit01(bits, j + 6),
        bit01(bits, j + 7),
    );
}

/// A byte equals the byte rebuilt from its own eight bits.
proof fn lemma_byte_rebuild(b: u8)
    by (bit_vector)
    ensures
        b == (((b >> 0) & 1) | (((b >> 1) & 1) << 1) | (((b >> 2) & 1) << 2) | (((b >> 3) & 1)
            << 3) | (((b >> 4) & 1) << 4) | (((b >> 5) & 1) << 5) | (((b >> 6) & 1) << 6) | (((b
            >> 7) & 1) << 7)),
{
}

/// Two bytes that agree on all eight bits are equal.
pub proof fn lemma_u8_bit_ext(x: u8, y: u8)
    requires
        forall|k: int| 0 <= k < 8 ==> bit_of(x, k) == bit_of(y, k),
    ensures
        x == y,
{
    assert forall|k: u8| k < 8 implies (x >> k) & 1 == (y >> k) & 1 by {
        assert(bit_of(x, k as int) == bit_of(y, k as int));
        assert(((x >> k) & 1 == 1 || (x >> k) & 1 == 0) && ((y >> k) & 1 == 1 || (y >> k) & 1
            == 0)) by (bit_vector);
    }
    lemma_byte_rebuild(x);
    lemma_byte_rebuild(y);
    assert((x >> 0) & 1 == (y >> 0) & 1 && (x >> 1) & 1 == (y >> 1) & 1 && (x >> 2) & 1 == (y >> 2)
        & 1 && (x >> 3) & 1 == (y >> 3) & 1 && (x >> 4) & 1 == (y >> 4) & 1 && (x >> 5) & 1 == (y
        >> 5) & 1 && (x >> 6) & 1 == (y >> 6) & 1 && (x >> 7) & 1 == (y >> 7) & 1);
}

/// The bit at a position inside the byte at index `b` of the stream.
pub proof fn lemma_stream_bits_index(bytes: Seq<u8>, b: int, k: int)
    requires
        0 <= b < bytes.len(),
        0 <= k < 8,
    ensures
        stream_bits(bytes)[8 * b + k] == bit_of(bytes[b], k),
{
    assert((8 * b + k) / 8 == b && (8 * b + k) % 8 == k) by (nonlinear_arith)
        requires
            0 <= b && 0 <= k < 8,
    ;
    assert(8 * b + k < bytes.len() * 8) by (nonlinear_arith)
        requires
            b < bytes.len() && k < 8,
    ;
}

/// The bits of a concatenation are the concatenated bits.
pub proof fn lemma_stream_bits_concat(a: Seq<u8>, b: Seq<u8>)
    ensures
        stream_bits(a + b) == stream_bits(a) + stream_bits(b),
{
    let lhs = stream_bits(a + b);
    let rhs = stream_bits(a) + stream_bits(b);
    assert((a + b).len() * 8 == a.len() * 8 + b.len() * 8) by (nonlinear_arith)
        requires
            (a + b).len() == a.len() + b.len(),
    ;
    assert forall|i: int| 0 <= i < lhs.len() implies lhs[i] == rhs[i] by {
        assert(0 <= i / 8 && i / 8 * 8 + i % 8 == i && 0 <= i % 8 < 8) by (nonlinear_arith)
            requires
                0 <= i,
        ;
        if i < a.len() * 8 {
            assert(i / 8 < a.len()) by (nonlinear_arith)
                requires
                    i < a.len() * 8 && i / 8 * 8 + i % 8 == i && 0 <= i % 8 < 8,
            ;
            assert((a + b)[i / 8] == a[i / 8]);
        } else {
            assert(a.len() <= i / 8 < a.len() + b.len()) by (nonlinear_arith)
                requires
                    a.len() * 8 <= i < (a.len() + b.len()) * 8 && i / 8 * 8 + i % 8 == i && 0 <= i
                        % 8 < 8,
            ;
            assert((a + b)[i / 8] == b[i / 8 - a.len()]);
            let j = i - a.len() * 8;
            assert(j / 8 == i / 8 - a.len() && j % 8 == i % 8) by (nonlinear_arith)
                requires
                    i / 8 * 8 + i % 8 == i && 0 <= i % 8 < 8 && a.len() <= i / 8 && j == i - a.len()
                        * 8,
            ;
            assert(rhs[i] == stream_bits(b)[j]);
        }
    }
    assert(lhs =~= rhs);
}

/// Packing bits into bytes and reading the stream back yields the same
/// bits followed by the zero padding of the final byte.
pub proof fn lemma_pack_bits_roundtrip(bits: Seq<bool>)
    ensures
        stream_bits(pack_bits(bits)) == bits + zero_bits(pad_len(bits.len())),
{
    let packed = pack_bits(bits);
    let n = bits.len() as int;
    let rhs = bits + zero_bits(pad_len(bits.len()));
    assert(packed.len() == (n + 7) / 8);
    assert(packed.len() * 8 == n + pad_len(bits.len())) by (nonlinear_arith)
        requires
            packed.len() == (n + 7) / 8 && n >= 0 && pad_len(bits.len()) == ((8 - (bits.len() as int)
                % 8) % 8) && n == bits.len(),
    ;
    assert forall|i: int| 0 <= i < packed.len() * 8 implies stream_bits(packed)[i] == rhs[i] by {
        assert(0 <= i / 8 && i / 8 * 8 + i % 8 == i && 0 <= i % 8 < 8) by (nonlinear_arith)
            requires
                0 <= i,
        ;
        assert(i / 8 < packed.len()) by (nonlinear_arith)
            requires
                i < packed.len() * 8 && i / 8 * 8 + i % 8 == i && 0 <= i % 8 < 8,
        ;
        assert(stream_bits(packed)[i] == bit_of(packed[i / 8], i % 8));
        assert(packed[i / 8] == byte_at(bits, 8 * (i / 8)));
        lemma_byte_at_bit(bits, 8 * (i / 8), i % 8);
        assert(8 * (i / 8) + i % 8 == i);
        assert(bit_of(packed[i / 8], i % 8) == (0 <= i < bits.len() && bits[i]));
    }
    assert(stream_bits(packed) =~= rhs);
}

/// Appending one bit multiplies the most-significant-first value by two.
pub proof fn lemma_msb_val_push(bits: Seq<bool>, b: bool)
    ensures
        msb_val(bits.push(b)) == 2 * msb_val(bits) + (if b {
            1int
        } else {
            0int
        }),
{
    assert(bits.push(b).drop_last() =~= bits);
    assert(bits.push(b).last() == b);
}

/// Reading the least-significant-first bits of a value gives the value
/// back, for values that fit in the width read.
pub proof fn lemma_lsb_bits_roundtrip(v: u16, n: nat)
    requires
        n <= 16,
        v < (1u32 << (n as u32)) || n == 16,
    ensures
        lsb_val(lsb_bits(v, n)) == v,
    decreases n,
{
    if n == 0 {
        let nn = n as u32;
        assert(v < 1) by (bit_vector)
            requires
                v < (1u32 << nn) && nn == 0,
        ;
    } else {
        let m = (n - 1) as nat;
        assert(lsb_bits(v, n).skip(1) =~= lsb_bits(v >> 1, m)) by {
            assert forall|i: int| 0 <= i < m implies lsb_bits(v, n)[i + 1] == lsb_bits(
                v >> 1,
                m,
            )[i] by {
                let k = i as u16;
                assert((v >> (k + 1)) & 1 == ((v >> 1) >> k) & 1) by (bit_vector);
                assert(((i + 1) as u16) == k + 1);
            }
        }
        if n == 16 {
            assert((v >> 1) < (1u32 << 15u32)) by (bit_vector);
        } else {
            let nn = n as u32;
            let m32 = (n - 1) as u32;
            assert((v >> 1) < (1u32 << m32)) by (bit_vector)
                requires
                    v < (1u32 << nn) && nn == m32 + 1 && m32 <= 15,
            ;
        }
        lemma_lsb_bits_roundtrip(v >> 1, m);
        assert(lsb_bits(v, n)[0] == ((v >> 0) & 1 == 1));
        assert((v >> 0) & 1 == 0 || (v >> 0) & 1 == 1) by (bit_vector);
        assert(v == 2 * (v >> 1) + ((v >> 0) & 1)) by (bit_vector);
    }
}

/// Reading the most-significant-first bits of a value gives the value
/// back, for values that fit in the width read.
pub proof fn lemma_msb_bits_roundtrip(v: u16, n: nat)
    requires
        n <= 16,
        v < (1u32 << (n as u32)) || n == 16,
    ensures
        msb_val(msb_bits(v, n)) == v,
    decreases n,
{
    if n == 0 {
        let nn = n as u32;
        assert(v < 1) by (bit_vector)
            requires
                v < (1u32 << nn) && nn == 0,
        ;
    } else {
        let m = (n - 1) as nat;
        assert(msb_bits(v, n).drop_last() =~= msb_bits(v >> 1, m)) by {
            assert forall|i: int| 0 <= i < m implies msb_bits(v, n)[i] == msb_bits(v >> 1, m)[i] by {
                let k = (m - 1 - i) as u16;
                assert((v >> (k + 1)) & 1 == ((v >> 1) >> k) & 1) by (bit_vector);
                assert(((n - 1 - i) as u16) == k + 1);
            }
        }
        if n == 16 {
            assert((v >> 1) < (1u32 << 15u32)) by (bit_vector);
        } else {
            let nn = n as u32;
            let m32 = (n - 1) as u32;
            assert((v >> 1) < (1u32 << m32)) by (bit_vector)
                requires
                    v < (1u32 << nn) && nn == m32 + 1 && m32 <= 15,
            ;
        }
        lemma_msb_bits_roundtrip(v >> 1, m);
        assert(msb_bits(v, n).last() == ((v >> 0) & 1 == 1));
        assert((v >> 0) & 1 == 0 || (v >> 0) & 1 == 1) by (bit_vector);
        assert(v == 2 * (v >> 1) + ((v >> 0) & 1)) by (bit_vector);
    }
}

/// The first `l` bits of an `n`-bit most-significant-first pattern are
/// the `l`-bit pattern of the value shifted right by `n - l`.
pub proof fn lemma_msb_bits_prefix(v: u16, n: nat, l: nat)
    requires
        l <= n <= 16,
    ensures
        msb_bits(v, n).take(l as int) == msb_bits(v >> ((n - l) as u16), l),
{
    assert forall|i: int| 0 <= i < l implies msb_bits(v, n)[i] == msb_bits(
        v >> ((n - l) as u16),
        l,
    )[i] by {
        let k = (l - 1 - i) as u16;
        let d = (n - l) as u16;
        assert((v >> (d + k)) & 1 == ((v >> d) >> k) & 1) by (bit_vector);
        assert(((n - 1 - i) as u16) == d + k);
    }
    assert(msb_bits(v, n).take(l as int) =~= msb_bits(v >> ((n - l) as u16), l));
}

/// The bits of a single byte.
pub proof fn lemma_stream_bits_one(b: u8)
    ensures
        stream_bits(seq![b]) == Seq::new(8, |k: int| bit_of(b, k)),
{
    assert forall|i: int| 0 <= i < 8 implies stream_bits(seq![b])[i] == bit_of(b, i) by {
        lemma_stream_bits_index(seq![b], 0, i);
    }
    assert(stream_bits(seq![b]) =~= Seq::new(8, |k: int| bit_of(b, k)));
}

/// A writer that packs bits into bytes, least-significant bit of each
/// byte first.  Its view is the sequence of bits appended so far.
pub struct BitWriter {
    out: Vec<u8>,
    cur: u8,
    nbits: usize,
}

impl View for BitWriter {
    type V = Seq<bool>;

    closed spec fn view(&self) -> Seq<bool> {
        stream_bits(self.out@) + Seq::new(self.nbits as nat, |k: int| bit_of(self.cur, k))
    }
}

impl BitWriter {
    /// The partial byte holds fewer than eight bits and nothing above them.
    pub closed spec fn wf(self) -> bool {
        self.nbits < 8 && (self.cur >> (self.nbits as u8)) == 0
    }

    /// An empty writer.
    pub fn new() -> (r: BitWriter)
        ensures
            r.wf(),
            r@ == Seq::<bool>::empty(),
    {
        let r = BitWriter { out: Vec::new(), cur: 0, nbits: 0 };
        proof {
            assert(0u8 >> 0u8 == 0u8) by (bit_vector);
            assert(r@ =~= Seq::<bool>::empty());
        }
        r
    }

    /// Append a single bit.
    pub fn push_bit(&mut self, b: bool)
        requires
            old(self).wf(),
        ensures
            final(self).wf(),
            final(self)@ == old(self)@.push(b),
    {
        let ghost prev = *self;
        let n = self.nbits as u8;
        if b {
            self.cur = self.cur | (1u8 << n);
        }
        proof {
            let c = prev.cur;
            let c2 = self.cur;
            assert forall|k: int| 0 <= k < prev.nbits implies bit_of(c2, k) == bit_of(c, k) by {
                let ku = k as u8;
                assert(((c | (1u8 << n)) >> ku) & 1 == (c >> ku) & 1) by (bit_vector)
                    requires
                        ku < n && n < 8,
                ;
            }
            if b {
                assert(((c | (1u8 << n)) >> n) & 1 == 1) by (bit_vector)
                    requires
                        n < 8,
                ;
            } else {
                assert((c >> n) & 1 == 0) by (bit_vector)
                    requires
                        c >> n == 0,
                ;
            }
            assert(((c | (1u8 << n)) >> (n + 1)) == (c >> (n + 1))) by (bit_vector)
                requires
                    n < 8,
            ;
            assert(c >> (n + 1) == 0) by (bit_vector)
                requires
                    c >> n == 0 && n < 8,
            ;
        }
        self.nbits = self.nbits + 1;
        if self.nbits == 8 {
            let full = self.cur;
            self.out.push(full);
            self.cur = 0;
            self.nbits = 0;
            proof {
                assert(self.out@ =~= prev.out@ + seq![full]);
                lemma_stream_bits_concat(prev.out@, seq![full]);
                lemma_stream_bits_one(full);
                assert(0u8 >> 0u8 == 0u8) by (bit_vector);
                assert(self@ =~= prev@.push(b));
            }
        } else {
            proof {
                assert(self@ =~= prev@.push(b));
            }
        }
    }

    /// Append the low `n` bits of `v`, least significant first: the
    /// packing DEFLATE uses for length fields and extra bits.
    pub fn append_lsb_first(&mut self, v: u16, n: usize)
        requires
            old(self).wf(),
            n <= 16,
        ensures
            final(self).wf(),
            final(self)@ == old(self)@ + lsb_bits(v, n as nat),
    {
        let ghost start = old(self)@;
        let mut i: usize = 0;
        while i < n
            invariant
                i <= n <= 16,
                self.wf(),
                self@ == start + lsb_bits(v, i as nat),
            decreases n - i,
        {
            let bit = (v >> (i as u16)) & 1 == 1;
            self.push_bit(bit);
            proof {
                assert(lsb_bits(v, (i + 1) as nat) =~= lsb_bits(v, i as nat).push(bit));
            }
            i = i + 1;
        }
        proof {
            assert(self@ =~= start + lsb_bits(v, n as nat));
        }
    }

    /// Append the low `n` bits of `v`, most significant of the `n`
    /// first: the packing DEFLATE uses for Huffman code patterns.
    pub fn append_msb_first(&mut self, v: u16, n: usize)
        requires
            old(self).wf(),
            n <= 16,
        ensures
            final(self).wf(),
            final(self)@ == old(self)@ + msb_bits(v, n as nat),
    {
        let ghost start = old(self)@;
        let mut i: usize = 0;
        while i < n
            invariant
                i <= n <= 16,
                self.wf(),
                self@ == start + msb_bits(v, n as nat).take(i as int),
            decreases n - i,
        {
            let bit = (v >> ((n - 1 - i) as u16)) & 1 == 1;
            self.push_bit(bit);
            proof {
                assert(msb_bits(v, n as nat).take((i + 1) as int) =~= msb_bits(
                    v,
                    n as nat,
                ).take(i as int).push(bit));
            }
            i = i + 1;
        }
        proof {
            assert(msb_bits(v, n as nat).take(n as int) =~= msb_bits(v, n as nat));
        }
    }

    /// Close the writer, zero-padding the final partial byte.
    pub fn finish(self) -> (r: Vec<u8>)
        requires
            self.wf(),
        ensures
            r@ == pack_bits(self@),
    {
        let BitWriter { mut out, cur, nbits } = self;
        let ghost view = stream_bits(out@) + Seq::new(nbits as nat, |k: int| bit_of(cur, k));
        let ghost l = out@.len() as int;
        if nbits > 0 {
            let ghost old_out = out@;
            out.push(cur);
            proof {
                assert(out@.take(out@.len() - 1) =~= old_out);
                assert(view.len() == 8 * l + nbits);
                assert((8 * l + nbits + 7) / 8 == l + 1) by (nonlinear_arith)
                    requires
                        0 <= l && 0 < nbits < 8,
                ;
                assert(pack_bits(view).len() == l + 1);
                assert forall|i: int| 0 <= i < l + 1 implies out@[i] == pack_bits(view)[i] by {
                    lemma_pack_byte_eq(view, out@, cur, nbits as int, i);
                }
                assert(out@ =~= pack_bits(view));
            }
        } else {
            proof {
                assert(view =~= stream_bits(out@));
                assert((8 * l + 7) / 8 == l) by (nonlinear_arith)
                    requires
                        0 <= l,
                ;
                assert(pack_bits(view).len() == l);
                assert forall|i: int| 0 <= i < l implies out@[i] == pack_bits(view)[i] by {
                    lemma_pack_byte_eq(view, out@, cur, 0, i);
                }
                assert(out@ =~= pack_bits(view));
            }
        }
        out
    }
}

/// A reading cursor over a byte buffer: a byte index and a bit offset
/// inside that byte.  Bits of each byte are consumed least significant
/// first, matching `stream_bits`.
pub struct Inflater<'a> {
    bytes: &'a [u8],
    consumed_bytes: usize,
    current_byte_bits_offset: usize,
}

impl<'a> Inflater<'a> {
    /// The bit offset stays below eight and the byte index inside the buffer.
    pub closed spec fn wf(self) -> bool {
        &&& self.current_byte_bits_offset < 8
        &&& self.consumed_bytes <= self.bytes@.len()
        &&& self.consumed_bytes == self.bytes@.len() ==> self.current_byte_bits_offset == 0
    }

    /// The buffer the cursor reads from.
    pub closed spec fn data(self) -> Seq<u8> {
        self.bytes@
    }

    /// The position of the next bit to be consumed, from the start of
    /// the buffer.
    pub closed spec fn bit_pos(self) -> int {
        8 * self.consumed_bytes + self.current_byte_bits_offset
    }

    /// The number of whole bytes the cursor has touched: its byte index,
    /// rounded up when it stands inside a byte.
    pub fn bytes_touched(&self) -> (r: usize)
        requires
            self.wf(),
        ensures
            r == (self.bit_pos() + 7) / 8,
            r <= self.data().len(),
    {
        proof {
            let c = self.consumed_bytes as int;
            let o = self.current_byte_bits_offset as int;
            assert((8 * c + o + 7) / 8 == if o == 0 {
                c
            } else {
                c + 1
            }) by (nonlinear_arith)
                requires
                    0 <= c && 0 <= o < 8,
            ;
        }
        let blen = self.bytes.len();
        if self.current_byte_bits_offset == 0 {
            self.consumed_bytes
        } else {
            self.consumed_bytes + 1
        }
    }

    /// A cursor at the given bit offset of the first byte.
    pub fn new(bytes: &'a [u8], start_bit_offset: usize) -> (r: Inflater<'a>)
        requires
            start_bit_offset < 8,
            bytes@.len() >= 1,
        ensures
            r.wf(),
            r.data() == bytes@,
            r.bit_pos() == start_bit_offset,
    {
        Inflater { bytes, consumed_bytes: 0, current_byte_bits_offset: start_bit_offset }
    }

    /// Read one bit and advance; the least-significant unread bit of the
    /// current byte comes first.
    pub fn consume_bit(&mut self) -> (r: Result<bool, CodecError>)
        requires
            old(self).wf(),
        ensures
            final(self).wf(),
            final(self).data() == old(self).data(),
            old(self).bit_pos() < 8 * old(self).data().len() ==> r == Ok::<bool, CodecError>(
                stream_bits(old(self).data())[old(self).bit_pos()],
            ) && final(self).bit_pos() == old(self).bit_pos() + 1,
            old(self).bit_pos() >= 8 * old(self).data().len() ==> r == Err::<bool, CodecError>(
                CodecError::UnexpectedEndOfStream,
            ) && final(self).bit_pos() == old(self).bit_pos(),
    {
        if self.consumed_bytes >= self.bytes.len() {
            proof {
                let c = self.consumed_bytes as int;
                let o = self.current_byte_bits_offset as int;
                assert(8 * c + o >= 8 * c);
            }
            return Err(CodecError::UnexpectedEndOfStream);
        }
        proof {
            let c = self.consumed_bytes as int;
            let o = self.current_byte_bits_offset as int;
            assert(8 * c + o < 8 * self.bytes@.len()) by (nonlinear_arith)
                requires
                    0 <= c < self.bytes@.len() && 0 <= o < 8,
            ;
            lemma_stream_bits_index(self.bytes@, c, o);
        }
        let current_byte = self.bytes[self.consumed_bytes];
        let bit = (current_byte >> (self.current_byte_bits_offset as u8)) & 1;
        self.current_byte_bits_offset = self.current_byte_bits_offset + 1;
        if self.current_byte_bits_offset == 8 {
            self.current_byte_bits_offset = 0;
            self.consumed_bytes = self.consumed_bytes + 1;
        }
        Ok(bit == 1)
    }

    /// Read `n` bits, assembling them least significant first: the
    /// read side of `append_lsb_first`.
    pub fn consume_bits_lsb_first(&mut self, n: usize) -> (r: Result<u16, CodecError>)
        requires
            old(self).wf(),
            n <= 16,
        ensures
            final(self).wf(),
            final(self).data() == old(self).data(),
            old(self).bit_pos() + n <= 8 * old(self).data().len() ==> {
                &&& r is Ok
                &&& r->Ok_0 as int == lsb_val(
                    stream_bits(old(self).data()).subrange(
                        old(self).bit_pos(),
                        old(self).bit_pos() + n,
                    ),
                )
                &&& final(self).bit_pos() == old(self).bit_pos() + n
            },
            old(self).bit_pos() + n > 8 * old(self).data().len() ==> r == Err::<u16, CodecError>(
                CodecError::UnexpectedEndOfStream,
            ),
    {
        let ghost pos = self.bit_pos();
        let ghost all = stream_bits(self.data());
        let mut v: u16 = 0;
        let mut i: usize = 0;
        proof {
            assert(0u16 < (1u32 << (0usize as u32))) by (bit_vector);
            assert(lsb_bits(0u16, 0nat) =~= all.subrange(pos, pos));
        }
        while i < n
            invariant
                self.wf(),
                self.data() == old(self).data(),
                i <= n <= 16,
                0 <= pos,
                pos == old(self).bit_pos(),
                self.bit_pos() == pos + i,
                pos + i <= 8 * self.data().len(),
                all == stream_bits(self.data()),
                v < (1u32 << (i as u32)),
                lsb_bits(v, i as nat) == all.subrange(pos, pos + i),
            decreases n - i,
        {
            let b = match self.consume_bit() {
                Ok(b) => b,
                Err(e) => {
                    return Err(e);
                },
            };
            let ghost vold = v;
            let iu = i as u16;
            let nb: u16 = if b {
                1
            } else {
                0
            };
            v = v | (nb << iu);
            proof {
                let i32u = i as u32;
                assert((vold | (nb << iu)) < (1u32 << (i32u + 1)) && ((vold | (nb << iu)) >> iu)
                    & 1 == nb) by (bit_vector)
                    requires
                        vold < (1u32 << i32u) && i32u == iu && iu <= 15 && nb <= 1,
                ;
                assert(((i + 1) as u32) == i32u + 1);
                assert forall|k: int| 0 <= k < i implies lsb_bits(v, (i + 1) as nat)[k] == lsb_bits(
                    vold,
                    i as nat,
                )[k] by {
                    let ku = k as u16;
                    assert(((vold | (nb << iu)) >> ku) & 1 == (vold >> ku) & 1) by (bit_vector)
                        requires
                            ku < iu && iu <= 15,
                    ;
                }
                assert(lsb_bits(v, (i + 1) as nat)[i as int] == (nb == 1));
                assert(all.subrange(pos, pos + i + 1) =~= all.subrange(pos, pos + i).push(
                    all[pos + i],
                ));
                assert(lsb_bits(v, (i + 1) as nat) =~= all.subrange(pos, pos + i + 1));
            }
            i = i + 1;
        }
        proof {
            lemma_lsb_bits_roundtrip(v, n as nat);
        }
        Ok(v)
    }

    /// Read `n` bits, assembling them most significant first: the order
    /// in which a Huffman code pattern stands in the stream.
    pub fn consume_bits_msb_first(&mut self, n: usize) -> (r: Result<u16, CodecError>)
        requires
            old(self).wf(),
            n <= 16,
        ensures
            final(self).wf(),
            final(self).data() == old(self).data(),
            old(self).bit_pos() + n <= 8 * old(self).data().len() ==> {
                &&& r is Ok
                &&& r->Ok_0 as int == msb_val(
                    stream_bits(old(self).data()).subrange(
                        old(self).bit_pos(),
                        old(self).bit_pos() + n,
                    ),
                )
                &&& final(self).bit_pos() == old(self).bit_pos() + n
            },
            old(self).bit_pos() + n > 8 * old(self).data().len() ==> r == Err::<u16, CodecError>(
                CodecError::UnexpectedEndOfStream,
            ),
    {
        let ghost pos = self.bit_pos();
        let ghost all = stream_bits(self.data());
        let mut v: u16 = 0;
        let mut i: usize = 0;
        proof {
            assert(0u16 < (1u32 << (0usize as u32))) by (bit_vector);
            assert(all.subrange(pos, pos) =~= Seq::<bool>::empty());
        }
        while i < n
            invariant
                self.wf(),
                self.data() == old(self).data(),
                i <= n <= 16,
                0 <= pos,
                pos == old(self).bit_pos(),
                self.bit_pos() == pos + i,
                pos + i <= 8 * self.data().len(),
                all == stream_bits(self.data()),
                v < (1u32 << (i as u32)),
                v as int == msb_val(all.subrange(pos, pos + i)),
            decreases n - i,
        {
            let b = match self.consume_bit() {
                Ok(b) => b,
                Err(e) => {
                    return Err(e);
                },
            };
            let ghost vold = v;
            let nb: u16 = if b {
                1
            } else {
                0
            };
            proof {
                let i32u = i as u32;
                assert(((vold << 1u16) | nb) < (1u32 << (i32u + 1)) && ((vold << 1u16) | nb) == 2
                    * vold + nb) by (bit_vector)
                    requires
                        vold < (1u32 << i32u) && i32u <= 15 && nb <= 1,
                ;
                assert(((i + 1) as u32) == i32u + 1);
            }
            v = (v << 1u16) | nb;
            proof {
                assert(all.subrange(pos, pos + i + 1) =~= all.subrange(pos, pos + i).push(
                    all[pos + i],
                ));
                lemma_msb_val_push(all.subrange(pos, pos + i), all[pos + i]);
            }
            i = i + 1;
        }
        Ok(v)
    }
    /// Read one Huffman code: consume bits one at a time, accumulating
    /// them most significant first, until the table matches, and fail
    /// after the maximum legal code length of fifteen bits.
    pub fn consume_code(&mut self, gen: &HuffmanCodeGenerator) -> (r: Result<u16, CodecError>)
        requires
            old(self).wf(),
            gen.wf(),
        ensures
            final(self).wf(),
            final(self).data() == old(self).data(),
            match spec_consume_code(stream_bits(old(self).data()), old(self).bit_pos()) {
                Ok((sym, newpos)) => r == Ok::<u16, CodecError>(sym) && final(self).bit_pos()
                    == newpos,
                Err(e) => r == Err::<u16, CodecError>(e),
            },
    {
        let ghost pos = self.bit_pos();
        let ghost all = stream_bits(self.data());
        let mut current_code: u16 = 0;
        let mut code_len: usize = 0;
        proof {
            assert(0u16 < (1u32 << (0usize as u32))) by (bit_vector);
            assert(all.subrange(pos, pos) =~= Seq::<bool>::empty());
        }
        loop
            invariant
                self.wf(),
                self.data() == old(self).data(),
                0 <= pos,
                pos == old(self).bit_pos(),
                all == stream_bits(self.data()),
                code_len <= 14,
                self.bit_pos() == pos + code_len,
                pos + code_len <= 8 * self.data().len(),
                current_code < (1u32 << (code_len as u32)),
                current_code as int == msb_val(all.subrange(pos, pos + code_len)),
                forall|l: int|
                    0 <= l <= code_len ==> lookup_spec(
                        msb_val(#[trigger] all.subrange(pos, pos + l)),
                        l,
                    ) is None,
            decreases 15 - code_len,
        {
            let bit = match self.consume_bit() {
                Ok(b) => b,
                Err(e) => {
                    proof {
                        assert(pos + code_len >= 8 * self.data().len());
                        if pos + 7 <= all.len() {
                            assert(7 <= code_len);
                            assert(lookup_spec(msb_val(all.subrange(pos, pos + 7)), 7) is None);
                        }
                        if pos + 8 <= all.len() {
                            assert(8 <= code_len);
                            assert(lookup_spec(msb_val(all.subrange(pos, pos + 8)), 8) is None);
                        }
                        if pos + 9 <= all.len() {
                            assert(9 <= code_len);
                            assert(lookup_spec(msb_val(all.subrange(pos, pos + 9)), 9) is None);
                        }
                        assert(!(pos + 15 <= all.len()));
                    }
                    return Err(e);
                },
            };
            proof {
                assert(pos + code_len < 8 * self.data().len());
                assert(pos + code_len + 1 <= all.len());
            }
            let ghost vold = current_code;
            let nb: u16 = if bit {
                1
            } else {
                0
            };
            proof {
                let i32u = code_len as u32;
                assert(((vold << 1u16) | nb) < (1u32 << (i32u + 1)) && ((vold << 1u16) | nb) == 2
                    * vold + nb) by (bit_vector)
                    requires
                        vold < (1u32 << i32u) && i32u <= 14 && nb <= 1,
                ;
                assert(((code_len + 1) as u32) == i32u + 1);
            }
            current_code = (current_code << 1u16) | nb;
            code_len = code_len + 1;
            proof {
                assert(all.subrange(pos, pos + code_len) =~= all.subrange(
                    pos,
                    pos + code_len - 1,
                ).push(all[pos + code_len - 1]));
                lemma_msb_val_push(all.subrange(pos, pos + code_len - 1), all[pos + code_len - 1]);
            }
            let looked = gen.get_code_value(current_code, code_len);
            if let Some(value) = looked {
                proof {
                    assert(lookup_spec(msb_val(all.subrange(pos, pos + code_len)), code_len as int)
                        == Some(value));
                    assert(code_len == 7 || code_len == 8 || code_len == 9);
                    if code_len >= 8 {
                        assert(lookup_spec(msb_val(all.subrange(pos, pos + 7)), 7) is None);
                    }
                    if code_len >= 9 {
                        assert(lookup_spec(msb_val(all.subrange(pos, pos + 8)), 8) is None);
                    }
                    assert(spec_consume_code(all, pos) == Ok::<(u16, int), CodecError>(
                        (value, pos + code_len),
                    ));
                }
                return Ok(value);
            }
            if code_len == 15 {
                proof {
                    assert(lookup_spec(msb_val(all.subrange(pos, pos + 7)), 7) is None);
                    assert(lookup_spec(msb_val(all.subrange(pos, pos + 8)), 8) is None);
                    assert(lookup_spec(msb_val(all.subrange(pos, pos + 9)), 9) is None);
                    assert(pos + 15 <= all.len());
                    assert(spec_consume_code(all, pos) == Err::<(u16, int), CodecError>(
                        CodecError::InvalidHuffmanCode,
                    ));
                }
                return Err(CodecError::InvalidHuffmanCode);
            }
        }
    }
}

/// One byte of a packed buffer matches the byte the writer produced.
proof fn lemma_pack_byte_eq(view: Seq<bool>, outb: Seq<u8>, cur: u8, nbits: int, i: int)
    requires
        0 <= nbits < 8,
        (cur >> (nbits as u8)) == 0,
        nbits > 0 ==> outb.len() >= 1 && outb[outb.len() - 1] == cur && view == stream_bits(
            outb.take(outb.len() - 1),
        ) + Seq::new(nbits as nat, |k: int| bit_of(cur, k)),
        nbits == 0 ==> view == stream_bits(outb),
        0 <= i < outb.len(),
    ensures
        outb[i] == byte_at(view, 8 * i),
{
    let b = outb[i];
    assert forall|k: int| 0 <= k < 8 implies bit_of(byte_at(view, 8 * i), k) == bit_of(b, k) by {
        lemma_byte_at_bit(view, 8 * i, k);
        let pos = 8 * i + k;
        if nbits == 0 {
            assert(pos < view.len() ==> view[pos] == bit_of(b, k) && pos < 8 * outb.len()) by {
                if pos < view.len() {
                    lemma_stream_bits_index(outb, i, k);
                }
            }
            assert(pos < view.len()) by (nonlinear_arith)
                requires
                    0 <= i < outb.len() && 0 <= k < 8 && pos == 8 * i + k && view.len() == 8
                        * outb.len(),
            ;
        } else {
            let full = outb.take(outb.len() - 1);
            if i < outb.len() - 1 {
                assert(pos < 8 * full.len()) by (nonlinear_arith)
                    requires
                        0 <= i < full.len() && 0 <= k < 8 && pos == 8 * i + k,
                ;
                lemma_stream_bits_index(full, i, k);
                assert(full[i] == b);
            } else {
                // the final, partially filled byte
                assert(pos >= 8 * full.len()) by (nonlinear_arith)
                    requires
                        i == full.len() && 0 <= k && pos == 8 * i + k,
                ;
                if k < nbits {
                    assert(view[pos] == bit_of(cur, pos - 8 * full.len()));
                    assert(pos - 8 * full.len() == k) by (nonlinear_arith)
                        requires
                            pos == 8 * i + k && i == full.len(),
                    ;
                } else {
                    // beyond the view: the padding bit and the stored bit are both zero
                    assert(pos >= view.len()) by (nonlinear_arith)
                        requires
                            pos == 8 * i + k && i == full.len() && k >= nbits && view.len() == 8
                                * full.len() + nbits,
                    ;
                    let ku = k as u8;
                    let nb = nbits as u8;
                    assert((cur >> ku) & 1 == 0) by (bit_vector)
                        requires
                            cur >> nb == 0 && nb <= ku < 8,
                    ;
                }
            }
        }
    }
    lemma_u8_bit_ext(byte_at(view, 8 * i), b);
}

} // verus!
