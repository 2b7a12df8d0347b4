//! The canonical fixed Huffman code table for the 288-symbol
//! literal/length alphabet of RFC 1951.
//!
//! `fixed_code` and `fixed_code_len` give the closed form of the table;
//! `HuffmanCodeGenerator::new_fixed` builds it by the canonical-code
//! algorithm and is proved to reproduce the closed form.  `lookup_spec`
//! is the decode-side inverse, and the lemmas below state the facts a
//! decoder rests on: the inverse is exact and no code is a prefix of
//! another.

use vstd::prelude::*;

verus! {

use crate::bits::{msb_bits, msb_val, lemma_msb_bits_prefix, lemma_msb_bits_roundtrip};
use crate::CodecError;

/// The fixed code length of each literal/length symbol: 8 bits for
/// symbols 0..=143 and 280..=287, 9 bits for 144..=255, 7 bits for
/// 256..=279, and 0 (unused) outside the alphabet.
pub open spec fn fixed_code_len(sym: int) -> int {
    if 0 <= sym <= 143 {
        8
    } else if 144 <= sym <= 255 {
        9
    } else if 256 <= sym <= 279 {
        7
    } else if 280 <= sym <= 287 {
        8
    } else {
        0
    }
}

/// The fixed code pattern of each symbol, as an integer whose low
/// `fixed_code_len(sym)` bits are the code.
pub open spec fn fixed_code(sym: int) -> int {
    if 0 <= sym <= 143 {
        48 + sym
    } else if 144 <= sym <= 255 {
        400 + (sym - 144)
    } else if 256 <= sym <= 279 {
        sym - 256
    } else if 280 <= sym <= 287 {
        192 + (sym - 280)
    } else {
        0
    }
}

/// The code pattern of `sym` as it stands in the stream: most
/// significant bit of the pattern first.
pub open spec fn sym_bits(sym: int) -> Seq<bool> {
    msb_bits(fixed_code(sym) as u16, fixed_code_len(sym) as nat)
}

/// The decode-side lookup: the symbol whose fixed code is exactly the
/// `len`-bit pattern `code`, if there is one.
pub open spec fn lookup_spec(code: int, len: int) -> Option<u16> {
    if len == 7 && 0 <= code < 24 {
        Some((256 + code) as u16)
    } else if len == 8 && 48 <= code < 192 {
        Some((code - 48) as u16)
    } else if len == 8 && 192 <= code < 200 {
        Some((280 + (code - 192)) as u16)
    } else if len == 9 && 400 <= code < 512 {
        Some((144 + (code - 400)) as u16)
    } else {
        None
    }
}

/// Looking a symbol's own code up returns that symbol: `lookup_spec`
/// is the exact inverse of `fixed_code`.
pub proof fn lemma_lookup_inverse(sym: int)
    requires
        0 <= sym < 288,
    ensures
        lookup_spec(fixed_code(sym), fixed_code_len(sym)) == Some(sym as u16),
{
}

/// Every code value fits in its code length.
pub proof fn lemma_code_in_range(sym: int)
    requires
        0 <= sym < 288,
    ensures
        0 <= fixed_code(sym) < 512,
        (fixed_code_len(sym) == 7 ==> fixed_code(sym) < 128) && (fixed_code_len(sym) == 8
            ==> fixed_code(sym) < 256),
{
}

/// The accumulated value after reading the first `l` bits of a
/// symbol's code pattern.
pub proof fn lemma_code_prefix_val(sym: int, l: int)
    requires
        0 <= sym < 288,
        0 <= l <= fixed_code_len(sym),
    ensures
        msb_val(sym_bits(sym).take(l)) == (fixed_code(sym) as u16) >> ((fixed_code_len(sym)
            - l) as u16),
{
    lemma_code_in_range(sym);
    lemma_msb_bits_roundtrip_take(
        fixed_code(sym) as u16,
        (fixed_code_len(sym) - l) as u16,
        fixed_code_len(sym) as nat,
        l,
    );
}

/// Helper: the value of the first `l` bits equals the shifted code.
proof fn lemma_msb_bits_roundtrip_take(c: u16, d: u16, n: nat, l: int)
    requires
        0 <= l <= n,
        d == n - l,
        n == 7 || n == 8 || n == 9,
        n == 7 ==> c < 128,
        n == 8 ==> c < 256,
        n == 9 ==> c < 512,
    ensures
        msb_val(msb_bits(c, n).take(l)) == c >> d,
{
    lemma_msb_bits_prefix(c, n, l as nat);
    let lv = (l as u32);
    assert(lv == l);
    assert((c >> d) < (1u32 << lv)) by (bit_vector)
        requires
            (c < 128 && d == 7 - lv && lv <= 7) || (c < 256 && d == 8 - lv && lv <= 8) || (c < 512
                && d == 9 - lv && lv <= 9),
    ;
    lemma_msb_bits_roundtrip(c >> d, l as nat);
}

/// A proper prefix of any symbol's code is not itself a code: reading
/// bit by bit can never stop early on a wrong symbol.
pub proof fn lemma_prefix_none(sym: int, l: int)
    requires
        0 <= sym < 288,
        7 <= l < fixed_code_len(sym),
    ensures
        lookup_spec(((fixed_code(sym) as u16) >> ((fixed_code_len(sym) - l) as u16)) as int, l)
            == None::<u16>,
{
    let c = fixed_code(sym) as u16;
    let n = fixed_code_len(sym);
    if n == 8 {
        // l == 7: an 8-bit code's first seven bits form a value of at
        // least 24, past the 7-bit code range
        assert(48 <= c < 200 ==> 24 <= (c >> 1u16) && (c >> 1u16) < 100) by (bit_vector);
    } else {
        // n == 9
        if l == 7 {
            assert(400 <= c < 512 ==> 100 <= (c >> 2u16) && (c >> 2u16) < 128) by (bit_vector);
        } else {
            assert(400 <= c < 512 ==> 200 <= (c >> 1u16) && (c >> 1u16) < 256) by (bit_vector);
        }
    }
}

/// The canonical-code invariant, first half: among symbols of equal
/// code length, code values ascend with the symbol, and two neighbours
/// (no symbol of that length between them) get consecutive codes.
pub proof fn lemma_fixed_code_canonical(s1: int, s2: int)
    requires
        0 <= s1 < s2 < 288,
        fixed_code_len(s1) == fixed_code_len(s2),
    ensures
        fixed_code(s1) < fixed_code(s2),
        (forall|t: int| s1 < t < s2 ==> fixed_code_len(t) != fixed_code_len(s1)) ==> fixed_code(s2)
            == fixed_code(s1) + 1,
{
    if forall|t: int| s1 < t < s2 ==> fixed_code_len(t) != fixed_code_len(s1) {
        if s1 + 1 < s2 {
            assert(fixed_code_len(s1 + 1) != fixed_code_len(s1));
        }
        if s1 < 280 && 280 < s2 {
            assert(fixed_code_len(280int) != fixed_code_len(s1));
        }
    }
}

/// The canonical-code invariant, second half: no symbol's code is a
/// bit-prefix of another symbol's code, read most significant bit
/// first as the codes stand in the stream.
pub proof fn lemma_fixed_code_prefix_free(s1: int, s2: int)
    requires
        0 <= s1 < 288,
        0 <= s2 < 288,
        s1 != s2,
        fixed_code_len(s1) <= fixed_code_len(s2),
    ensures
        sym_bits(s2).take(fixed_code_len(s1)) != sym_bits(s1),
{
    let n1 = fixed_code_len(s1);
    let n2 = fixed_code_len(s2);
    let c1 = fixed_code(s1) as u16;
    let c2 = fixed_code(s2) as u16;
    lemma_lookup_inverse(s1);
    lemma_code_prefix_val(s1, n1);
    lemma_code_prefix_val(s2, n1);
    assert(sym_bits(s1).take(n1) =~= sym_bits(s1));
    assert(c1 >> 0u16 == c1) by (bit_vector);
    if n1 == n2 {
        lemma_lookup_inverse(s2);
        assert(c2 >> 0u16 == c2) by (bit_vector);
        if msb_val(sym_bits(s2).take(n1)) == msb_val(sym_bits(s1)) {
            assert(c1 == c2);
            assert(lookup_spec(c1 as int, n1) == Some(s1 as u16));
            assert(lookup_spec(c2 as int, n2) == Some(s2 as u16));
        }
    } else {
        lemma_prefix_none(s2, n1);
        if msb_val(sym_bits(s2).take(n1)) == msb_val(sym_bits(s1)) {
            assert(lookup_spec((c2 >> ((n2 - n1) as u16)) as int, n1) == Some(s1 as u16));
        }
    }
}

/// What reading one Huffman code from position `pos` of a bitstream
/// yields: the symbol of the shortest matching code, an error when no
/// code matches within the maximum legal length of 15 bits, and an
/// end-of-stream error when the bits run out first.
pub open spec fn spec_consume_code(bits: Seq<bool>, pos: int) -> Result<(u16, int), CodecError> {
    if pos + 7 <= bits.len() && lookup_spec(msb_val(bits.subrange(pos, pos + 7)), 7) is Some {
        Ok((lookup_spec(msb_val(bits.subrange(pos, pos + 7)), 7)->Some_0, pos + 7))
    } else if pos + 8 <= bits.len() && lookup_spec(msb_val(bits.subrange(pos, pos + 8)), 8)
        is Some {
        Ok((lookup_spec(msb_val(bits.subrange(pos, pos + 8)), 8)->Some_0, pos + 8))
    } else if pos + 9 <= bits.len() && lookup_spec(msb_val(bits.subrange(pos, pos + 9)), 9)
        is Some {
        Ok((lookup_spec(msb_val(bits.subrange(pos, pos + 9)), 9)->Some_0, pos + 9))
    } else if pos + 15 <= bits.len() {
        Err(CodecError::InvalidHuffmanCode)
    } else {
        Err(CodecError::UnexpectedEndOfStream)
    }
}

/// When the bits at `pos` begin with a symbol's code pattern, reading
/// one code returns exactly that symbol and stops right after it.
pub proof fn lemma_code_decodes(bits: Seq<bool>, pos: int, sym: int)
    requires
        0 <= sym < 288,
        0 <= pos,
        pos + fixed_code_len(sym) <= bits.len(),
        bits.subrange(pos, pos + fixed_code_len(sym)) == sym_bits(sym),
    ensures
        spec_consume_code(bits, pos) == Ok::<(u16, int), CodecError>(
            (sym as u16, pos + fixed_code_len(sym)),
        ),
{
    let n = fixed_code_len(sym);
    let c = fixed_code(sym) as u16;
    assert forall|l: int| 7 <= l <= n implies bits.subrange(pos, pos + l) == sym_bits(sym).take(
        l,
    ) by {
        assert(bits.subrange(pos, pos + l) =~= bits.subrange(pos, pos + n).take(l));
    }
    lemma_code_prefix_val(sym, n);
    assert(sym_bits(sym).take(n) =~= sym_bits(sym));
    assert(c >> 0u16 == c) by (bit_vector);
    lemma_lookup_inverse(sym);
    assert(msb_val(bits.subrange(pos, pos + n)) == c);
    if n == 8 {
        lemma_code_prefix_val(sym, 7);
        lemma_prefix_none(sym, 7);
        assert(lookup_spec(msb_val(bits.subrange(pos, pos + 7)), 7) is None);
    } else if n == 9 {
        lemma_code_prefix_val(sym, 7);
        lemma_prefix_none(sym, 7);
        lemma_code_prefix_val(sym, 8);
        lemma_prefix_none(sym, 8);
        assert(lookup_spec(msb_val(bits.subrange(pos, pos + 7)), 7) is None);
        assert(lookup_spec(msb_val(bits.subrange(pos, pos + 8)), 8) is None);
    }
}

/// The fixed Huffman code table: the code of each of the 288 symbols,
/// built once by the canonical-code algorithm and shared read-only by
/// every block operation afterwards.
pub struct HuffmanCodeGenerator {
    codes: Vec<u16>,
}

/// Symbols of length 7 among those below `i`.
spec fn cnt7(i: int) -> int {
    if i <= 256 {
        0
    } else if i <= 280 {
        i - 256
    } else {
        24
    }
}

/// Symbols of length 8 among those below `i`.
spec fn cnt8(i: int) -> int {
    (if i <= 144 {
        i
    } else {
        144
    }) + (if i <= 280 {
        0
    } else {
        i - 280
    })
}

/// Symbols of length 9 among those below `i`.
spec fn cnt9(i: int) -> int {
    if i <= 144 {
        0
    } else if i <= 256 {
        i - 144
    } else {
        112
    }
}

impl HuffmanCodeGenerator {
    /// The table holds exactly the closed-form fixed code assignment.
    pub closed spec fn wf(self) -> bool {
        self.codes@.len() == 288 && forall|i: int|
            0 <= i < 288 ==> self.codes@[i] as int == fixed_code(i)
    }

    /// Build the fixed table by the canonical-code algorithm: first the
    /// smallest code of each length from the per-length symbol counts,
    /// then consecutive codes to the symbols of each length in
    /// ascending symbol order.
    pub fn new_fixed() -> (r: Self)
        ensures
            r.wf(),
    {
        let mut lits: Vec<u16> = Vec::new();
        let mut code: u16 = 0;
        let mut min_code: Vec<u16> = vec![0u16; 10];
        let mut i: usize = 1;
        while i <= 9
            invariant
                1 <= i <= 10,
                min_code@.len() == 10,
                code == (if i <= 8 {
                    0int
                } else if i == 9 {
                    48int
                } else {
                    400int
                }),
                forall|k: int| 7 <= k < i ==> min_code@[k] as int == init_code(k),
            decreases 10 - i,
        {
            code = (code + Self::fixed_bl_count(i - 1)) * 2;
            min_code[i] = code;
            i = i + 1;
        }
        proof {
            assert(min_code@[7] as int == init_code(7));
            assert(min_code@[8] as int == init_code(8));
            assert(min_code@[9] as int == init_code(9));
            assert(init_code(7) == 0 && init_code(8) == 48 && init_code(9) == 400);
            assert(cnt7(0) == 0 && cnt8(0) == 0 && cnt9(0) == 0);
        }
        let mut s: usize = 0;
        while s < 288
            invariant
                s <= 288,
                lits@.len() == s,
                min_code@.len() == 10,
                forall|j: int| 0 <= j < s ==> lits@[j] as int == fixed_code(j),
                min_code@[7] as int == cnt7(s as int),
                min_code@[8] as int == 48 + cnt8(s as int),
                min_code@[9] as int == 400 + cnt9(s as int),
            decreases 288 - s,
        {
            let len = Self::fixed_bl_len(s) as usize;
            let c = min_code[len];
            lits.push(c);
            min_code[len] = c + 1;
            s = s + 1;
        }
        Self { codes: lits }
    }

    /// The code pattern of symbol `i`.
    pub fn code(&self, i: usize) -> (r: u16)
        requires
            self.wf(),
            i < 288,
        ensures
            r as int == fixed_code(i as int),
    {
        self.codes[i]
    }

    /// The code length of symbol `i`, zero outside the alphabet.
    pub fn code_len(&self, i: usize) -> (r: u8)
        ensures
            r as int == fixed_code_len(i as int),
    {
        Self::fixed_bl_len(i)
    }

    /// The per-symbol code lengths RFC 1951 fixes for this table.
    fn fixed_bl_len(i: usize) -> (r: u8)
        ensures
            r as int == fixed_code_len(i as int),
    {
        if i <= 143 {
            8
        } else if i >= 144 && i <= 255 {
            9
        } else if i >= 256 && i <= 279 {
            7
        } else if i >= 280 && i <= 287 {
            8
        } else {
            0
        }
    }

    /// How many symbols carry each code length in the fixed table.
    fn fixed_bl_count(i: usize) -> (r: u16)
        ensures
            r as int == (if i == 7 {
                24int
            } else if i == 8 {
                152int
            } else if i == 9 {
                112int
            } else {
                0int
            }),
    {
        match i {
            7 => 24,
            8 => 144 + 8,
            9 => 255 - 144 + 1,
            _ => 0,
        }
    }

    /// The symbol whose `code_len`-bit code is exactly `code`, if any:
    /// the exact inverse of the table, with the fast rejection of
    /// lengths below seven that no code uses.
    pub fn get_code_value(&self, code: u16, code_len: usize) -> (r: Option<u16>)
        ensures
            r == lookup_spec(code as int, code_len as int),
    {
        if code_len < 7 {
            return None;
        }
        if code_len == 7 && code < 24 {
            Some(256 + code)
        } else if code_len == 8 && code >= 48 && code < 192 {
            Some(code - 48)
        } else if code_len == 8 && code >= 192 && code < 200 {
            Some(280 + (code - 192))
        } else if code_len == 9 && code >= 400 && code < 512 {
            Some(144 + (code - 400))
        } else {
            None
        }
    }
}

/// The smallest code of each length, as the first loop of the
/// canonical algorithm computes it.
spec fn init_code(k: int) -> int {
    if k <= 7 {
        0
    } else if k == 8 {
        48
    } else {
        400
    }
}

} // verus!
