//! The length and distance tables of the fixed-Huffman block kind.
//!
//! Length codes 257..=285 map to base lengths 3..=258, distance codes
//! 0..=29 to base distances 1..=32768; codes past the first few carry
//! extra bits that refine the base into the exact value.  Both tables
//! follow a doubling rule, stated here as spec functions and computed
//! by the executable lookups.

use vstd::prelude::*;

verus! {

use crate::bits::two_pow;

/// How many extra bits follow length code `sym`.
pub open spec fn length_extra(sym: int) -> int {
    if 257 <= sym <= 264 {
        0
    } else if 265 <= sym <= 284 {
        (sym - 261) / 4
    } else {
        0
    }
}

/// The base length of length code `sym`; the extra bits are added to it.
pub open spec fn length_base(sym: int) -> int {
    if 257 <= sym <= 264 {
        sym - 254
    } else if 265 <= sym <= 284 {
        3 + (4 + (sym - 265) % 4) * two_pow((sym - 261) / 4)
    } else if sym == 285 {
        258
    } else {
        0
    }
}

/// How many extra bits follow distance code `code`.
pub open spec fn dist_extra(code: int) -> int {
    if 0 <= code <= 3 {
        0
    } else if 4 <= code <= 29 {
        code / 2 - 1
    } else {
        0
    }
}

/// The base distance of distance code `code`.
pub open spec fn dist_base(code: int) -> int {
    if 0 <= code <= 3 {
        code + 1
    } else if 4 <= code <= 29 {
        (2 + code % 2) * two_pow(code / 2 - 1) + 1
    } else {
        0
    }
}

/// The doubling rule's concrete powers, up to the largest the tables use.
pub proof fn lemma_two_pow_values()
    ensures
        two_pow(0) == 1 && two_pow(1) == 2 && two_pow(2) == 4 && two_pow(3) == 8 && two_pow(4)
            == 16 && two_pow(5) == 32 && two_pow(6) == 64 && two_pow(7) == 128 && two_pow(8) == 256
            && two_pow(9) == 512 && two_pow(10) == 1024 && two_pow(11) == 2048 && two_pow(12)
            == 4096 && two_pow(13) == 8192,
{
    reveal_with_fuel(two_pow, 15);
}

/// Every length decodes to the window 3..=258: the base plus any value
/// of the extra bits stays inside it.
pub proof fn lemma_length_range(sym: int)
    requires
        257 <= sym <= 285,
    ensures
        0 <= length_extra(sym) <= 5,
        3 <= length_base(sym),
        length_base(sym) + two_pow(length_extra(sym)) - 1 <= 258,
{
    lemma_two_pow_values();
    if 265 <= sym <= 284 {
        let e = (sym - 261) / 4;
        let m = (sym - 265) % 4;
        assert(1 <= e <= 5 && 0 <= m <= 3) by (nonlinear_arith)
            requires
                265 <= sym <= 284 && e == (sym - 261) / 4 && m == (sym - 265) % 4,
        ;
        let t = two_pow(e);
        assert(t == 2 || t == 4 || t == 8 || t == 16 || t == 32);
        assert((4 + m) * t >= 4 * t && (4 + m) * t + t <= 8 * t) by (nonlinear_arith)
            requires
                0 <= m <= 3 && t >= 1,
        ;
    }
}

/// Every distance decodes to the window 1..=32768.
pub proof fn lemma_dist_range(code: int)
    requires
        0 <= code <= 29,
    ensures
        0 <= dist_extra(code) <= 13,
        1 <= dist_base(code),
        dist_base(code) + two_pow(dist_extra(code)) - 1 <= 32768,
{
    lemma_two_pow_values();
    if 4 <= code <= 29 {
        let e = code / 2 - 1;
        let m = code % 2;
        assert(1 <= e <= 13 && 0 <= m <= 1) by (nonlinear_arith)
            requires
                4 <= code <= 29 && e == code / 2 - 1 && m == code % 2,
        ;
        let t = two_pow(e);
        assert(t == 2 || t == 4 || t == 8 || t == 16 || t == 32 || t == 64 || t == 128 || t == 256
            || t == 512 || t == 1024 || t == 2048 || t == 4096 || t == 8192);
        assert((2 + m) * t >= 2 * t && (2 + m) * t + t <= 4 * t) by (nonlinear_arith)
            requires
                0 <= m <= 1 && t >= 1,
        ;
    }
}

/// Two raised by the doubling rule, executably.
fn two_pow_exec(e: usize) -> (r: u16)
    requires
        e <= 13,
    ensures
        r as int == two_pow(e as int),
        r >= 1,
{
    proof {
        lemma_two_pow_values();
    }
    let mut p: u16 = 1;
    let mut j: usize = 0;
    while j < e
        invariant
            j <= e <= 13,
            p as int == two_pow(j as int),
            p <= 8192,
        decreases e - j,
    {
        proof {
            lemma_two_pow_values();
            assert(two_pow(j as int) <= two_pow(12)) by {
                lemma_two_pow_monotone(j as int, 12);
            }
        }
        p = p * 2;
        j = j + 1;
    }
    p
}

/// The doubling rule never shrinks.
proof fn lemma_two_pow_monotone(a: int, b: int)
    requires
        a <= b,
    ensures
        two_pow(a) <= two_pow(b),
        two_pow(a) >= 1,
    decreases b - a,
{
    if a < b {
        lemma_two_pow_monotone(a, b - 1);
        lemma_two_pow_pos(b);
    } else {
        lemma_two_pow_pos(a);
    }
}

/// The doubling rule stays positive.
proof fn lemma_two_pow_pos(a: int)
    ensures
        two_pow(a) >= 1,
    decreases a,
{
    if a > 0 {
        lemma_two_pow_pos(a - 1);
    }
}

/// The extra-bit count of a length code.
pub fn length_code_extra(sym: u16) -> (r: usize)
    requires
        257 <= sym <= 285,
    ensures
        r as int == length_extra(sym as int),
        r <= 5,
{
    proof {
        lemma_length_range(sym as int);
    }
    if sym <= 264 || sym == 285 {
        0
    } else {
        ((sym - 261) / 4) as usize
    }
}

/// The base length of a length code.
pub fn length_code_base(sym: u16) -> (r: u16)
    requires
        257 <= sym <= 285,
    ensures
        r as int == length_base(sym as int),
        3 <= r <= 258,
{
    proof {
        lemma_length_range(sym as int);
        lemma_two_pow_values();
    }
    if sym <= 264 {
        sym - 254
    } else if sym == 285 {
        258
    } else {
        let e = ((sym - 261) / 4) as usize;
        let t = two_pow_exec(e);
        proof {
            assert((4 + ((sym - 265) % 4)) * t <= 8 * t) by (nonlinear_arith)
                requires
                    (sym - 265) % 4 <= 3 && t >= 1,
            ;
        }
        3 + (4 + ((sym - 265) % 4)) * t
    }
}

/// The extra-bit count of a distance code.
pub fn distance_code_extra(code: u16) -> (r: usize)
    requires
        code <= 29,
    ensures
        r as int == dist_extra(code as int),
        r <= 13,
{
    proof {
        lemma_dist_range(code as int);
    }
    if code <= 3 {
        0
    } else {
        (code / 2 - 1) as usize
    }
}

/// The base distance of a distance code.
pub fn distance_code_base(code: u16) -> (r: u16)
    requires
        code <= 29,
    ensures
        r as int == dist_base(code as int),
        1 <= r <= 24577,
{
    proof {
        lemma_dist_range(code as int);
        lemma_two_pow_values();
    }
    if code <= 3 {
        code + 1
    } else {
        let e = (code / 2 - 1) as usize;
        let t = two_pow_exec(e);
        proof {
            assert((2 + (code % 2)) * t <= 4 * t) by (nonlinear_arith)
                requires
                    (code % 2) <= 1 && t >= 1,
            ;
        }
        (2 + (code % 2)) * t + 1
    }
}

} // verus!
