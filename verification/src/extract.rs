//! The core root extractors: binary digit-by-digit integer square root,
//! instantiated once per width.
//!
//! Each extractor keeps three registers.  `place` walks down the powers of
//! four, probing one binary digit of the root per iteration; `root` holds the
//! digits found so far (shifted so that `root + place` is exactly the cost of
//! setting the next digit); `remainder` holds what is left of the input after
//! subtracting the square of the partial root.  The ghost pair `(part, k)`
//! names the partial root and the probed digit position, and ties the
//! registers to them: `place == pow2(2 * k)`, `root == 2 * part * pow2(k)`,
//! and `part * part + remainder == n`.
//!
//! The four bodies differ only in their width constants, on purpose: one
//! instantiation per width keeps every intermediate sum inside its own
//! register width, which the verifier checks for each body separately.

use vstd::prelude::*;
use vstd::arithmetic::power2::pow2;
use vstd::arithmetic::power2::lemma2_to64;
use vstd::arithmetic::power2::lemma2_to64_rest;
use vstd::arithmetic::power2::lemma_pow2_adds;
use vstd::arithmetic::power2::lemma_pow2_pos;
use vstd::arithmetic::power2::lemma_pow2_strictly_increases;
use vstd::arithmetic::power2::lemma_pow2_unfold;
use crate::floor_sqrt::is_floor_sqrt;

verus! {

/// Stepping the probe down one digit position divides it by four.
proof fn lemma_place_step(k: nat)
    requires
        1 <= k,
    ensures
        pow2(2 * k) == 4 * pow2((2 * k - 2) as nat),
        1 <= pow2((2 * k - 2) as nat),
{
    lemma2_to64();
    lemma_pow2_adds(2, (2 * k - 2) as nat);
    lemma_pow2_pos((2 * k - 2) as nat);
}

/// At the position the shrink phase stops at, the whole input lies below the
/// square of twice the probe's side, and that side still fits in half the
/// register width.
proof fn lemma_extract_entry(k: nat, half: nat)
    requires
        k + 1 <= half,
    ensures
        (2 * pow2(k)) * (2 * pow2(k)) == 4 * pow2(2 * k),
        2 * pow2(k) <= pow2(half),
{
    lemma_pow2_adds(k, k);
    let p: int = pow2(k) as int;
    assert((2 * p) * (2 * p) == 4 * (p * p)) by (nonlinear_arith);
    lemma_pow2_unfold(k + 1);
    if k + 1 < half {
        lemma_pow2_strictly_increases(k + 1, half);
    }
}

/// While the partial root and the probe stay within half the register width,
/// the two sums the loop forms (`root + place` and `root + 2 * place`) stay
/// strictly below the full register range.
proof fn lemma_probe_fits(part: int, k: nat, half: nat)
    requires
        0 <= part,
        k + 1 <= half,
        part + 2 * pow2(k) <= pow2(half),
    ensures
        0 <= part * pow2(k),
        2 * (part * pow2(k)) + pow2(2 * k) < pow2(2 * half),
        2 * (part * pow2(k)) + 2 * pow2(2 * k) < pow2(2 * half),
{
    lemma_pow2_adds(k, k);
    lemma_pow2_adds(half, half);
    lemma_pow2_pos(k);
    lemma_pow2_pos(half);
    let p: int = pow2(k) as int;
    let h: int = pow2(half) as int;
    assert(0 <= part * p && 2 * (part * p) + p * p < h * h && 2 * (part * p) + 2 * (p * p) < h
        * h) by (nonlinear_arith)
        requires
            0 <= part,
            1 <= p,
            part + 2 * p <= h,
    ;
}

/// Taking a digit: when the remainder covers `root + place`, the partial
/// root grows by the probe's side, and the registers move exactly by the
/// expanded square terms.
proof fn lemma_digit_taken(n: int, part: int, k: nat)
    requires
        0 <= part,
        part * part <= n,
        n - part * part >= 2 * (part * pow2(k)) + pow2(2 * k),
    ensures
        (part + pow2(k)) * (part + pow2(k)) == part * part + 2 * (part * pow2(k)) + pow2(2 * k),
        (part + pow2(k)) * (part + pow2(k)) <= n,
        2 * ((part + pow2(k)) * pow2(k)) == 2 * (part * pow2(k)) + 2 * pow2(2 * k),
{
    lemma_pow2_adds(k, k);
    let p: int = pow2(k) as int;
    assert((part + p) * (part + p) == part * part + 2 * (part * p) + p * p && 2 * ((part + p) * p)
        == 2 * (part * p) + 2 * (p * p)) by (nonlinear_arith);
}

/// Skipping a digit: when the remainder does not cover `root + place`, the
/// input already lies below the square of the grown partial root.
proof fn lemma_digit_skipped(n: int, part: int, k: nat)
    requires
        n - part * part < 2 * (part * pow2(k)) + pow2(2 * k),
    ensures
        n < (part + pow2(k)) * (part + pow2(k)),
{
    lemma_pow2_adds(k, k);
    let p: int = pow2(k) as int;
    assert((part + p) * (part + p) == part * part + 2 * (part * p) + p * p) by (nonlinear_arith);
}

/// Halving the root register re-anchors the same partial root one digit
/// position lower.
proof fn lemma_root_rescale(part: int, k: nat)
    requires
        1 <= k,
    ensures
        pow2(k) == 2 * pow2((k - 1) as nat),
        part * pow2(k) == 2 * (part * pow2((k - 1) as nat)),
{
    lemma_pow2_unfold(k);
    let q: int = pow2((k - 1) as nat) as int;
    assert(part * (2 * q) == 2 * (part * q)) by (nonlinear_arith);
}

/// The exact floor square root of a 64-bit unsigned value, by binary digit
/// extraction: shifts, comparisons, additions and subtractions only.
pub fn isqrt_64(n: &u64) -> (root: u64)
    ensures
        is_floor_sqrt(*n as int, root as int),
{
    let mut root: u64 = 0;
    let mut remainder: u64 = *n;
    // the highest power of four representable with two bits of headroom
    let mut place: u64 = 0x4000_0000_0000_0000;

    let ghost mut k: nat = 31;
    proof {
        lemma2_to64();
        lemma2_to64_rest();
    }

    while place > remainder
        invariant
            remainder == *n,
            root == 0,
            place != 0 ==> k + 1 <= 32 && place == pow2(2 * k),
            place != 0 ==> (*n as int) < 4 * (place as int),
            place == 0 ==> *n == 0,
        decreases place,
    {
        proof {
            lemma2_to64();
            assert(place >> 2 == place / 4) by (bit_vector);
            if k >= 1 {
                lemma_place_step(k);
            }
        }
        place = place >> 2;
        proof {
            if k >= 1 {
                k = (k - 1) as nat;
            }
        }
    }

    let ghost mut part: int = 0;
    proof {
        if place != 0 {
            lemma_extract_entry(k, 32);
        }
    }

    while place != 0
        invariant
            place != 0 ==> k + 1 <= 32 && place == pow2(2 * k),
            place != 0 ==> 0 <= part,
            place != 0 ==> root as int == 2 * (part * pow2(k)),
            place != 0 ==> part * part + remainder as int == *n as int,
            place != 0 ==> (*n as int) < (part + 2 * pow2(k)) * (part + 2 * pow2(k)),
            place != 0 ==> part + 2 * pow2(k) <= pow2(32),
            place == 0 ==> is_floor_sqrt(*n as int, root as int),
        decreases place,
    {
        proof {
            lemma2_to64();
            lemma2_to64_rest();
            lemma_probe_fits(part, k, 32);
        }
        if remainder >= root + place {
            proof {
                lemma_digit_taken(*n as int, part, k);
                assert(place << 1 == place * 2) by (bit_vector)
                    requires
                        place < 0x8000_0000_0000_0000u64,
                ;
            }
            remainder -= root + place;
            root += place << 1;
            proof {
                part = part + pow2(k);
            }
        } else {
            proof {
                lemma_digit_skipped(*n as int, part, k);
            }
        }
        proof {
            lemma_pow2_pos(k);
            assert(0 <= part);
            assert(root as int == 2 * (part * pow2(k)));
            assert(part * part + remainder as int == *n as int);
            assert((*n as int) < (part + pow2(k)) * (part + pow2(k)));
            assert(part + pow2(k) <= pow2(32));
            assert(root >> 1 == root / 2) by (bit_vector);
            assert(place >> 2 == place / 4) by (bit_vector);
            if k >= 1 {
                lemma_root_rescale(part, k);
                lemma_place_step(k);
            }
        }
        root = root >> 1;
        place = place >> 2;
        proof {
            if k >= 1 {
                k = (k - 1) as nat;
                assert(place == pow2(2 * k));
                assert(root as int == 2 * (part * pow2(k)));
                assert((*n as int) < (part + 2 * pow2(k)) * (part + 2 * pow2(k)));
                assert(part + 2 * pow2(k) <= pow2(32));
            } else {
                assert(place == 0);
                assert(root as int == part * pow2(0));
                assert(root as int == part);
                assert(is_floor_sqrt(*n as int, root as int));
            }
        }
    }
    root
}

/// The exact floor square root of a 32-bit unsigned value, by binary digit
/// extraction: shifts, comparisons, additions and subtractions only.
pub fn isqrt_32(n: &u32) -> (root: u32)
    ensures
        is_floor_sqrt(*n as int, root as int),
{
    let mut root: u32 = 0;
    let mut remainder: u32 = *n;
    // the highest power of four representable with two bits of headroom
    let mut place: u32 = 0x4000_0000;

    let ghost mut k: nat = 15;
    proof {
        lemma2_to64();
    }

    while place > remainder
        invariant
            remainder == *n,
            root == 0,
            place != 0 ==> k + 1 <= 16 && place == pow2(2 * k),
            place != 0 ==> (*n as int) < 4 * (place as int),
            place == 0 ==> *n == 0,
        decreases place,
    {
        proof {
            lemma2_to64();
            assert(place >> 2 == place / 4) by (bit_vector);
            if k >= 1 {
                lemma_place_step(k);
            }
        }
        place = place >> 2;
        proof {
            if k >= 1 {
                k = (k - 1) as nat;
            }
        }
    }

    let ghost mut part: int = 0;
    proof {
        if place != 0 {
            lemma_extract_entry(k, 16);
        }
    }

    while place != 0
        invariant
            place != 0 ==> k + 1 <= 16 && place == pow2(2 * k),
            place != 0 ==> 0 <= part,
            place != 0 ==> root as int == 2 * (part * pow2(k)),
            place != 0 ==> part * part + remainder as int == *n as int,
            place != 0 ==> (*n as int) < (part + 2 * pow2(k)) * (part + 2 * pow2(k)),
            place != 0 ==> part + 2 * pow2(k) <= pow2(16),
            place == 0 ==> is_floor_sqrt(*n as int, root as int),
        decreases place,
    {
        proof {
            lemma2_to64();
            lemma_probe_fits(part, k, 16);
        }
        if remainder >= root + place {
            proof {
                lemma_digit_taken(*n as int, part, k);
                assert(place << 1 == place * 2) by (bit_vector)
                    requires
                        place < 0x8000_0000u32,
                ;
            }
            remainder -= root + place;
            root += place << 1;
            proof {
                part = part + pow2(k);
            }
        } else {
            proof {
                lemma_digit_skipped(*n as int, part, k);
            }
        }
        proof {
            lemma_pow2_pos(k);
            assert(0 <= part);
            assert(root as int == 2 * (part * pow2(k)));
            assert(part * part + remainder as int == *n as int);
            assert((*n as int) < (part + pow2(k)) * (part + pow2(k)));
            assert(part + pow2(k) <= pow2(16));
            assert(root >> 1 == root / 2) by (bit_vector);
            assert(place >> 2 == place / 4) by (bit_vector);
            if k >= 1 {
                lemma_root_rescale(part, k);
                lemma_place_step(k);
            }
        }
        root = root >> 1;
        place = place >> 2;
        proof {
            if k >= 1 {
                k = (k - 1) as nat;
                assert(place == pow2(2 * k));
                assert(root as int == 2 * (part * pow2(k)));
                assert((*n as int) < (part + 2 * pow2(k)) * (part + 2 * pow2(k)));
                assert(part + 2 * pow2(k) <= pow2(16));
            } else {
                assert(place == 0);
                assert(root as int == part * pow2(0));
                assert(root as int == part);
                assert(is_floor_sqrt(*n as int, root as int));
            }
        }
    }
    root
}

/// The exact floor square root of a 16-bit unsigned value, by binary digit
/// extraction: shifts, comparisons, additions and subtractions only.
pub fn isqrt_16(n: &u16) -> (root: u16)
    ensures
        is_floor_sqrt(*n as int, root as int),
{
    let mut root: u16 = 0;
    let mut remainder: u16 = *n;
    // the highest power of four representable with two bits of headroom
    let mut place: u16 = 0x4000;

    let ghost mut k: nat = 7;
    proof {
        lemma2_to64();
    }

    while place > remainder
        invariant
            remainder == *n,
            root == 0,
            place != 0 ==> k + 1 <= 8 && place == pow2(2 * k),
            place != 0 ==> (*n as int) < 4 * (place as int),
            place == 0 ==> *n == 0,
        decreases place,
    {
        proof {
            lemma2_to64();
            assert(place >> 2 == place / 4) by (bit_vector);
            if k >= 1 {
                lemma_place_step(k);
            }
        }
        place = place >> 2;
        proof {
            if k >= 1 {
                k = (k - 1) as nat;
            }
        }
    }

    let ghost mut part: int = 0;
    proof {
        if place != 0 {
            lemma_extract_entry(k, 8);
        }
    }

    while place != 0
        invariant
            place != 0 ==> k + 1 <= 8 && place == pow2(2 * k),
            place != 0 ==> 0 <= part,
            place != 0 ==> root as int == 2 * (part * pow2(k)),
            place != 0 ==> part * part + remainder as int == *n as int,
            place != 0 ==> (*n as int) < (part + 2 * pow2(k)) * (part + 2 * pow2(k)),
            place != 0 ==> part + 2 * pow2(k) <= pow2(8),
            place == 0 ==> is_floor_sqrt(*n as int, root as int),
        decreases place,
    {
        proof {
            lemma2_to64();
            lemma_probe_fits(part, k, 8);
        }
        if remainder >= root + place {
            proof {
                lemma_digit_taken(*n as int, part, k);
                assert(place << 1 == place * 2) by (bit_vector)
                    requires
                        place < 0x8000u16,
                ;
            }
            remainder -= root + place;
            root += place << 1;
            proof {
                part = part + pow2(k);
            }
        } else {
            proof {
                lemma_digit_skipped(*n as int, part, k);
            }
        }
        proof {
            lemma_pow2_pos(k);
            assert(0 <= part);
            assert(root as int == 2 * (part * pow2(k)));
            assert(part * part + remainder as int == *n as int);
            assert((*n as int) < (part + pow2(k)) * (part + pow2(k)));
            assert(part + pow2(k) <= pow2(8));
            assert(root >> 1 == root / 2) by (bit_vector);
            assert(place >> 2 == place / 4) by (bit_vector);
            if k >= 1 {
                lemma_root_rescale(part, k);
                lemma_place_step(k);
            }
        }
        root = root >> 1;
        place = place >> 2;
        proof {
            if k >= 1 {
                k = (k - 1) as nat;
                assert(place == pow2(2 * k));
                assert(root as int == 2 * (part * pow2(k)));
                assert((*n as int) < (part + 2 * pow2(k)) * (part + 2 * pow2(k)));
                assert(part + 2 * pow2(k) <= pow2(8));
            } else {
                assert(place == 0);
                assert(root as int == part * pow2(0));
                assert(root as int == part);
                assert(is_floor_sqrt(*n as int, root as int));
            }
        }
    }
    root
}

/// The exact floor square root of a 8-bit unsigned value, by binary digit
/// extraction: shifts, comparisons, additions and subtractions only.
pub fn isqrt_8(n: &u8) -> (root: u8)
    ensures
        is_floor_sqrt(*n as int, root as int),
{
    let mut root: u8 = 0;
    let mut remainder: u8 = *n;
    // the highest power of four representable with two bits of headroom
    let mut place: u8 = 0x40;

    let ghost mut k: nat = 3;
    proof {
        lemma2_to64();
    }

    while place > remainder
        invariant
            remainder == *n,
            root == 0,
            place != 0 ==> k + 1 <= 4 && place == pow2(2 * k),
            place != 0 ==> (*n as int) < 4 * (place as int),
            place == 0 ==> *n == 0,
        decreases place,
    {
        proof {
            lemma2_to64();
            assert(place >> 2 == place / 4) by (bit_vector);
            if k >= 1 {
                lemma_place_step(k);
            }
        }
        place = place >> 2;
        proof {
            if k >= 1 {
                k = (k - 1) as nat;
            }
        }
    }

    let ghost mut part: int = 0;
    proof {
        if place != 0 {
            lemma_extract_entry(k, 4);
        }
    }

    while place != 0
        invariant
            place != 0 ==> k + 1 <= 4 && place == pow2(2 * k),
            place != 0 ==> 0 <= part,
            place != 0 ==> root as int == 2 * (part * pow2(k)),
            place != 0 ==> part * part + remainder as int == *n as int,
            place != 0 ==> (*n as int) < (part + 2 * pow2(k)) * (part + 2 * pow2(k)),
            place != 0 ==> part + 2 * pow2(k) <= pow2(4),
            place == 0 ==> is_floor_sqrt(*n as int, root as int),
        decreases place,
    {
        proof {
            lemma2_to64();
            lemma_probe_fits(part, k, 4);
        }
        if remainder >= root + place {
            proof {
                lemma_digit_taken(*n as int, part, k);
                assert(place << 1 == place * 2) by (bit_vector)
                    requires
                        place < 0x80u8,
                ;
            }
            remainder -= root + place;
            root += place << 1;
            proof {
                part = part + pow2(k);
            }
        } else {
            proof {
                lemma_digit_skipped(*n as int, part, k);
            }
        }
        proof {
            lemma_pow2_pos(k);
            assert(0 <= part);
            assert(root as int == 2 * (part * pow2(k)));
            assert(part * part + remainder as int == *n as int);
            assert((*n as int) < (part + pow2(k)) * (part + pow2(k)));
            assert(part + pow2(k) <= pow2(4));
            assert(root >> 1 == root / 2) by (bit_vector);
            assert(place >> 2 == place / 4) by (bit_vector);
            if k >= 1 {
                lemma_root_rescale(part, k);
                lemma_place_step(k);
            }
        }
        root = root >> 1;
        place = place >> 2;
        proof {
            if k >= 1 {
                k = (k - 1) as nat;
                assert(place == pow2(2 * k));
                assert(root as int == 2 * (part * pow2(k)));
                assert((*n as int) < (part + 2 * pow2(k)) * (part + 2 * pow2(k)));
                assert(part + 2 * pow2(k) <= pow2(4));
            } else {
                assert(place == 0);
                assert(root as int == part * pow2(0));
                assert(root as int == part);
                assert(is_floor_sqrt(*n as int, root as int));
            }
        }
    }
    root
}

} // verus!
