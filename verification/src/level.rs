//! Threshold and squelch levels. A level in decibels is carried as the bit pattern of an
//! IEEE-754 binary64 number (what `f64::to_bits` gives); this module orders such patterns
//! as the numbers they stand for, and names what the caller's level arithmetic gives.

use vstd::prelude::*;

use core::cmp::Ordering;

verus! {

/// The bit pattern of the sign of a binary64 number.
pub const SIGN_BIT: u64 = 0x8000_0000_0000_0000;

/// The smallest magnitude pattern that is no finite number (positive infinity).
pub const INFINITY_BITS: u64 = 0x7ff0_0000_0000_0000;

/// The level a threshold is shown as where it has none: -70 dB.
pub const DEFAULT_THRESHOLD_BITS: u64 = 0xc051_8000_0000_0000;

/// The level a squelch is shown as where it has none: -120 dB.
pub const DEFAULT_SQUELCH_BITS: u64 = 0xc05e_0000_0000_0000;

/// Whether the pattern `bits` is a NaN, which compares with nothing.
pub open spec fn level_is_nan(bits: u64) -> bool {
    bits % SIGN_BIT > INFINITY_BITS
}

/// Whether the pattern `bits` is a finite number, as `f64::is_finite` says.
pub open spec fn level_is_finite(bits: u64) -> bool {
    bits % SIGN_BIT < INFINITY_BITS
}

/// The rank of a pattern that is no NaN: higher for greater numbers, the same for +0 and -0.
pub open spec fn level_rank(bits: u64) -> int {
    if bits < SIGN_BIT {
        SIGN_BIT + bits
    } else {
        2 * SIGN_BIT - bits
    }
}

/// How two levels compare, as `f64::partial_cmp` compares the numbers: nothing where either
/// is a NaN.
pub open spec fn level_order(a: u64, b: u64) -> Option<Ordering> {
    if level_is_nan(a) || level_is_nan(b) {
        None
    } else if level_rank(a) < level_rank(b) {
        Some(Ordering::Less)
    } else if level_rank(a) == level_rank(b) {
        Some(Ordering::Equal)
    } else {
        Some(Ordering::Greater)
    }
}

/// Whether the level `bits` is a finite number.
pub fn level_finite(bits: u64) -> (b: bool)
    ensures
        b == level_is_finite(bits),
{
    bits % SIGN_BIT < INFINITY_BITS
}

/// The rank of the pattern `bits`.
pub fn level_rank_of(bits: u64) -> (r: u128)
    ensures
        r == level_rank(bits),
{
    if bits < SIGN_BIT {
        SIGN_BIT as u128 + bits as u128
    } else {
        2 * (SIGN_BIT as u128) - bits as u128
    }
}

/// Compares two levels as `f64::partial_cmp` compares the numbers they stand for.
pub fn compare_levels(a: u64, b: u64) -> (r: Option<Ordering>)
    ensures
        r == level_order(a, b),
{
    if a % SIGN_BIT > INFINITY_BITS || b % SIGN_BIT > INFINITY_BITS {
        return None;
    }
    let ra = level_rank_of(a);
    let rb = level_rank_of(b);
    if ra < rb {
        Some(Ordering::Less)
    } else if ra == rb {
        Some(Ordering::Equal)
    } else {
        Some(Ordering::Greater)
    }
}

// ---------------------------------------------------------------------------
// The caller's level arithmetic
// ---------------------------------------------------------------------------

/// Whether `parse` can be called on any text and reads the same level from the same text.
pub open spec fn reads_levels<P: Fn(String) -> Option<u64>>(parse: P) -> bool {
    &&& forall|s: String| #[trigger] parse.requires((s,))
    &&& forall|s1: String, s2: String, r1: Option<u64>, r2: Option<u64>|
        #![trigger parse.ensures((s1,), r1), parse.ensures((s2,), r2)]
        s1@ == s2@ && parse.ensures((s1,), r1) && parse.ensures((s2,), r2) ==> r1 == r2
}

/// The level that `parse` reads from `text`, or nothing where it reads none.
pub open spec fn parsed_level<P: Fn(String) -> Option<u64>>(parse: P, text: Seq<char>) -> Option<
    u64,
> {
    choose|r: Option<u64>| #[trigger] reads_level_from(parse, text, r)
}

/// Whether `parse` gives `r` for some string that holds `text`.
pub open spec fn reads_level_from<P: Fn(String) -> Option<u64>>(
    parse: P,
    text: Seq<char>,
    r: Option<u64>,
) -> bool {
    exists|s: String| s@ == text && #[trigger] parse.ensures((s,), r)
}

/// A result that `parse` gave is what [`parsed_level`] names.
pub proof fn lemma_parsed_level<P: Fn(String) -> Option<u64>>(parse: P, s: String, r: Option<u64>)
    requires
        reads_levels(parse),
        parse.ensures((s,), r),
    ensures
        parsed_level(parse, s@) == r,
{
    let t = parsed_level(parse, s@);
    assert(reads_level_from(parse, s@, r));
    let s2 = choose|s2: String| s2@ == s@ && #[trigger] parse.ensures((s2,), t);
    assert(parse.ensures((s2,), t) && parse.ensures((s,), r));
}

/// Whether `format` can be called on any level and writes the same text for the same level.
pub open spec fn writes_levels<F: Fn(u64) -> String>(format: F) -> bool {
    &&& forall|b: u64| #[trigger] format.requires((b,))
    &&& forall|b: u64, s1: String, s2: String|
        #![trigger format.ensures((b,), s1), format.ensures((b,), s2)]
        format.ensures((b,), s1) && format.ensures((b,), s2) ==> s1@ == s2@
}

/// The text that `format` writes for the level `bits`.
pub open spec fn formatted_level<F: Fn(u64) -> String>(format: F, bits: u64) -> Seq<char> {
    choose|t: Seq<char>| #[trigger] writes_level_as(format, bits, t)
}

/// Whether `format` gives, for `bits`, some string that holds `t`.
pub open spec fn writes_level_as<F: Fn(u64) -> String>(format: F, bits: u64, t: Seq<char>) -> bool {
    exists|s: String| s@ == t && #[trigger] format.ensures((bits,), s)
}

/// A text that `format` gave is what [`formatted_level`] names.
pub proof fn lemma_formatted_level<F: Fn(u64) -> String>(format: F, bits: u64, s: String)
    requires
        writes_levels(format),
        format.ensures((bits,), s),
    ensures
        formatted_level(format, bits) == s@,
{
    let t = formatted_level(format, bits);
    assert(writes_level_as(format, bits, s@));
    let s2 = choose|s2: String| s2@ == t && #[trigger] format.ensures((bits,), s2);
    assert(format.ensures((bits,), s2) && format.ensures((bits,), s));
}

/// Whether `mid` can be called on any two levels and gives the same level for the same two.
pub open spec fn averages_levels<M: Fn(u64, u64) -> u64>(mid: M) -> bool {
    &&& forall|a: u64, b: u64| #[trigger] mid.requires((a, b))
    &&& forall|a: u64, b: u64, r1: u64, r2: u64|
        #![trigger mid.ensures((a, b), r1), mid.ensures((a, b), r2)]
        mid.ensures((a, b), r1) && mid.ensures((a, b), r2) ==> r1 == r2
}

/// The level that `mid` gives for the levels `a` and `b`.
pub open spec fn midpoint_level<M: Fn(u64, u64) -> u64>(mid: M, a: u64, b: u64) -> u64 {
    choose|r: u64| #[trigger] mid.ensures((a, b), r)
}

/// A level that `mid` gave is what [`midpoint_level`] names.
pub proof fn lemma_midpoint_level<M: Fn(u64, u64) -> u64>(mid: M, a: u64, b: u64, r: u64)
    requires
        averages_levels(mid),
        mid.ensures((a, b), r),
    ensures
        midpoint_level(mid, a, b) == r,
{
    let t = midpoint_level(mid, a, b);
    assert(mid.ensures((a, b), t));
}

} // verus!
