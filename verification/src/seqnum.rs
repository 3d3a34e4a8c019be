//! Modular 32-bit sequence arithmetic.
//!
//! Transport sequence numbers live in a 32-bit space that wraps around. The
//! engine lifts each incoming number to an unbounded absolute position using
//! the signed 32-bit difference from the stream's current position: a number
//! within half a turn ahead of the base is placed ahead of it, anything else
//! behind it. All later comparisons are then plain integer comparisons, which
//! makes wrap-around transparent to the rest of the engine.

use vstd::prelude::*;

verus! {

use vstd::arithmetic::div_mod::{lemma_fundamental_div_mod, lemma_mod_multiples_vanish,
    lemma_small_mod};

/// One full turn of the 32-bit sequence space.
pub const SEQ_MOD: u64 = 0x1_0000_0000;

/// Half a turn: the window separating "ahead of" from "behind".
pub const SEQ_HALF: u64 = 0x8000_0000;

/// Absolute positions stay below this bound; a flow is abandoned before
/// reaching it (it would take 2^61 reassembled bytes).
pub const SEQ_LIMIT: u64 = 0x2000_0000_0000_0000;

/// How far the 32-bit number `s` sits ahead of the absolute position `base`,
/// in `0 .. 2^32`.
pub open spec fn seq_rel(base: int, s: int) -> int {
    let b = base % (SEQ_MOD as int);
    if s >= b {
        s - b
    } else {
        s + SEQ_MOD as int - b
    }
}

/// `seq_rel` is exactly the Euclidean remainder of the signed difference.
pub proof fn lemma_seq_rel_mod(base: int, s: int)
    requires
        base >= 0,
        0 <= s < SEQ_MOD as int,
    ensures
        seq_rel(base, s) == (s - base) % (SEQ_MOD as int),
{
    let m = SEQ_MOD as int;
    let b = base % m;
    let k = base / m;
    assert(base == m * k + b) by {
        lemma_fundamental_div_mod(base, m);
    }
    assert((s - base) == m * (-k) + (s - b));
    lemma_mod_multiples_vanish(-k, s - b, m);
    if s >= b {
        lemma_small_mod((s - b) as nat, m as nat);
    } else {
        assert((s - b) % m == (m * 1 + (s - b)) % m) by {
            lemma_mod_multiples_vanish(1, s - b, m);
        }
        lemma_small_mod((s + m - b) as nat, m as nat);
    }
}

/// The absolute position that the 32-bit number `s` denotes, seen from
/// absolute position `base`: within `[base - 2^31, base + 2^31)`.
pub open spec fn lift_pos(base: int, s: int) -> int {
    if seq_rel(base, s) < SEQ_HALF as int {
        base + seq_rel(base, s)
    } else {
        base + seq_rel(base, s) - SEQ_MOD as int
    }
}

/// Lifts the 32-bit sequence number `s` to its absolute position relative to
/// `base`, by signed 32-bit difference.
pub fn lift(base: u64, s: u32) -> (r: u64)
    requires
        SEQ_MOD <= base < SEQ_LIMIT,
    ensures
        r as int == lift_pos(base as int, s as int),
        base - SEQ_HALF <= r < base + SEQ_HALF,
        SEQ_HALF <= r < SEQ_LIMIT + SEQ_HALF,
{
    let s64: u64 = s as u64;
    let b: u64 = base % SEQ_MOD;
    let rel: u64 = if s64 >= b {
        s64 - b
    } else {
        s64 + SEQ_MOD - b
    };
    if rel < SEQ_HALF {
        base + rel
    } else {
        base - (SEQ_MOD - rel)
    }
}

/// Translating a whole flow through the sequence space leaves every relative
/// offset unchanged: the engine's view of a flow starting anywhere in the
/// 32-bit space equals its view of the same flow starting at zero.
pub proof fn lemma_lift_shift(base1: int, base2: int, s1: int, s2: int)
    requires
        base1 >= 0,
        base2 >= 0,
        0 <= s1 < SEQ_MOD as int,
        0 <= s2 < SEQ_MOD as int,
        (s1 - base1) % (SEQ_MOD as int) == (s2 - base2) % (SEQ_MOD as int),
    ensures
        lift_pos(base1, s1) - base1 == lift_pos(base2, s2) - base2,
{
    lemma_seq_rel_mod(base1, s1);
    lemma_seq_rel_mod(base2, s2);
}

/// The premise of `lemma_lift_shift` holds whenever the second flow is the
/// first one translated by `d` through the wrapping 32-bit space.
pub proof fn lemma_shifted_flow(base: int, s: int, d: int)
    requires
        base >= 0,
        0 <= s < SEQ_MOD as int,
        d >= 0,
    ensures
        (((s + d) % (SEQ_MOD as int)) - (base + d)) % (SEQ_MOD as int) == (s - base) % (
        SEQ_MOD as int),
{
    let m = SEQ_MOD as int;
    let s2 = (s + d) % m;
    let k = (s + d) / m;
    assert(s + d == m * k + s2) by {
        lemma_fundamental_div_mod(s + d, m);
    }
    assert(s2 - (base + d) == m * (-k) + (s - base));
    lemma_mod_multiples_vanish(-k, s - base, m);
}

} // verus!
