//! Two-level size classification for the segregated-fit allocator.
//!
//! A size `s` is mapped to a pair `(fl, sl)`: `fl` is the position of the
//! highest set bit of `s` (its power-of-two magnitude) and `sl` selects one
//! of 32 equal subdivisions within that magnitude, taken from the next five
//! bits below the `fl` bit. Classes are ordered lexicographically; larger
//! sizes never map to a smaller class.
use vstd::prelude::*;
use vstd::arithmetic::power2::{
    pow2, lemma_pow2_unfold, lemma_pow2_pos, lemma_pow2_adds, lemma_pow2_strictly_increases,
    lemma2_to64,
};
use vstd::arithmetic::div_mod::{
    lemma_div_is_ordered, lemma_div_denominator, lemma_div_multiples_vanish,
};
use vstd::bits::{
    lemma_usize_shr_is_div, lemma_usize_shl_is_mul, lemma_usize_low_bits_mask_is_mod,
    lemma_low_bits_mask_values,
};

verus! {

/// Number of first-level classes: sizes below `2^32` are classifiable.
pub const FL_INDEX_COUNT: usize = 32;

/// Number of second-level subdivisions within one first-level class.
pub const SL_INDEX_COUNT: usize = 32;

/// The largest classifiable size.
pub const MAX_CLASS_SIZE: usize = 0xFFFF_FFFF;

/// Position of the highest set bit of `s`: `floor(log2(s))` for `s >= 1`.
pub open spec fn fl_of(s: nat) -> nat
    decreases s,
{
    if s < 2 {
        0
    } else {
        1 + fl_of(s / 2)
    }
}

/// Second-level index of `s`: the next five bits below the highest set bit,
/// i.e. `(32 * s / 2^fl_of(s)) mod 32`.
pub open spec fn sl_of(s: nat) -> nat {
    (s * 32) / pow2(fl_of(s)) % 32
}

/// Lexicographic order on `(first-level, second-level)` class pairs.
pub open spec fn class_le(f1: int, s1: int, f2: int, s2: int) -> bool {
    f1 < f2 || (f1 == f2 && s1 <= s2)
}

/// The first-level index brackets the size between two powers of two.
proof fn lemma_fl_bounds(s: nat)
    requires
        1 <= s,
    ensures
        pow2(fl_of(s)) <= s < pow2(fl_of(s) + 1),
    decreases s,
{
    if s < 2 {
        lemma2_to64();
    } else {
        lemma_fl_bounds(s / 2);
        lemma_pow2_unfold(fl_of(s));
        lemma_pow2_unfold(fl_of(s) + 1);
    }
}

/// The first-level index is monotone in the size.
proof fn lemma_fl_monotone(s1: nat, s2: nat)
    requires
        s1 <= s2,
    ensures
        fl_of(s1) <= fl_of(s2),
    decreases s2,
{
    if 2 <= s1 {
        lemma_fl_monotone(s1 / 2, s2 / 2);
    }
}

/// The scaled quantity `32 * s / 2^fl_of(s)` lies in `[32, 64)`, so the
/// second-level index is just that quantity minus 32, and is below 32.
proof fn lemma_scaled_range(s: nat)
    requires
        1 <= s,
    ensures
        32 <= (s * 32) / pow2(fl_of(s)) < 64,
        sl_of(s) == (s * 32) / pow2(fl_of(s)) - 32,
        sl_of(s) < 32,
{
    lemma_fl_bounds(s);
    lemma_pow2_pos(fl_of(s));
    lemma_pow2_unfold(fl_of(s) + 1);
    let p = pow2(fl_of(s)) as int;
    let scaled = (s * 32) as int / p;
    assert(p * 32 <= s * 32 <= (2 * p - 1) * 32) by (nonlinear_arith)
        requires
            p <= s < 2 * p,
    ;
    lemma_div_is_ordered(p * 32, (s * 32) as int, p);
    lemma_div_multiples_vanish(32, p);
    assert(scaled >= 32);
    assert(scaled < 64) by (nonlinear_arith)
        requires
            0 < p,
            (s * 32) as int <= (2 * p - 1) * 32,
            scaled == (s * 32) as int / p,
    ;
}

/// Class monotonicity: a larger size never maps to a lexicographically
/// smaller `(first-level, second-level)` class.
pub proof fn lemma_class_monotone(s1: nat, s2: nat)
    requires
        1 <= s1 <= s2,
    ensures
        class_le(fl_of(s1) as int, sl_of(s1) as int, fl_of(s2) as int, sl_of(s2) as int),
{
    lemma_fl_monotone(s1, s2);
    if fl_of(s1) == fl_of(s2) {
        lemma_scaled_range(s1);
        lemma_scaled_range(s2);
        lemma_pow2_pos(fl_of(s1));
        lemma_div_is_ordered((s1 * 32) as int, (s2 * 32) as int, pow2(fl_of(s1)) as int);
    }
}

/// A size whose class is lexicographically above the class of `r` is larger
/// than `r` itself: the search may hand out any block found strictly above
/// the request's class.
pub proof fn lemma_class_gap(r: nat, b: nat)
    requires
        1 <= r,
        1 <= b,
        !class_le(fl_of(b) as int, sl_of(b) as int, fl_of(r) as int, sl_of(r) as int),
    ensures
        b > r,
{
    if b <= r {
        lemma_class_monotone(b, r);
    }
}

/// Every classifiable size has its class inside the fixed index ranges.
pub proof fn lemma_class_bounds(s: nat)
    requires
        8 <= s <= MAX_CLASS_SIZE,
    ensures
        3 <= fl_of(s) < 32,
        sl_of(s) < 32,
{
    lemma_fl_bounds(s);
    lemma_scaled_range(s);
    lemma2_to64();
    if fl_of(s) < 3 {
        if fl_of(s) + 1 < 3 {
            lemma_pow2_strictly_increases(fl_of(s) + 1, 3);
        }
        assert(false);
    }
    if fl_of(s) >= 32 {
        if fl_of(s) > 32 {
            lemma_pow2_strictly_increases(32, fl_of(s));
        }
        assert(false);
    }
}

/// Compute the `(fl, sl)` class of `size`.
pub fn classify(size: usize) -> (r: (usize, usize))
    requires
        8 <= size && size <= MAX_CLASS_SIZE,
    ensures
        r.0 == fl_of(size as nat),
        r.1 == sl_of(size as nat),
        3 <= r.0 < 32,
        r.1 < 32,
{
    let mut fl: usize = 0;
    let mut temp: usize = size;
    proof {
        lemma2_to64();
        assert(pow2(0) == 1);
    }
    while temp > 1
        invariant
            8 <= size && size <= MAX_CLASS_SIZE,
            1 <= temp,
            fl < 32,
            temp == size as nat / pow2(fl as nat),
            fl_of(size as nat) == fl + fl_of(temp as nat),
        decreases temp,
    {
        proof {
            lemma_pow2_pos(fl as nat);
            assert(temp >> 1usize == temp / 2) by (bit_vector);
            lemma_pow2_adds(fl as nat, 1);
            lemma2_to64();
            lemma_div_denominator(size as int, pow2(fl as nat) as int, 2);
            // the next first level still fits below 32: 2^(fl+1) <= size < 2^32
            assert(size as nat >= 2 * pow2(fl as nat)) by (nonlinear_arith)
                requires
                    size as nat / pow2(fl as nat) >= 2,
                    pow2(fl as nat) > 0,
            ;
            if fl + 1 >= 32 {
                lemma_pow2_strictly_increases(32, (fl + 1) as nat);
                assert(false);
            }
        }
        fl = fl + 1;
        temp = temp >> 1;
    }
    proof {
        // temp == 1, so 2^fl <= size < 2^(fl+1) and fl == fl_of(size)
        lemma_pow2_pos(fl as nat);
        assert(size as nat >= pow2(fl as nat) && (size as nat) < 2 * pow2(fl as nat))
            by (nonlinear_arith)
            requires
                size as nat / pow2(fl as nat) == 1,
                pow2(fl as nat) > 0,
        ;
        lemma_pow2_unfold((fl + 1) as nat);
        if fl < 3 {
            lemma_fl_bounds(size as nat);
            lemma2_to64();
            assert(false);
        }
        lemma_low_bits_mask_values();
        lemma2_to64();
    }
    let sl: usize = if fl >= 5 {
        let shifted = size >> (fl - 5);
        proof {
            lemma_usize_shr_is_div(size, (fl - 5) as usize);
            // size / 2^(fl-5) == 32*size / 2^fl
            lemma_pow2_pos((fl - 5) as nat);
            lemma_pow2_adds((fl - 5) as nat, 5);
            lemma_div_denominator((size * 32) as int, 32, pow2((fl - 5) as nat) as int);
            lemma_div_multiples_vanish(size as int, 32);
            assert(32 * pow2((fl - 5) as nat) == pow2((fl - 5) as nat) * 32);
            lemma_usize_low_bits_mask_is_mod(shifted, 5);
        }
        shifted & 31
    } else {
        let shifted = size << (5 - fl);
        proof {
            // size < 2^(fl+1) <= 32 here, so the shift cannot overflow
            lemma_pow2_strictly_increases((fl + 1) as nat, 6);
            assert(size * pow2((5 - fl) as nat) < 32 * 32) by (nonlinear_arith)
                requires
                    size < 32,
                    pow2((5 - fl) as nat) <= 32,
            ;
            lemma_pow2_strictly_increases((5 - fl) as nat, 6);
            lemma_usize_shl_is_mul(size, (5 - fl) as usize);
            // size * 2^(5-fl) == 32*size / 2^fl exactly
            lemma_pow2_pos(fl as nat);
            lemma_pow2_adds(fl as nat, (5 - fl) as nat);
            assert((size * 32) as int == (size * pow2((5 - fl) as nat)) as int * pow2(
                fl as nat,
            ) as int) by (nonlinear_arith)
                requires
                    pow2(5) == pow2(fl as nat) * pow2((5 - fl) as nat),
                    pow2(5) == 32,
            ;
            lemma_div_multiples_vanish((size * pow2((5 - fl) as nat)) as int, pow2(fl as nat) as int);
            assert(pow2(fl as nat) as int * (size * pow2((5 - fl) as nat)) as int == (size * pow2(
                (5 - fl) as nat,
            )) as int * pow2(fl as nat) as int) by (nonlinear_arith);
            lemma_usize_low_bits_mask_is_mod(shifted, 5);
        }
        shifted & 31
    };
    proof {
        lemma_scaled_range(size as nat);
    }
    (fl, sl)
}

} // verus!
