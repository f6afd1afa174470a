//! Fixed-width bitsets over `u128`, used as possibility sets ("waves").
//!
//! A wave holds one bit per tile type; bit `i` set means tile type `i` is
//! still possible for the cell.

use vstd::prelude::*;

verus! {

/// True when bit `i` of `w` is set (meaningful for `i < 128`).
pub open spec fn bit128(w: u128, i: u128) -> bool {
    (w >> i) & 1 == 1
}

/// Number of set bits in `w`.
pub open spec fn count_bits(w: u128) -> nat
    decreases w,
{
    if w == 0 {
        0
    } else {
        (w % 2) as nat + count_bits(w / 2)
    }
}

/// `a` holds no bit that `b` lacks.
pub open spec fn wave_subset(a: u128, b: u128) -> bool {
    a & b == a
}

/// Every set bit of `w` lies below index `t`.
pub open spec fn wave_in_range(w: u128, t: int) -> bool {
    forall|i: u128| i < 128 && #[trigger] bit128(w, i) ==> (i as int) < t
}

/// The wave with exactly the bits `0 .. t` set.
pub open spec fn full_wave(t: u8) -> u128 {
    if t >= 128 {
        u128::MAX
    } else {
        (((1u128 << (t as u128)) - 1) as u128)
    }
}

/// A wave counts no bits exactly when it is empty.
pub proof fn lemma_count_bits_zero(w: u128)
    ensures
        (count_bits(w) == 0) <==> (w == 0),
    decreases w,
{
    if w != 0 {
        if w % 2 == 0 {
            assert(w / 2 != 0);
            lemma_count_bits_zero(w / 2);
        }
    }
}

proof fn lemma_count_bits_bound(w: u128, n: nat)
    requires
        (w as int) < vstd::arithmetic::power2::pow2(n),
    ensures
        count_bits(w) <= n,
    decreases n,
{
    vstd::arithmetic::power2::lemma_pow2_pos(n);
    if w != 0 {
        if n == 0 {
            assert(vstd::arithmetic::power2::pow2(0) == 1) by {
                vstd::arithmetic::power2::lemma2_to64();
            }
        } else {
            assert(vstd::arithmetic::power2::pow2(n) == 2 * vstd::arithmetic::power2::pow2((n - 1) as nat)) by {
                vstd::arithmetic::power2::lemma_pow2_unfold(n);
            }
            lemma_count_bits_bound(w / 2, (n - 1) as nat);
        }
    }
}

/// A `u128` wave holds at most 128 set bits.
pub proof fn lemma_count_bits_le_128(w: u128)
    ensures
        count_bits(w) <= 128,
{
    vstd::arithmetic::power2::lemma2_to64();
    vstd::arithmetic::power2::lemma_pow2_adds(64, 64);
    assert((w as int) < vstd::arithmetic::power2::pow2(128));
    lemma_count_bits_bound(w, 128);
}

/// Every wave refines itself.
pub proof fn lemma_subset_refl(a: u128)
    ensures
        wave_subset(a, a),
{
    assert(a & a == a) by (bit_vector);
}

/// Intersection refines both of its operands.
pub proof fn lemma_and_subset(a: u128, b: u128)
    ensures
        wave_subset(a & b, a),
        wave_subset(a & b, b),
{
    assert((a & b) & a == (a & b) && (a & b) & b == (a & b)) by (bit_vector);
}

/// Wave inclusion is transitive.
pub proof fn lemma_subset_trans(a: u128, b: u128, c: u128)
    requires
        wave_subset(a, b),
        wave_subset(b, c),
    ensures
        wave_subset(a, c),
{
    assert(a & c == a) by (bit_vector)
        requires
            a & b == a,
            b & c == b,
    ;
}

/// A bit of a sub-wave is a bit of the wave that contains it.
pub proof fn lemma_subset_bit(a: u128, b: u128, i: u128)
    requires
        wave_subset(a, b),
        bit128(a, i),
    ensures
        bit128(b, i),
{
    assert((b >> i) & 1 == 1) by (bit_vector)
        requires
            a & b == a,
            (a >> i) & 1 == 1,
    ;
}

/// A sub-wave of a wave within range `t` stays within range `t`.
pub proof fn lemma_subset_in_range(a: u128, b: u128, t: int)
    requires
        wave_subset(a, b),
        wave_in_range(b, t),
    ensures
        wave_in_range(a, t),
{
    assert forall|i: u128| i < 128 && #[trigger] bit128(a, i) implies (i as int) < t by {
        lemma_subset_bit(a, b, i);
    }
}

/// A set bit witnesses a positive count.
pub proof fn lemma_bit_count_pos(w: u128, i: u128)
    requires
        i < 128,
        bit128(w, i),
    ensures
        count_bits(w) >= 1,
    decreases i,
{
    if i == 0 {
        assert(w % 2 == 1) by (bit_vector)
            requires
                (w >> 0u128) & 1 == 1,
        ;
        assert(w != 0);
    } else {
        assert(((w / 2) >> ((i - 1) as u128)) & 1 == 1) by (bit_vector)
            requires
                1 <= i < 128,
                (w >> i) & 1 == 1,
        ;
        lemma_bit_count_pos(w / 2, (i - 1) as u128);
        assert(w != 0) by (bit_vector)
            requires
                (w >> i) & 1 == 1,
        ;
    }
}

/// A sub-wave counts no more bits than the wave that contains it.
pub proof fn lemma_subset_count(a: u128, b: u128)
    requires
        wave_subset(a, b),
    ensures
        count_bits(a) <= count_bits(b),
    decreases a,
{
    if a != 0 {
        assert(b != 0 && (a / 2) & (b / 2) == a / 2 && a % 2 <= b % 2) by (bit_vector)
            requires
                a & b == a,
                a != 0,
        ;
        lemma_subset_count(a / 2, b / 2);
    }
}

/// Equinumerous nested waves are equal.
pub proof fn lemma_subset_equal_count(a: u128, b: u128)
    requires
        wave_subset(a, b),
        count_bits(a) == count_bits(b),
    ensures
        a == b,
    decreases b,
{
    if b == 0 {
        assert(a == 0) by (bit_vector)
            requires
                a & b == a,
                b == 0,
        ;
    } else {
        if a == 0 {
            lemma_count_bits_zero(b);
        } else {
            assert((a / 2) & (b / 2) == a / 2 && a % 2 <= b % 2) by (bit_vector)
                requires
                    a & b == a,
            ;
            lemma_subset_count(a / 2, b / 2);
            lemma_subset_equal_count(a / 2, b / 2);
            assert(a == b) by (bit_vector)
                requires
                    a / 2 == b / 2,
                    a % 2 == b % 2,
            ;
        }
    }
}

/// A single-bit wave: its count, its one set bit, and no other.
pub proof fn lemma_single_bit(i: u128)
    requires
        i < 128,
    ensures
        count_bits(1u128 << i) == 1,
        bit128(1u128 << i, i),
        forall|j: u128| j < 128 && #[trigger] bit128(1u128 << i, j) ==> j == i,
    decreases i,
{
    if i == 0 {
        assert(1u128 << i == 1) by (bit_vector)
            requires
                i == 0u128,
        ;
        assert(count_bits(0) == 0);
        assert(count_bits(1u128 << i) == 1);
    } else {
        lemma_single_bit((i - 1) as u128);
        assert((1u128 << i) % 2 == 0 && (1u128 << i) / 2 == 1u128 << ((i - 1) as u128) && (1u128 << i) != 0)
            by (bit_vector)
            requires
                1 <= i < 128,
        ;
        assert(count_bits(1u128 << i) == count_bits(1u128 << ((i - 1) as u128)));
    }
    assert(((1u128 << i) >> i) & 1 == 1) by (bit_vector)
        requires
            i < 128,
    ;
    assert forall|j: u128| j < 128 && #[trigger] bit128(1u128 << i, j) implies j == i by {
        assert(((1u128 << i) >> j) & 1 == 1 ==> j == i) by (bit_vector)
            requires
                i < 128,
                j < 128,
        ;
    }
}

/// A set bit's singleton is a sub-wave of the wave it was taken from.
pub proof fn lemma_single_subset(w: u128, i: u128)
    requires
        i < 128,
        bit128(w, i),
    ensures
        wave_subset(1u128 << i, w),
{
    assert((1u128 << i) & w == 1u128 << i) by (bit_vector)
        requires
            i < 128,
            (w >> i) & 1 == 1,
    ;
}

/// A wave of one bit that is set at `i` is the singleton of `i`.
pub proof fn lemma_singleton(w: u128, i: u128)
    requires
        i < 128,
        bit128(w, i),
        count_bits(w) == 1,
    ensures
        w == 1u128 << i,
    decreases i,
{
    if i == 0 {
        assert(w % 2 == 1) by (bit_vector)
            requires
                (w >> 0u128) & 1 == 1,
        ;
        lemma_count_bits_zero(w / 2);
        assert(w == 1u128 << i) by (bit_vector)
            requires
                i == 0u128,
                w % 2 == 1,
                w / 2 == 0,
        ;
    } else {
        assert(((w / 2) >> ((i - 1) as u128)) & 1 == 1) by (bit_vector)
            requires
                1 <= i < 128,
                (w >> i) & 1 == 1,
        ;
        lemma_bit_count_pos(w / 2, (i - 1) as u128);
        assert(w % 2 == 0 && count_bits(w / 2) == 1);
        lemma_singleton(w / 2, (i - 1) as u128);
        assert(w == 1u128 << i) by (bit_vector)
            requires
                1 <= i < 128,
                w % 2 == 0,
                w / 2 == 1u128 << ((i - 1) as u128),
        ;
    }
}

/// The bits of `full_wave(t)` are exactly the indices below `t`.
pub proof fn lemma_full_wave(t: u8)
    requires
        t <= 128,
    ensures
        count_bits(full_wave(t)) == t,
        wave_in_range(full_wave(t), t as int),
        forall|i: u128| i < 128 ==> (#[trigger] bit128(full_wave(t), i) <==> i < t as u128),
    decreases t,
{
    if t == 0 {
        assert(full_wave(0) == 0) by (bit_vector);
    } else {
        lemma_full_wave((t - 1) as u8);
        assert(full_wave(t) % 2 == 1 && full_wave(t) / 2 == full_wave((t - 1) as u8) && full_wave(t)
            != 0) by (bit_vector)
            requires
                1 <= t <= 128,
        ;
    }
    assert forall|i: u128| i < 128 implies (#[trigger] bit128(full_wave(t), i) <==> i < t as u128) by {
        assert(((full_wave(t) >> i) & 1 == 1) <==> i < t as u128) by (bit_vector)
            requires
                i < 128,
                t <= 128,
        ;
    }
    assert forall|i: u128| i < 128 && #[trigger] bit128(full_wave(t), i) implies (i as int) < t as int by {
        assert(bit128(full_wave(t), i) <==> i < t as u128);
    }
}

/// Number of set bits in `w`, computed bit by bit.
pub fn popcount(w: u128) -> (c: u32)
    ensures
        c == count_bits(w),
{
    proof {
        lemma_count_bits_le_128(w);
    }
    let mut r: u128 = w;
    let mut c: u32 = 0;
    while r != 0
        invariant
            c + count_bits(r) == count_bits(w),
            count_bits(w) <= 128,
        decreases r,
    {
        c = c + (r % 2) as u32;
        r = r / 2;
    }
    proof {
        lemma_count_bits_zero(r);
    }
    c
}

/// Index of the `k`-th set bit of `w`, in ascending bit order.
///
/// The result `idx` is a set bit of `w`, and exactly `k` set bits of `w`
/// lie below it, so `count_bits(w >> idx)` is what remains of the count.
pub fn nth_set_bit(w: u128, k: u32) -> (idx: u8)
    requires
        k < count_bits(w),
    ensures
        idx < 128,
        bit128(w, idx as u128),
        count_bits(w >> (idx as u128)) == count_bits(w) - k,
{
    let mut r: u128 = w;
    let mut i: u8 = 0;
    let mut seen: u32 = 0;
    proof {
        assert(w >> 0u128 == w) by (bit_vector);
    }
    loop
        invariant
            k < count_bits(w),
            seen <= k,
            seen + count_bits(r) == count_bits(w),
            i <= 128,
            i < 128 ==> r == w >> (i as u128),
            i == 128 ==> r == 0,
        decreases 128 - i,
    {
        if r == 0 {
            proof {
                lemma_count_bits_zero(r);
                assert(false);
            }
        }
        assert(i < 128) by {
            lemma_count_bits_zero(r);
        }
        if r % 2 == 1 {
            if seen == k {
                proof {
                    assert((w >> (i as u128)) & 1 == 1) by (bit_vector)
                        requires
                            (w >> (i as u128)) % 2 == 1,
                    ;
                }
                return i;
            }
            seen = seen + 1;
        }
        proof {
            if i < 127 {
                assert((w >> (i as u128)) / 2 == w >> ((i + 1) as u128)) by (bit_vector)
                    requires
                        i < 127u8,
                ;
            } else {
                assert((w >> 127u128) / 2 == 0) by (bit_vector);
            }
        }
        r = r / 2;
        i = i + 1;
    }
}

} // verus!
