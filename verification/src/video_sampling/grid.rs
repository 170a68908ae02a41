//! Evenly spaced points: what rounding makes of them.
use crate::float::order;
use crate::float::rounding;
use crate::float::value;
use crate::video_sampling;
use vstd::arithmetic::mul::*;
use vstd::arithmetic::power2::*;
use vstd::prelude::*;

verus! {

/// The numerator of a grid point: position times span, rounded.
pub open spec fn stretched(total: nat, i: nat) -> nat {
    order::rounded(
        order::rounded(i * value::one(), 1) * order::rounded(
            (total - 1) as nat * value::one(),
            1,
        ),
        value::one(),
    )
}

/// A grid point in units.
pub open spec fn point(total: nat, count: nat, i: nat) -> nat {
    order::rounded(
        stretched(total, i) * value::one(),
        order::rounded((count - 1) as nat * value::one(), 1),
    )
}

/// A grid point is a finite number that is not negative.
pub proof fn lemma_point(total: nat, count: nat, i: nat)
    requires
        1 <= total <= usize::MAX,
        2 <= count <= usize::MAX,
        i < count,
    ensures
        video_sampling::grid_point(total as int, count as int, i as int) == order::plain(
            point(total, count, i),
        ),
        order::rounded((count - 1) as nat * value::one(), 1) >= value::one(),
{
    let one = value::one();
    let x = order::rounded(i * one, 1);
    let b = order::rounded((total - 1) as nat * one, 1);
    let a = order::rounded((count - 1) as nat * one, 1);
    order::lemma_powers();
    order::lemma_of(i);
    order::lemma_of((total - 1) as nat);
    order::lemma_of((count - 1) as nat);
    let w = pow2(64);
    lemma_mul_upper_bound(x as int, (w * one) as int, b as int, (w * one) as int);
    assert(x * b <= one * ((w * w) * one)) by (nonlinear_arith)
        requires
            x * b <= (w * one) * (w * one),
    ;
    lemma_pow2_adds(64, 64);
    lemma_pow2_adds(128, 1074);
    assert(1 * pow2(1202) == pow2(1202));
    order::lemma_stays_below(x * b, one, 1, 1202);
    lemma_pow2_strictly_increases(1202, 2098);
    let p = stretched(total, i);
    assert(p * one <= a * pow2(1202)) by (nonlinear_arith)
        requires
            p <= pow2(1202),
            one <= a,
    ;
    order::lemma_stays_below(p * one, a, 1, 1202);
}

/// Grid points stand in order.
pub proof fn lemma_points_ordered(total: nat, count: nat, i: nat, j: nat)
    requires
        1 <= total <= usize::MAX,
        2 <= count <= usize::MAX,
        i <= j < count,
    ensures
        point(total, count, i) <= point(total, count, j),
{
    let one = value::one();
    let b = order::rounded((total - 1) as nat * one, 1);
    let a = order::rounded((count - 1) as nat * one, 1);
    lemma_point(total, count, i);
    order::lemma_powers();
    order::lemma_of_monotone(i, j);
    let x = order::rounded(i * one, 1);
    let y = order::rounded(j * one, 1);
    lemma_mul_inequality(x as int, y as int, b as int);
    lemma_mul_inequality((x * b) as int, (y * b) as int, one as int);
    order::lemma_rounded_monotone(x * b, one, y * b, one);
    let p = stretched(total, i);
    let r = stretched(total, j);
    lemma_mul_inequality(p as int, r as int, one as int);
    lemma_mul_inequality((p * one) as int, (r * one) as int, a as int);
    order::lemma_rounded_monotone(p * one, a, r * one, a);
}

/// The first grid point is zero.
pub proof fn lemma_first_point(total: nat, count: nat)
    requires
        1 <= total <= usize::MAX,
        2 <= count <= usize::MAX,
    ensures
        point(total, count, 0) == 0,
{
    let one = value::one();
    let b = order::rounded((total - 1) as nat * one, 1);
    let a = order::rounded((count - 1) as nat * one, 1);
    order::lemma_powers();
    order::lemma_of(0);
    lemma_point(total, count, 0);
    assert(0 * b == 0);
    order::lemma_zero(one);
    assert(stretched(total, 0) == 0);
    order::lemma_zero(a);
}

/// No grid point passes the last frame by more than `1 / 2^s` of a frame, where
/// numbers of that size and fineness are doubles.
pub proof fn lemma_point_bound(total: nat, count: nat, i: nat, s: nat)
    requires
        1 <= total <= usize::MAX,
        2 <= count <= usize::MAX,
        i < count,
        1 <= s <= 2,
        pow2(s) * total <= pow2(53),
    ensures
        point(total, count, i) <= (pow2(s) * (total - 1) + 1) as nat * pow2((1074 - s) as nat),
{
    let one = value::one();
    let k = pow2(s);
    let fine = pow2((1074 - s) as nat);
    lemma2_to64();
    order::lemma_powers();
    lemma_pow2_adds(s, (1074 - s) as nat);
    assert(one == k * fine);
    let last = (total - 1) as nat;
    let m = (k * last + 1) as nat;
    assert(k * last + k == k * total) by (nonlinear_arith)
        requires
            last + 1 == total,
    ;
    assert(last <= pow2(53)) by {
        assert(total <= k * total) by (nonlinear_arith)
            requires
                k >= 1,
        ;
    }
    order::lemma_of_exact(last);
    order::lemma_of(last);
    lemma_point(total, count, i);
    let b = last * one;
    let a = order::rounded((count - 1) as nat * one, 1);
    let x = order::rounded(i * one, 1);
    let p = stretched(total, i);
    order::lemma_of_monotone(i, (count - 1) as nat);
    if last == 0 {
        assert(x * b == 0) by (nonlinear_arith)
            requires
                b == 0 * one,
        ;
        order::lemma_zero(one);
        order::lemma_zero(a);
    } else {
        // The numerator is at most that of the last position, which is the exact
        // product but for one rounding.
        let top = order::rounded(a * b, one);
        lemma_mul_inequality(x as int, a as int, b as int);
        lemma_mul_inequality((x * b) as int, (a * b) as int, one as int);
        order::lemma_rounded_monotone(x * b, one, a * b, one);
        assert(p <= top);
        assert(a * b >= one * pow2(53)) by (nonlinear_arith)
            requires
                b == last * one,
                last >= 1,
                a >= one,
                one >= pow2(53),
        ;
        assert(one >= pow2(53)) by {
            assert(pow2(53) * pow2(64) >= pow2(53)) by (nonlinear_arith)
                requires
                    pow2(64) >= 1,
            ;
        }
        order::lemma_error(a * b, one);
        let w = pow2(53);
        assert((w + 1) * (a * b) == ((w + 1) * (a * last)) * one) by (nonlinear_arith)
            requires
                b == last * one,
        ;
        assert(w * (top * one) == (w * top) * one) by (nonlinear_arith);
        assert(w * top <= (w + 1) * (a * last)) by (nonlinear_arith)
            requires
                (w * top) * one <= ((w + 1) * (a * last)) * one,
                one > 0,
        ;
        // k * (w + 1) * last <= w * (k * last + 1), since k * last <= w.
        assert((w + 1) * (a * last) * k <= w * (a * m)) by (nonlinear_arith)
            requires
                m == k * last + 1,
                k * last <= w,
                a >= 0,
        ;
        assert(w * (top * k) <= w * (a * m)) by (nonlinear_arith)
            requires
                w * top <= (w + 1) * (a * last),
                (w + 1) * (a * last) * k <= w * (a * m),
                k >= 0,
        ;
        assert(top * k <= a * m) by (nonlinear_arith)
            requires
                w * (top * k) <= w * (a * m),
                w > 0,
        ;
        assert(p * one <= a * (m * fine)) by (nonlinear_arith)
            requires
                p <= top,
                top * k <= a * m,
                one == k * fine,
        ;
        order::lemma_stays_below(p * one, a, m, (1074 - s) as nat);
    }
}

/// Where the product needs no rounding, a grid point is the exact ratio, rounded
/// once, and lies within its 2^53rd part of it.
pub proof fn lemma_exact_point(total: nat, count: nat, i: nat)
    requires
        1 <= total <= usize::MAX,
        2 <= count <= usize::MAX,
        i < count,
        count - 1 <= pow2(53),
        i * (total - 1) < pow2(53),
    ensures
        ({
            let p = i * (total - 1);
            let d = count - 1;
            let q = point(total, count, i);
            &&& 0 <= p < pow2(53)
            &&& p == 0 ==> q == 0
            &&& p > 0 ==> q == order::rounded((p * value::one()) as nat, d as nat)
            &&& pow2(53) * (q * d) <= (pow2(53) + 1) * (p * value::one())
            &&& pow2(53) * (q * d) >= (pow2(53) - 1) * (p * value::one())
        }),
{
    let one = value::one();
    let last = (total - 1) as nat;
    let d = (count - 1) as nat;
    let p = i * last;
    let w = pow2(53);
    order::lemma_powers();
    lemma_point(total, count, i);
    let a = order::rounded(d * one, 1);
    if last == 0 || i == 0 {
        assert(p == 0) by (nonlinear_arith)
            requires
                p == i * last,
                last == 0 || i == 0,
        ;
        order::lemma_of(0);
        order::lemma_of(i);
        order::lemma_of(last);
        let x = order::rounded(i * one, 1);
        let b = order::rounded(last * one, 1);
        assert(x * b == 0) by (nonlinear_arith)
            requires
                x == 0 || b == 0,
        ;
        order::lemma_zero(one);
        order::lemma_zero(a);
        assert((w + 1) * (p * one) == 0 && (w - 1) * (p * one) == 0) by (nonlinear_arith)
            requires
                p == 0,
        ;
        assert(w * (0 * d) == 0);
    } else {
        assert(last < w && i < w && p > 0) by (nonlinear_arith)
            requires
                p < w,
                last >= 1,
                i >= 1,
                p == i * last,
        ;
        order::lemma_of_exact(i);
        order::lemma_of_exact(last);
        order::lemma_of_exact(d);
        order::lemma_of(i);
        order::lemma_of(last);
        order::lemma_of(d);
        assert((i * one) * (last * one) == one * (p * one)) by (nonlinear_arith)
            requires
                p == i * last,
        ;
        rounding::lemma_nearest_exact(53, 0, p, 1074, one * (p * one), one);
        assert(stretched(total, i) == p * one);
        assert((p * one) * one == (p * one) * one);
        let q = point(total, count, i);
        assert(q == order::rounded((p * one) * one, d * one));
        assert(((p * one) * one) * d == (p * one) * (d * one)) by (nonlinear_arith);
        assert(d * one > 0) by (nonlinear_arith)
            requires
                d >= 1,
                one >= 1,
        ;
        rounding::lemma_nearest_of_equal_ratios(53, 0, (p * one) * one, d * one, p * one, d);
        assert(p * one >= d * w) by (nonlinear_arith)
            requires
                p >= 1,
                one >= w * pow2(64),
                pow2(64) >= d,
                w >= 0,
        ;
        order::lemma_error(p * one, d);
    }
}

} // verus!
