//! The rounding step that every operation ends with.
use crate::float::rounding;
use vstd::arithmetic::mul::*;
use vstd::arithmetic::power2::*;
use vstd::prelude::*;

verus! {

/// `num / den` units are `n` times two to the power of `e` exactly or, where
/// `inexact`, lie strictly between that and the next multiple. The exponent may
/// be negative, hence the common factor.
pub open spec fn bracketed(n: nat, e: int, inexact: bool, num: nat, den: nat) -> bool {
    let step = den * pow2((e + 4096) as nat);
    let target = num * pow2(4096);
    if inexact {
        n * step < target && target < (n + 1) * step
    } else {
        n * step == target
    }
}

/// Two to the power of `k`.
pub fn power_of_two(k: u32) -> (power: u128)
    requires
        k < 128,
    ensures
        power == pow2(k as nat),
{
    let mut power: u128 = 1;
    let mut i: u32 = 0;
    proof {
        lemma2_to64();
    }
    while i < k
        invariant
            i <= k < 128,
            power == pow2(i as nat),
        decreases k - i,
    {
        proof {
            lemma_pow2_unfold((i + 1) as nat);
            rounding::lemma_pow2_grows((i + 1) as nat, 127);
            lemma_power_of_127();
        }
        power = power * 2;
        i = i + 1;
    }
    power
}

pub proof fn lemma_power_of_127()
    ensures
        pow2(127) == 0x8000_0000_0000_0000_0000_0000_0000_0000,
        pow2(52) == 0x10_0000_0000_0000,
        pow2(53) == 0x20_0000_0000_0000,
        pow2(63) == 0x8000_0000_0000_0000,
{
    lemma2_to64();
    lemma2_to64_rest();
    lemma_pow2_adds(63, 64);
}

/// How many binary digits `n` has.
pub fn digit_count(n: u128) -> (count: u32)
    requires
        0 < n < pow2(127),
    ensures
        1 <= count <= 127,
        pow2((count - 1) as nat) <= n < pow2(count as nat),
{
    let mut count: u32 = 1;
    let mut power: u128 = 2;
    proof {
        lemma2_to64();
        lemma_power_of_127();
    }
    while n >= power
        invariant
            0 < n < pow2(127),
            1 <= count <= 127,
            power == pow2(count as nat),
            pow2((count - 1) as nat) <= n,
        decreases 127 - count,
    {
        proof {
            lemma_power_of_127();
            if count == 127 {
                assert(false);
            }
            lemma_pow2_unfold((count + 1) as nat);
            rounding::lemma_pow2_grows((count + 1) as nat, 127);
        }
        power = power * 2;
        count = count + 1;
    }
    count
}

/// Cutting `n` to its leading part and rounding by what was cut off is rounding
/// to the nearest.
proof fn lemma_cut(
    n: int,
    lead: int,
    rest: int,
    half: int,
    step: int,
    target: int,
    inexact: bool,
    up: bool,
)
    requires
        n == lead * (2 * half) + rest,
        0 <= rest < 2 * half,
        0 <= lead,
        half > 0,
        step > 0,
        n * step <= target < (n + 1) * step,
        inexact == (n * step < target),
        up == (rest > half || (rest == half && (inexact || lead % 2 != 0))),
    ensures
        rounding::is_nearest(
            target,
            step * (2 * half),
            if up {
                lead + 1
            } else {
                lead
            },
        ),
{
    let d = step * (2 * half);
    let middle = (lead * (2 * half) + half) * step;
    assert(d > 0) by (nonlinear_arith)
        requires
            d == step * (2 * half),
            step > 0,
            half > 0,
    ;
    assert(2 * middle == 2 * (lead * d) + d) by (nonlinear_arith)
        requires
            d == step * (2 * half),
            middle == (lead * (2 * half) + half) * step,
    ;
    assert((lead + 1) * d == lead * d + d) by (nonlinear_arith);
    assert(lead * d == (lead * (2 * half)) * step) by (nonlinear_arith)
        requires
            d == step * (2 * half),
    ;
    assert((lead * (2 * half)) * step <= n * step) by (nonlinear_arith)
        requires
            n == lead * (2 * half) + rest,
            0 <= rest,
            step > 0,
    ;
    assert((n + 1) * step <= lead * d + d) by (nonlinear_arith)
        requires
            n + 1 <= lead * (2 * half) + 2 * half,
            lead * d == (lead * (2 * half)) * step,
            d == step * (2 * half),
            step > 0,
    ;
    if rest < half {
        assert((n + 1) * step <= middle) by (nonlinear_arith)
            requires
                n == lead * (2 * half) + rest,
                rest + 1 <= half,
                middle == (lead * (2 * half) + half) * step,
                step > 0,
        ;
    } else if rest > half {
        assert(n * step > middle) by (nonlinear_arith)
            requires
                n == lead * (2 * half) + rest,
                rest > half,
                middle == (lead * (2 * half) + half) * step,
                step > 0,
        ;
    } else {
        assert(n * step == middle);
    }
}

/// Where the leading digit of `n` stands fixes the gap exponent.
proof fn lemma_gap(
    precision: nat,
    low: nat,
    n: nat,
    e: int,
    inexact: bool,
    count: nat,
    q: nat,
    num: nat,
    den: nat,
)
    requires
        precision > 0,
        den > 0,
        n > 0,
        -4000 <= e <= 4000,
        count > 0,
        pow2((count - 1) as nat) <= n < pow2(count),
        bracketed(n, e, inexact, num, den),
        q >= low,
        q >= e + count - precision,
        q == low || q == e + count - precision,
    ensures
        rounding::gap_exponent(precision, low, num, den) == q,
{
    let scale = pow2(4096);
    let place = pow2((e + 4096) as nat);
    let step = den * place;
    lemma_pow2_pos(4096);
    lemma_pow2_pos((e + 4096) as nat);
    assert(step > 0) by (nonlinear_arith)
        requires
            step == den * place,
            den > 0,
            place > 0,
    ;
    let target = num * scale;
    assert(target < pow2(count) * step) by (nonlinear_arith)
        requires
            target < (n + 1) * step || target == n * step,
            n + 1 <= pow2(count),
            step > 0,
    ;
    lemma_pow2_adds(count, (e + 4096) as nat);
    rounding::lemma_pow2_grows((count + e + 4096) as nat, (precision + q + 4096) as nat);
    lemma_pow2_adds(precision + q, 4096);
    let bound = pow2(precision + q);
    assert((count + (e + 4096) as nat) as nat == (count + e + 4096) as nat);
    assert(num < den * bound) by (nonlinear_arith)
        requires
            num * scale < pow2(count) * (den * place),
            pow2(count) * place <= bound * scale,
            den > 0,
            scale > 0,
    ;
    if q > low {
        lemma_pow2_adds((count - 1) as nat, (e + 4096) as nat);
        lemma_pow2_adds((precision + q - 1) as nat, 4096);
        assert((count - 1) as nat + (e + 4096) as nat == (precision + q - 1) as nat + 4096);
        let bottom = pow2((precision + q - 1) as nat);
        let lead = pow2((count - 1) as nat);
        assert(den * bottom <= num) by (nonlinear_arith)
            requires
                num * scale >= n * (den * place),
                n >= lead,
                lead * place == bottom * scale,
                den > 0,
                place > 0,
                scale > 0,
        ;
    }
    rounding::lemma_gap_exponent_unique(precision, low, num, den, q);
}

/// A multiplier and an exponent for the number nearest to `num / den`.
pub fn round_parts(
    precision: u32,
    low: u32,
    n: u128,
    e: i32,
    inexact: bool,
    Ghost(num): Ghost<nat>,
    Ghost(den): Ghost<nat>,
) -> (parts: (u64, u32))
    requires
        2 <= precision <= 53,
        low <= 1000,
        n < pow2(127),
        -4000 <= e <= 4000,
        den > 0,
        inexact ==> n >= pow2(precision as nat),
        bracketed(n as nat, e as int, inexact, num, den),
    ensures
        parts.0 * pow2(parts.1 as nat) == rounding::nearest(
            precision as nat,
            low as nat,
            num,
            den,
        ),
        parts.0 <= pow2(precision as nat),
        low <= parts.1 <= 6000,
        parts.1 > low ==> parts.0 >= pow2((precision - 1) as nat),
{
    proof {
        lemma_pow2_pos(4096);
        lemma_pow2_pos((e + 4096) as nat);
        lemma_mul_strictly_positive(den as int, pow2((e + 4096) as nat) as int);
        rounding::lemma_pow2_grows(precision as nat, 53);
        lemma_power_of_127();
        lemma_pow2_pos(precision as nat);
    }
    if n == 0 {
        proof {
            let step = den * pow2((e + 4096) as nat);
            assert(0 * step == 0) by (nonlinear_arith);
            assert(num == 0) by (nonlinear_arith)
                requires
                    num * pow2(4096) == 0,
                    pow2(4096) > 0,
            ;
            assert(0 == den * (0 * pow2(low as nat))) by (nonlinear_arith);
            rounding::lemma_nearest_exact(precision as nat, low as nat, 0, low as nat, num, den);
            assert(0 * pow2(low as nat) == 0) by (nonlinear_arith);
        }
        return (0, low);
    }
    let count = digit_count(n);
    let place: i32 = e + count as i32 - precision as i32;
    let q: i32 = if place > low as i32 {
        place
    } else {
        low as i32
    };
    let ghost step = den * pow2((e + 4096) as nat);
    let ghost target = num * pow2(4096);
    let ghost d = den * pow2(q as nat);
    proof {
        lemma_gap(
            precision as nat,
            low as nat,
            n as nat,
            e as int,
            inexact,
            count as nat,
            q as nat,
            num,
            den,
        );
        rounding::lemma_multiplier_bounds(precision as nat, low as nat, num, den);
        lemma_pow2_adds(q as nat, 4096);
        assert(d * pow2(4096) == den * pow2((q + 4096) as nat)) by (nonlinear_arith)
            requires
                d == den * pow2(q as nat),
                pow2((q + 4096) as nat) == pow2(q as nat) * pow2(4096),
        ;
    }
    if e >= q {
        proof {
            if inexact {
                if count <= precision {
                    rounding::lemma_pow2_grows(count as nat, precision as nat);
                }
                assert(false);
            }
        }
        let shift = power_of_two((e - q) as u32);
        proof {
            let m = n * shift;
            lemma_pow2_adds((e - q) as nat, (q + 4096) as nat);
            assert((e - q) as nat + (q + 4096) as nat == (e + 4096) as nat);
            assert(m * (d * pow2(4096)) == target) by (nonlinear_arith)
                requires
                    m == n * shift,
                    d * pow2(4096) == den * pow2((q + 4096) as nat),
                    n * (den * pow2((e + 4096) as nat)) == target,
                    pow2((e + 4096) as nat) == shift * pow2((q + 4096) as nat),
            ;
            lemma_mul_strictly_positive(d as int, pow2(4096) as int);
            assert(rounding::is_nearest(target as int, (d * pow2(4096)) as int, m));
            rounding::lemma_is_nearest_scales(num as int, d as int, m, pow2(4096) as int);
            rounding::lemma_nearest_integer_unique(num, d, m as nat);
        }
        return ((n * shift) as u64, q as u32);
    }
    let cut: u32 = (q - e) as u32;
    let mut lead: u128 = 0;
    let mut up: bool = false;
    let ghost half = pow2((cut - 1) as nat);
    proof {
        lemma_pow2_pos((cut - 1) as nat);
        lemma_pow2_unfold(cut as nat);
        lemma_pow2_adds((e + 4096) as nat, cut as nat);
        assert((e + 4096) as nat + cut as nat == (q + 4096) as nat);
        assert(step * (2 * half) == d * pow2(4096)) by (nonlinear_arith)
            requires
                step == den * pow2((e + 4096) as nat),
                d * pow2(4096) == den * pow2((q + 4096) as nat),
                pow2((q + 4096) as nat) == pow2((e + 4096) as nat) * pow2(cut as nat),
                pow2(cut as nat) == 2 * half,
        ;
        assert((n + 1) * step == n * step + step) by (nonlinear_arith);
    }
    if cut < 128 {
        let width = power_of_two(cut);
        lead = n / width;
        let rest = n % width;
        let middle = width / 2;
        up = rest > middle || (rest == middle && (inexact || lead % 2 != 0));
        proof {
            vstd::arithmetic::div_mod::lemma_fundamental_div_mod(n as int, width as int);
            assert(lead * width == width * lead) by (nonlinear_arith);
            lemma_cut(
                n as int,
                lead as int,
                rest as int,
                half as int,
                step as int,
                target as int,
                inexact,
                up,
            );
        }
    } else {
        proof {
            rounding::lemma_pow2_grows(127, (cut - 1) as nat);
            assert(0 * (2 * half) == 0) by (nonlinear_arith);
            lemma_cut(
                n as int,
                0,
                n as int,
                half as int,
                step as int,
                target as int,
                inexact,
                up,
            );
        }
    }
    let m: u128 = if up {
        lead + 1
    } else {
        lead
    };
    proof {
        rounding::lemma_is_nearest_scales(num as int, d as int, m as int, pow2(4096) as int);
        rounding::lemma_nearest_integer_unique(num, d, m as nat);
    }
    (m as u64, q as u32)
}

} // verus!
