//! What holds of the frames that sampling picks.
//!
//! Positions are computed in double precision. Up to 2^51 frames that shows
//! nowhere: every index is a frame of the source and the indices stand in order.
use crate::float::binary32::Binary32;
use crate::float::binary64::Binary64;
use crate::float::order;
use crate::float::rounding;
use crate::float::value;
use crate::float::value::FloatValue;
use crate::registry::{glm53_flash, minimax_m3, qwen3_vl};
use crate::video_sampling;
use crate::video_sampling::grid;
use crate::video_sampling::ties;
use crate::video_sampling::{VideoSamplingStrategy, VideoSourceMeta};
use vstd::arithmetic::div_mod::*;
use vstd::arithmetic::mul::*;
use vstd::arithmetic::power2::*;
use vstd::prelude::*;

pub mod plans;

verus! {

/// No index stands before a smaller one.
pub open spec fn in_order(indices: Seq<usize>) -> bool {
    forall|i: int, j: int| 0 <= i <= j < indices.len() ==> indices[i] <= indices[j]
}

/// Every index is greater than those before it.
pub open spec fn increasing(indices: Seq<usize>) -> bool {
    forall|i: int, j: int| 0 <= i < j < indices.len() ==> indices[i] < indices[j]
}

/// Every index is a frame of the source.
pub open spec fn in_range(indices: Seq<usize>, total: int) -> bool {
    forall|i: int| 0 <= i < indices.len() ==> #[trigger] indices[i] < total
}

/// `n`, or the largest index.
spec fn capped(n: nat) -> nat {
    if n > usize::MAX {
        usize::MAX as nat
    } else {
        n
    }
}

proof fn lemma_floor_index(units: nat)
    ensures
        video_sampling::to_index(order::plain(units).floor()) == capped(units / value::one()),
{
    order::lemma_powers();
    let k = units / value::one();
    lemma_div_multiples_vanish(k as int, value::one() as int);
    assert(value::one() * k == k * value::one()) by (nonlinear_arith);
}

proof fn lemma_ties_index(num: nat, den: nat)
    requires
        den > 0,
        order::rounded(num, den) < pow2(2098),
    ensures
        video_sampling::to_index(qwen3_vl::half_to_even(order::plain(order::rounded(num, den))))
            == capped(rounding::nearest_integer(order::rounded(num, den), value::one())),
{
    order::lemma_powers();
    let units = order::rounded(num, den);
    let (m, q) = ties::lemma_rounded_is_written(num, den);
    ties::lemma_half_to_even(m, q, units);
    let k = rounding::nearest_integer(units, value::one());
    lemma_div_multiples_vanish(k as int, value::one() as int);
    assert(value::one() * k == k * value::one()) by (nonlinear_arith);
}

proof fn lemma_floor_grid(total: nat, count: nat)
    requires
        1 <= total <= usize::MAX,
        1 <= count <= usize::MAX,
    ensures
        ({
            let indices = video_sampling::floor_grid(total as int, count as int);
            &&& indices.len() == count
            &&& indices[0] == 0
            &&& in_order(indices)
            &&& count > 1 ==> forall|i: int|
                0 <= i < count ==> #[trigger] indices[i] == capped(
                    grid::point(total, count, i as nat) / value::one(),
                )
        }),
{
    if count > 1 {
        order::lemma_powers();
        let one = value::one();
        let indices = video_sampling::floor_grid(total as int, count as int);
        assert forall|i: int| 0 <= i < count implies #[trigger] indices[i] == capped(
            grid::point(total, count, i as nat) / one,
        ) by {
            grid::lemma_point(total, count, i as nat);
            lemma_floor_index(grid::point(total, count, i as nat));
        }
        assert forall|i: int, j: int| 0 <= i <= j < indices.len() implies indices[i]
            <= indices[j] by {
            grid::lemma_points_ordered(total, count, i as nat, j as nat);
            lemma_div_is_ordered(
                grid::point(total, count, i as nat) as int,
                grid::point(total, count, j as nat) as int,
                one as int,
            );
        }
        grid::lemma_first_point(total, count);
        lemma_div_basics(one as int);
        assert(indices[0] == capped(grid::point(total, count, 0) / one));
    }
}

/// Law: uniform sampling takes as many frames as it counts, from the first on and
/// in order; the count keeps to the bounds, but for at least one frame.
pub proof fn law_uniform_keeps_to_its_bounds(
    source: VideoSourceMeta,
    min_frames: usize,
    max_frames: usize,
    sample_fps: Binary32,
)
    requires
        source.total_frames > 0,
        min_frames <= max_frames,
    ensures
        ({
            let indices = video_sampling::uniform_indices(
                source,
                min_frames,
                max_frames,
                sample_fps,
            );
            let count = video_sampling::uniform_count(source, min_frames, max_frames, sample_fps);
            &&& indices.len() == count
            &&& 1 <= count
            &&& min_frames <= count
            &&& count <= max_frames || count == 1
            &&& indices[0] == 0
            &&& in_order(indices)
        }),
{
    lemma_floor_grid(
        source.total_frames as nat,
        video_sampling::uniform_count(source, min_frames, max_frames, sample_fps) as nat,
    );
}

/// Law: uniform sampling picks frames of the source, up to 2^52 of them. (Beyond,
/// rounding can pass the last frame.)
pub proof fn law_uniform_picks_frames_of_the_source(
    source: VideoSourceMeta,
    min_frames: usize,
    max_frames: usize,
    sample_fps: Binary32,
)
    requires
        0 < source.total_frames <= pow2(52),
    ensures
        in_range(
            video_sampling::uniform_indices(source, min_frames, max_frames, sample_fps),
            source.total_frames as int,
        ),
{
    let total = source.total_frames as nat;
    let count =
        video_sampling::uniform_count(source, min_frames, max_frames, sample_fps) as nat;
    lemma_floor_grid(total, count);
    let indices = video_sampling::uniform_indices(source, min_frames, max_frames, sample_fps);
    if count > 1 {
        let one = value::one();
        order::lemma_powers();
        lemma2_to64();
        assert forall|i: int| 0 <= i < indices.len() implies #[trigger] indices[i] < total by {
            grid::lemma_point_bound(total, count, i as nat, 1);
            let units = grid::point(total, count, i as nat);
            assert(units < one * total) by (nonlinear_arith)
                requires
                    units <= (2 * (total - 1) + 1) * pow2(1073),
                    one == 2 * pow2(1073),
                    pow2(1073) > 0,
            ;
            lemma_multiply_divide_lt(units as int, one as int, total as int);
            assert(indices[i] == capped(units / one));
        }
    }
}

/// Law: the uniform grid is the exact one, `floor(i * (total - 1) / (count - 1))`,
/// wherever the product is below 2^53.
pub proof fn law_uniform_grid_is_exact(total: usize, count: usize, i: int)
    requires
        total > 0,
        2 <= count,
        count - 1 <= pow2(53),
        0 <= i < count,
        i * (total - 1) < pow2(53),
    ensures
        video_sampling::floor_grid(total as int, count as int)[i] == (i * (total - 1)) / (count
            - 1),
{
    let one = value::one();
    let w = pow2(53) as int;
    let p = i * (total - 1);
    let d = count - 1;
    let t = total as nat;
    let c = count as nat;
    lemma_floor_grid(t, c);
    order::lemma_powers();
    grid::lemma_exact_point(t, c, i as nat);
    let q = grid::point(t, c, i as nat);
    assert(p >= 0) by (nonlinear_arith)
        requires
            p == i * (total - 1),
            i >= 0,
            total >= 1,
    ;
    let k = p / d;
    lemma_fundamental_div_mod(p, d);
    assert(d * k == k * d) by (nonlinear_arith);
    assert(0 <= k <= p) by (nonlinear_arith)
        requires
            k * d <= p < k * d + d,
            d >= 1,
            p >= 0,
    ;
    // Not below k.
    if p > 0 {
        assert((p * one) as nat >= (d as nat) * ((k as nat) * pow2(1074))) by (nonlinear_arith)
            requires
                k * d <= p,
                one == pow2(1074),
                k >= 0,
                d >= 1,
        ;
        order::lemma_stays_above((p * one) as nat, d as nat, k as nat, 1074);
    } else {
        assert(k == 0) by (nonlinear_arith)
            requires
                k * d <= 0,
                k >= 0,
                d >= 1,
        ;
    }
    assert(q >= k * one) by {
        if p == 0 {
            assert(0 * one == 0);
        }
    }
    // Below k + 1.
    assert((k + 1) * d >= p + 1) by (nonlinear_arith)
        requires
            p < k * d + d,
    ;
    assert(q * d < (p + 1) * one) by (nonlinear_arith)
        requires
            w * (q * d) <= (w + 1) * (p * one),
            p < w,
            one > 0,
            w > 0,
            p >= 0,
    ;
    assert(q < (k + 1) * one) by (nonlinear_arith)
        requires
            q * d < (p + 1) * one,
            (k + 1) * d >= p + 1,
            d >= 1,
            one > 0,
    ;
    let rest = q - k * one;
    assert((k + 1) * one == k * one + one) by (nonlinear_arith);
    lemma_fundamental_div_mod_converse(q as int, one as int, k, rest);
    assert(k <= usize::MAX) by {
        assert(p <= (count - 1) * (total - 1)) by (nonlinear_arith)
            requires
                p == i * (total - 1),
                i <= count - 1,
                total >= 1,
        ;
        assert(k <= total - 1) by (nonlinear_arith)
            requires
                k * d <= p,
                p <= d * (total - 1),
                d >= 1,
        ;
    }
}

/// Law: the exact uniform grid ends with the last frame.
pub proof fn law_uniform_ends_with_the_last_frame(
    source: VideoSourceMeta,
    min_frames: usize,
    max_frames: usize,
    sample_fps: Binary32,
)
    requires
        source.total_frames > 0,
        ({
            let count = video_sampling::uniform_count(source, min_frames, max_frames, sample_fps);
            &&& 2 <= count
            &&& count - 1 <= pow2(53)
            &&& (count - 1) * (source.total_frames - 1) < pow2(53)
        }),
    ensures
        video_sampling::uniform_indices(source, min_frames, max_frames, sample_fps).last()
            == source.total_frames - 1,
{
    let count = video_sampling::uniform_count(source, min_frames, max_frames, sample_fps);
    law_uniform_grid_is_exact(source.total_frames, count, count - 1);
    lemma_div_multiples_vanish(source.total_frames - 1, count - 1);
}

proof fn lemma_round_grid(total: nat, count: nat)
    requires
        1 <= total <= usize::MAX,
        count <= usize::MAX,
    ensures
        ({
            let indices = qwen3_vl::round_grid(total as int, count as int);
            &&& indices.len() == count
            &&& count > 0 ==> indices[0] == 0
            &&& in_order(indices)
            &&& count > 1 ==> forall|i: int|
                0 <= i < count ==> #[trigger] indices[i] == capped(
                    rounding::nearest_integer(grid::point(total, count, i as nat), value::one()),
                )
        }),
{
    if count > 1 {
        order::lemma_powers();
        let one = value::one();
        let indices = qwen3_vl::round_grid(total as int, count as int);
        assert forall|i: int| 0 <= i < count implies #[trigger] indices[i] == capped(
            rounding::nearest_integer(grid::point(total, count, i as nat), one),
        ) by {
            grid::lemma_point(total, count, i as nat);
            lemma_ties_index(
                grid::stretched(total, i as nat) * one,
                order::rounded((count - 1) as nat * one, 1),
            );
        }
        assert forall|i: int, j: int| 0 <= i <= j < indices.len() implies indices[i]
            <= indices[j] by {
            grid::lemma_points_ordered(total, count, i as nat, j as nat);
            let a = grid::point(total, count, i as nat);
            let b = grid::point(total, count, j as nat);
            lemma_mul_inequality(a as int, b as int, one as int);
            rounding::lemma_nearest_integer_monotone(a, one, b, one);
        }
        grid::lemma_first_point(total, count);
        lemma_div_basics(one as int);
        lemma_mod_self_0(one as int);
        lemma_small_mod(0, one);
        assert(indices[0] == capped(
            rounding::nearest_integer(grid::point(total, count, 0), one),
        ));
    }
}

/// Law: where the frame rate is known, Qwen3-VL sampling takes as many frames as
/// it counts, from the first on and in order. The count keeps to
/// `min(max(count, min_frames), max_frames, total_frames)`: it never exceeds the
/// frames there are, and is zero only where the truncated count and `min_frames`
/// both are, or `max_frames` is.
pub proof fn law_qwen3_vl_keeps_to_its_bounds(
    source: VideoSourceMeta,
    min_frames: usize,
    max_frames: usize,
    sample_fps: Binary32,
)
    requires
        source.total_frames > 0,
        source.original_fps@.is_known(),
    ensures
        ({
            let indices = qwen3_vl::qwen3_vl_indices(source, min_frames, max_frames, sample_fps);
            let count = qwen3_vl::qwen3_vl_count(source, min_frames, max_frames, sample_fps);
            let truncated = video_sampling::to_index(
                video_sampling::scaled_count(source, sample_fps),
            );
            &&& indices.len() == count
            &&& count <= source.total_frames
            &&& count <= max_frames
            &&& min_frames <= max_frames && min_frames <= source.total_frames ==> min_frames
                <= count
            &&& count == 0 <==> max_frames == 0 || (truncated == 0 && min_frames == 0)
            &&& count > 0 ==> indices[0] == 0
            &&& in_order(indices)
        }),
{
    lemma_round_grid(
        source.total_frames as nat,
        qwen3_vl::qwen3_vl_count(source, min_frames, max_frames, sample_fps) as nat,
    );
}

/// Law: Qwen3-VL sampling picks frames of the source, up to 2^51 of them. (Beyond,
/// rounding can pass the last frame.)
pub proof fn law_qwen3_vl_picks_frames_of_the_source(
    source: VideoSourceMeta,
    min_frames: usize,
    max_frames: usize,
    sample_fps: Binary32,
)
    requires
        0 < source.total_frames <= pow2(51),
    ensures
        in_range(
            qwen3_vl::qwen3_vl_indices(source, min_frames, max_frames, sample_fps),
            source.total_frames as int,
        ),
{
    let total = source.total_frames as nat;
    order::lemma_powers();
    if !source.original_fps@.is_known() {
        law_uniform_picks_frames_of_the_source(source, min_frames, max_frames, sample_fps);
    } else {
        let count = qwen3_vl::qwen3_vl_count(source, min_frames, max_frames, sample_fps) as nat;
        lemma_round_grid(total, count);
        let indices = qwen3_vl::qwen3_vl_indices(source, min_frames, max_frames, sample_fps);
        if count > 1 {
            let one = value::one();
            lemma2_to64();
            assert forall|i: int| 0 <= i < indices.len() implies #[trigger] indices[i] < total by {
                grid::lemma_point_bound(total, count, i as nat, 2);
                let units = grid::point(total, count, i as nat);
                let m = rounding::nearest_integer(units, one);
                rounding::lemma_nearest_integer_is_nearest(units, one);
                let quarter = pow2(1072);
                assert(m < total) by (nonlinear_arith)
                    requires
                        units <= (4 * (total - 1) + 1) * quarter,
                        2 * (m * one) <= 2 * units + one,
                        one == 4 * quarter,
                        quarter > 0,
                ;
                assert(indices[i] == capped(m));
            }
        }
    }
}

/// Law: the Qwen3-VL grid is the exact one, `i * (total - 1) / (count - 1)` to the
/// nearest integer with ties to the even one, wherever the product is below 2^52.
pub proof fn law_qwen3_vl_grid_is_exact(total: usize, count: usize, i: int)
    requires
        total > 0,
        2 <= count,
        count - 1 <= pow2(53),
        0 <= i < count,
        i * (total - 1) < pow2(52),
    ensures
        qwen3_vl::round_grid(total as int, count as int)[i] == rounding::nearest_integer(
            (i * (total - 1)) as nat,
            (count - 1) as nat,
        ),
{
    let one = value::one();
    let half = pow2(1073);
    let w = pow2(53) as int;
    let p = i * (total - 1);
    let d = count - 1;
    let t = total as nat;
    let c = count as nat;
    order::lemma_powers();
    lemma_round_grid(t, c);
    grid::lemma_exact_point(t, c, i as nat);
    let q = grid::point(t, c, i as nat);
    assert(p >= 0) by (nonlinear_arith)
        requires
            p == i * (total - 1),
            i >= 0,
            total >= 1,
    ;
    let k = rounding::nearest_integer(p as nat, d as nat) as int;
    rounding::lemma_nearest_integer_is_nearest(p as nat, d as nat);
    assert(k <= p + 1) by (nonlinear_arith)
        requires
            2 * (k * d) <= 2 * p + d,
            d >= 1,
            p >= 0,
            k >= 0,
    ;
    // Above.
    if 2 * p == 2 * (k * d) + d {
        assert(p > 0);
        assert((p * one) as nat == (d as nat) * (((2 * k + 1) as nat) * half)) by (nonlinear_arith)
            requires
                2 * p == 2 * (k * d) + d,
                one == 2 * half,
                k >= 0,
                d >= 1,
                p >= 0,
        ;
        assert(2 * k + 1 <= 2 * p) by (nonlinear_arith)
            requires
                2 * p == 2 * (k * d) + d,
                d >= 1,
                k >= 0,
        ;
        rounding::lemma_nearest_exact(
            53,
            0,
            (2 * k + 1) as nat,
            1073,
            (p * one) as nat,
            d as nat,
        );
        assert(2 * q == 2 * (k * one) + one) by (nonlinear_arith)
            requires
                q == (2 * k + 1) * half,
                one == 2 * half,
        ;
    } else {
        assert(2 * (q * d) < (2 * p + 1) * one) by (nonlinear_arith)
            requires
                w * (q * d) <= (w + 1) * (p * one),
                2 * p < w,
                p >= 0,
                one > 0,
                w > 0,
        ;
        assert(2 * q < 2 * (k * one) + one) by (nonlinear_arith)
            requires
                2 * (q * d) < (2 * p + 1) * one,
                2 * p + 1 <= 2 * (k * d) + d,
                d >= 1,
                one > 0,
        ;
    }
    // Below.
    if 2 * (k * d) == 2 * p + d {
        if p > 0 {
            assert(k >= 1) by (nonlinear_arith)
                requires
                    2 * (k * d) == 2 * p + d,
                    p > 0,
                    d >= 1,
            ;
            assert((p * one) as nat == (d as nat) * (((2 * k - 1) as nat) * half))
                by (nonlinear_arith)
                requires
                    2 * (k * d) == 2 * p + d,
                    one == 2 * half,
                    k >= 1,
                    d >= 1,
                    p >= 0,
            ;
            assert(2 * k - 1 <= 2 * p) by (nonlinear_arith)
                requires
                    2 * (k * d) == 2 * p + d,
                    d >= 1,
                    k >= 1,
            ;
            rounding::lemma_nearest_exact(
                53,
                0,
                (2 * k - 1) as nat,
                1073,
                (p * one) as nat,
                d as nat,
            );
            assert(2 * (k * one) == 2 * q + one) by (nonlinear_arith)
                requires
                    q == (2 * k - 1) * half,
                    one == 2 * half,
            ;
        } else {
            assert(false) by (nonlinear_arith)
                requires
                    2 * (k * d) == d,
                    d >= 1,
            ;
        }
    } else {
        assert(2 * (q * d) > (2 * p - 1) * one) by (nonlinear_arith)
            requires
                w * (q * d) >= (w - 1) * (p * one),
                2 * p < w,
                p >= 0,
                one > 0,
                w > 0,
        ;
        assert(2 * (k * one) < 2 * q + one) by (nonlinear_arith)
            requires
                2 * (q * d) > (2 * p - 1) * one,
                2 * (k * d) + 1 <= 2 * p + d,
                d >= 1,
                one > 0,
        ;
    }
    assert(rounding::is_nearest(q as int, one as int, k));
    rounding::lemma_nearest_integer_unique(q, one, k as nat);
    assert(k <= total - 1) by {
        assert(p <= d * (total - 1)) by (nonlinear_arith)
            requires
                p == i * (total - 1),
                i <= d,
                total >= 1,
        ;
        assert(k < total) by (nonlinear_arith)
            requires
                2 * (k * d) <= 2 * p + d,
                p <= d * (total - 1),
                d >= 1,
        ;
    }
}

/// Law: the exact Qwen3-VL grid holds no frame twice and ends with the last frame:
/// positions lie at least one frame apart.
pub proof fn law_qwen3_vl_picks_distinct_frames(
    source: VideoSourceMeta,
    min_frames: usize,
    max_frames: usize,
    sample_fps: Binary32,
)
    requires
        source.total_frames > 0,
        source.original_fps@.is_known(),
        (qwen3_vl::qwen3_vl_count(source, min_frames, max_frames, sample_fps) - 1) * (
        source.total_frames - 1) < pow2(52),
    ensures
        ({
            let indices = qwen3_vl::qwen3_vl_indices(source, min_frames, max_frames, sample_fps);
            &&& increasing(indices)
            &&& indices.len() > 1 ==> indices.last() == source.total_frames - 1
        }),
{
    let count = qwen3_vl::qwen3_vl_count(source, min_frames, max_frames, sample_fps);
    let total = source.total_frames;
    let indices = qwen3_vl::qwen3_vl_indices(source, min_frames, max_frames, sample_fps);
    law_qwen3_vl_keeps_to_its_bounds(source, min_frames, max_frames, sample_fps);
    if count > 1 {
        let d = count - 1;
        let last = total - 1;
        order::lemma_powers();
        assert(d <= pow2(53)) by (nonlinear_arith)
            requires
                d * last < pow2(52),
                last >= 1,
                d >= 1,
                pow2(53) >= pow2(52),
        ;
        assert forall|i: int| 0 <= i < count implies #[trigger] indices[i]
            == rounding::nearest_integer((i * last) as nat, d as nat) by {
            assert(i * last <= d * last) by (nonlinear_arith)
                requires
                    i <= d,
                    last >= 0,
            ;
            law_qwen3_vl_grid_is_exact(total, count, i);
        }
        assert forall|i: int, j: int| 0 <= i < j < indices.len() implies indices[i]
            < indices[j] by {
            let x = i * last;
            let y = j * last;
            assert(0 <= x && x + last <= y) by (nonlinear_arith)
                requires
                    x == i * last,
                    y == j * last,
                    0 <= i,
                    i + 1 <= j,
                    last >= 0,
            ;
            let m = rounding::nearest_integer(x as nat, d as nat) as int;
            let n = rounding::nearest_integer(y as nat, d as nat) as int;
            rounding::lemma_nearest_integer_is_nearest(x as nat, d as nat);
            rounding::lemma_nearest_integer_is_nearest(y as nat, d as nat);
            assert(indices[i] == m && indices[j] == n);
            if n <= m {
                // Only two half-way points a frame apart could meet, and then
                // every point is a whole number.
                assert(n * d <= m * d) by (nonlinear_arith)
                    requires
                        n <= m,
                        d >= 1,
                ;
                assert(last >= d);
                assert(2 * y == 2 * (n * d) + d && 2 * (m * d) == 2 * x + d && last == d && n * d
                    == m * d);
                assert(x == i * d);
                assert(2 * (m * d) == 2 * (i * d) + d);
                assert(false) by (nonlinear_arith)
                    requires
                        2 * (m * d) == 2 * (i * d) + d,
                        d >= 1,
                ;
            }
        }
        assert(indices.last() == rounding::nearest_integer((d * last) as nat, d as nat));
        assert(last * d == d * last) by (nonlinear_arith);
        assert(d * last >= 0) by (nonlinear_arith)
            requires
                d >= 0,
                last >= 0,
        ;
        rounding::lemma_nearest_integer_unique((d * last) as nat, d as nat, last as nat);
    }
}

/// A point of a linspace before it is cut to an integer, in units.
spec fn step_point(start: nat, span: nat, num: nat, i: nat) -> nat {
    let one = value::one();
    let step = order::rounded(
        order::rounded(span * one, 1) * one,
        order::rounded((num - 1) as nat * one, 1),
    );
    order::rounded(
        order::rounded(start * one, 1) + order::rounded(
            order::rounded(i * one, 1) * step,
            one,
        ),
        1,
    )
}

proof fn lemma_step_point(start: nat, end: nat, num: nat, i: nat)
    requires
        start <= end <= usize::MAX,
        2 <= num <= usize::MAX,
        i < num,
    ensures
        ({
            let step = FloatValue::of(end - start).over(FloatValue::of(num - 1));
            FloatValue::of(start as int).plus(FloatValue::of(i as int).times(step))
                == order::plain(step_point(start, (end - start) as nat, num, i))
        }),
{
    let one = value::one();
    let w = pow2(64);
    let span = (end - start) as nat;
    order::lemma_powers();
    order::lemma_of(start);
    order::lemma_of(span);
    order::lemma_of((num - 1) as nat);
    order::lemma_of(i);
    let s = order::rounded(start * one, 1);
    let x = order::rounded(span * one, 1);
    let a = order::rounded((num - 1) as nat * one, 1);
    let y = order::rounded(i * one, 1);
    lemma_pow2_adds(64, 1074);
    assert(1 * pow2(1138) == pow2(1138));
    assert(x * one <= a * (w * one)) by (nonlinear_arith)
        requires
            x <= w * one,
            one <= a,
    ;
    order::lemma_stays_below(x * one, a, 1, 1138);
    let step = order::rounded(x * one, a);
    lemma_pow2_adds(64, 1138);
    assert(1 * pow2(1202) == pow2(1202));
    assert(y * step <= one * (w * pow2(1138))) by (nonlinear_arith)
        requires
            y <= w * one,
            step <= pow2(1138),
    ;
    order::lemma_stays_below(y * step, one, 1, 1202);
    let product = order::rounded(y * step, one);
    lemma_pow2_unfold(1203);
    rounding::lemma_pow2_grows(1138, 1202);
    assert(1 * pow2(1203) == pow2(1203));
    order::lemma_stays_below(s + product, 1, 1, 1203);
    lemma_pow2_strictly_increases(1203, 2098);
    lemma_pow2_strictly_increases(1202, 2098);
    lemma_pow2_strictly_increases(1138, 2098);
    order::lemma_zero(1);
}

proof fn lemma_step_points_ordered(start: nat, span: nat, num: nat, i: nat, j: nat)
    requires
        2 <= num <= usize::MAX,
        i <= j < num,
    ensures
        step_point(start, span, num, i) <= step_point(start, span, num, j),
{
    let one = value::one();
    order::lemma_powers();
    order::lemma_of((num - 1) as nat);
    let step = order::rounded(
        order::rounded(span * one, 1) * one,
        order::rounded((num - 1) as nat * one, 1),
    );
    order::lemma_of_monotone(i, j);
    let x = order::rounded(i * one, 1);
    let y = order::rounded(j * one, 1);
    lemma_mul_inequality(x as int, y as int, step as int);
    lemma_mul_inequality((x * step) as int, (y * step) as int, one as int);
    order::lemma_rounded_monotone(x * step, one, y * step, one);
    let s = order::rounded(start * one, 1);
    order::lemma_rounded_monotone(
        s + order::rounded(x * step, one),
        1,
        s + order::rounded(y * step, one),
        1,
    );
}

/// Below 2^52, no point of a linspace passes its end by more than half.
proof fn lemma_step_point_bound(start: nat, end: nat, num: nat, i: nat)
    requires
        start <= end < pow2(52),
        end <= usize::MAX,
        2 <= num <= usize::MAX,
        i < num,
    ensures
        step_point(start, (end - start) as nat, num, i) <= (2 * end + 1) * pow2(1073),
        i == 0 ==> step_point(start, (end - start) as nat, num, i) == start * value::one(),
{
    let one = value::one();
    let half = pow2(1073);
    let w = pow2(53);
    let span = (end - start) as nat;
    order::lemma_powers();
    order::lemma_of_exact(start);
    order::lemma_of_exact(span);
    order::lemma_of(start);
    order::lemma_of(span);
    order::lemma_of((num - 1) as nat);
    order::lemma_of(i);
    order::lemma_of_monotone(i, (num - 1) as nat);
    let a = order::rounded((num - 1) as nat * one, 1);
    let y = order::rounded(i * one, 1);
    let b = span * one;
    let step = order::rounded(b * one, a);
    let product = order::rounded(y * step, one);
    let m = (2 * span + 1) as nat;
    if span == 0 {
        assert(b * one == 0) by (nonlinear_arith)
            requires
                b == 0 * one,
        ;
        order::lemma_zero(a);
        assert(y * 0 == 0);
        order::lemma_zero(one);
    } else {
        assert(b * one >= a * w) by (nonlinear_arith)
            requires
                b == span * one,
                span >= 1,
                a <= pow2(64) * one,
                one >= w * pow2(64),
        ;
        order::lemma_error(b * one, a);
        assert(w * (step * a) <= (w + 1) * ((span * one) * one));
        assert(2 * (step * a) <= (m * one) * one) by (nonlinear_arith)
            requires
                w * (step * a) <= (w + 1) * ((span * one) * one),
                m == 2 * span + 1,
                2 * span <= w,
                w > 0,
        ;
        assert(y * step <= one * (m * half)) by (nonlinear_arith)
            requires
                2 * (step * a) <= (m * one) * one,
                y <= a,
                one == 2 * half,
        ;
        order::lemma_stays_below(y * step, one, m, 1073);
    }
    assert(product <= m * half);
    let sum = start * one + product;
    let top = (2 * end + 1) as nat;
    assert(sum <= 1 * (top * half)) by (nonlinear_arith)
        requires
            sum == start * one + product,
            product <= m * half,
            m == 2 * span + 1,
            top == 2 * (start + span) + 1,
            one == 2 * half,
    ;
    order::lemma_stays_below(sum, 1, top, 1073);
    if i == 0 {
        assert(0 * step == 0);
        order::lemma_zero(one);
        assert(sum == start * one);
        rounding::lemma_nearest_exact(53, 0, start, 1074, start * one, 1);
    }
}

/// Law: below 2^52, a linspace has the wanted length, stands in order between its
/// ends, and begins and ends with them.
pub proof fn law_linspace_spans_its_ends(start: usize, end: usize, num: usize)
    requires
        start <= end < pow2(52),
    ensures
        ({
            let values = glm53_flash::linspace(start as int, end as int, num as int);
            &&& values.len() == num
            &&& in_order(values)
            &&& forall|i: int| 0 <= i < num ==> start <= #[trigger] values[i] <= end
            &&& num >= 1 ==> values[0] == start
            &&& num >= 2 ==> values.last() == end
        }),
{
    let values = glm53_flash::linspace(start as int, end as int, num as int);
    if num >= 2 {
        let one = value::one();
        let half = pow2(1073);
        let span = (end - start) as nat;
        let (s, e, n) = (start as nat, end as nat, num as nat);
        order::lemma_powers();
        assert forall|i: int| 0 <= i < num - 1 implies #[trigger] values[i] == step_point(
            s,
            span,
            n,
            i as nat,
        ) / one && start <= values[i] <= end by {
            let units = step_point(s, span, n, i as nat);
            lemma_step_point(s, e, n, i as nat);
            lemma_step_point_bound(s, e, n, i as nat);
            lemma_step_point_bound(s, e, n, 0);
            lemma_step_points_ordered(s, span, n, 0, i as nat);
            assert(units < one * (e + 1)) by (nonlinear_arith)
                requires
                    units <= (2 * e + 1) * half,
                    one == 2 * half,
                    half > 0,
            ;
            lemma_multiply_divide_lt(units as int, one as int, (e + 1) as int);
            lemma_div_is_ordered((s * one) as int, units as int, one as int);
            lemma_div_multiples_vanish(s as int, one as int);
            assert(one * s == s * one) by (nonlinear_arith);
        }
        assert forall|i: int, j: int| 0 <= i <= j < values.len() implies values[i]
            <= values[j] by {
            if j < num - 1 {
                lemma_step_points_ordered(s, span, n, i as nat, j as nat);
                lemma_div_is_ordered(
                    step_point(s, span, n, i as nat) as int,
                    step_point(s, span, n, j as nat) as int,
                    one as int,
                );
            }
        }
        lemma_step_point_bound(s, e, n, 0);
        lemma_div_multiples_vanish(s as int, one as int);
        assert(one * s == s * one) by (nonlinear_arith);
        assert(values[0] == step_point(s, span, n, 0) / one);
    }
}

/// What first occurrences are: no repeats, in order where the whole is, and of
/// the same numbers from the same first to the same last.
proof fn lemma_first_occurrences(s: Seq<usize>)
    ensures
        ({
            let r = glm53_flash::first_occurrences(s);
            &&& r.len() <= s.len()
            &&& r.len() == 0 ==> s.len() == 0
            &&& s.len() > 0 ==> r[0] == s[0]
            &&& forall|i: int| 0 <= i < r.len() ==> s.contains(#[trigger] r[i])
            &&& forall|i: int, j: int| 0 <= i < j < r.len() ==> r[i] != r[j]
            &&& in_order(s) ==> increasing(r)
            &&& in_order(s) && s.len() > 0 ==> r.last() == s.last()
        }),
    decreases s.len(),
{
    let r = glm53_flash::first_occurrences(s);
    if s.len() > 0 {
        let front = s.drop_last();
        let before = glm53_flash::first_occurrences(front);
        lemma_first_occurrences(front);
        assert forall|i: int| 0 <= i < r.len() implies s.contains(#[trigger] r[i]) by {
            if i < before.len() {
                assert(front.contains(before[i]));
                let k = choose|k: int| 0 <= k < front.len() && front[k] == before[i];
                assert(s[k] == r[i]);
            } else {
                assert(s[s.len() - 1] == r[i]);
            }
        }
        if in_order(s) {
            assert(in_order(front)) by {
                assert forall|i: int, j: int| 0 <= i <= j < front.len() implies front[i]
                    <= front[j] by {
                    assert(front[i] == s[i] && front[j] == s[j]);
                }
            }
            if before.contains(s.last()) {
                let k = choose|k: int| 0 <= k < before.len() && before[k] == s.last();
                assert(front.len() > 0);
                assert(front.last() == s[s.len() - 2]);
                assert(front.last() <= s.last());
                assert(before[k] <= before.last());
            } else {
                assert forall|i: int, j: int| 0 <= i < j < r.len() implies r[i] < r[j] by {
                    if j == before.len() {
                        assert(front.contains(before[i]));
                        let k = choose|k: int| 0 <= k < front.len() && front[k] == before[i];
                        assert(s[k] <= s[s.len() - 1]);
                        assert(r[i] != s.last());
                    }
                }
            }
        }
    }
}

/// How many frames the wanted count leaves, whatever was walked.
proof fn lemma_fitted_length(walked: Seq<usize>, total: int, wanted: int)
    requires
        0 <= wanted,
    ensures
        glm53_flash::fitted(walked, total, wanted).len() == wanted,
{
}

/// Law: where the frame rate is known, GLM sampling picks an even number of
/// frames, at most one more than `max_frames`, and none twice but for the last.
pub proof fn law_glm_counts_are_even(
    source: VideoSourceMeta,
    min_frames: usize,
    max_frames: usize,
    sample_fps: Binary32,
    max_duration: Binary64,
)
    requires
        source.total_frames > 0,
        source.original_fps@.is_known(),
    ensures
        ({
            let indices = glm53_flash::glm5_next_indices(
                source,
                min_frames,
                max_frames,
                sample_fps,
                max_duration,
            );
            let wanted = glm53_flash::wanted_count(source, max_frames, sample_fps, max_duration);
            &&& indices.len() % 2 == 0
            &&& indices.len() <= wanted + 1
            &&& wanted <= max_frames
            &&& wanted > 0 ==> indices.len() > 0
            &&& forall|i: int, j: int|
                0 <= i < j < indices.len() && indices[i] == indices[j] ==> i == indices.len() - 2
        }),
{
    let total = source.total_frames as int;
    let wanted = glm53_flash::wanted_count(source, max_frames, sample_fps, max_duration) as int;
    let picked = if total < wanted {
        glm53_flash::linspace(0, total - 1, wanted)
    } else {
        glm53_flash::clip_walk(source, sample_fps)
    };
    let whole = glm53_flash::fitted(picked, total, wanted);
    lemma_fitted_length(picked, total, wanted);
    lemma_first_occurrences(whole);
}

/// The `k`-th threshold of a GLM walk: `k` intervals, added up.
pub open spec fn threshold(interval: FloatValue, k: nat) -> FloatValue
    decreases k,
{
    if k == 0 {
        FloatValue::zero()
    } else {
        threshold(interval, (k - 1) as nat).plus(interval)
    }
}

/// Whether a frame lies at or past the `k`-th threshold.
#[verifier::opaque]
pub open spec fn reaches(
    frame_time: FloatValue,
    interval: FloatValue,
    k: nat,
    frame: int,
) -> bool {
    threshold(interval, k).at_most(FloatValue::of(frame).times(frame_time))
}

/// Whether the `k`-th threshold lies at or past the end.
#[verifier::opaque]
pub open spec fn is_over(interval: FloatValue, stop: FloatValue, k: nat) -> bool {
    stop.at_most(threshold(interval, k))
}

/// The first frame that may be picked for the `k`-th threshold of a walk.
pub open spec fn candidate(walk: Seq<usize>, from: int, k: int) -> int {
    if k == 0 {
        from
    } else {
        walk[k - 1] + 1
    }
}

/// A walk from `from` and the `base`-th threshold on picks, for one threshold
/// after the other, the first frame that reaches it; it goes on as long as there
/// is such a frame and the next threshold lies before `stop`.
pub open spec fn is_walk(
    walk: Seq<usize>,
    total: int,
    frame_time: FloatValue,
    interval: FloatValue,
    stop: FloatValue,
    from: int,
    base: nat,
) -> bool {
    &&& forall|k: int|
        #![trigger walk[k]]
        0 <= k < walk.len() ==> {
            &&& candidate(walk, from, k) <= walk[k] < total
            &&& reaches(frame_time, interval, (base + k) as nat, walk[k] as int)
            &&& k + 1 < walk.len() ==> !is_over(interval, stop, (base + k + 1) as nat)
        }
    &&& forall|k: int, frame: int|
        0 <= k < walk.len() && candidate(walk, from, k) <= frame < walk[k]
            ==> !#[trigger] reaches(frame_time, interval, (base + k) as nat, frame)
    &&& {
        ||| walk.len() > 0 && is_over(interval, stop, base + walk.len())
        ||| forall|frame: int|
            candidate(walk, from, walk.len() as int) <= frame < total ==> !#[trigger] reaches(
                frame_time,
                interval,
                base + walk.len(),
                frame,
            )
    }
}

proof fn lemma_walk_skips(
    walk: Seq<usize>,
    total: int,
    frame_time: FloatValue,
    interval: FloatValue,
    stop: FloatValue,
    from: int,
    base: nat,
)
    requires
        is_walk(walk, total, frame_time, interval, stop, from + 1, base),
        !reaches(frame_time, interval, base, from),
    ensures
        is_walk(walk, total, frame_time, interval, stop, from, base),
{
    assert forall|k: int, frame: int|
        0 <= k < walk.len() && candidate(walk, from, k) <= frame
            < walk[k] implies !#[trigger] reaches(
        frame_time,
        interval,
        (base + k) as nat,
        frame,
    ) by {
        if !(k == 0 && frame == from) {
            assert(candidate(walk, from + 1, k) <= frame);
        }
    }
    if walk.len() == 0 {
        assert forall|frame: int| from <= frame < total implies !#[trigger] reaches(
            frame_time,
            interval,
            base,
            frame,
        ) by {
            if frame > from {
                assert(candidate(walk, from + 1, 0) <= frame);
                assert(!reaches(frame_time, interval, base + walk.len(), frame));
            }
        }
    }
}

proof fn lemma_walk_goes_on(
    rest: Seq<usize>,
    total: int,
    frame_time: FloatValue,
    interval: FloatValue,
    stop: FloatValue,
    from: int,
    base: nat,
)
    requires
        0 <= from < total <= usize::MAX,
        is_walk(rest, total, frame_time, interval, stop, from + 1, base + 1),
        reaches(frame_time, interval, base, from),
        !is_over(interval, stop, base + 1),
    ensures
        is_walk(
            seq![from as usize] + rest,
            total,
            frame_time,
            interval,
            stop,
            from,
            base,
        ),
{
    let walk = seq![from as usize] + rest;
    assert forall|k: int| 1 <= k < walk.len() + 1 implies #[trigger] candidate(walk, from, k)
        == candidate(rest, from + 1, k - 1) by {
        if k > 1 {
            assert(walk[k - 1] == rest[k - 2]);
        }
    }
    assert forall|k: int| #![trigger walk[k]] 0 <= k < walk.len() implies {
        &&& candidate(walk, from, k) <= walk[k] < total
        &&& reaches(frame_time, interval, (base + k) as nat, walk[k] as int)
        &&& k + 1 < walk.len() ==> !is_over(interval, stop, (base + k + 1) as nat)
    } by {
        if k > 0 {
            assert(walk[k] == rest[k - 1]);
            assert((base + 1 + (k - 1)) as nat == (base + k) as nat);
            assert((base + 1 + (k - 1) + 1) as nat == (base + k + 1) as nat);
        }
    }
    assert forall|k: int, frame: int|
        0 <= k < walk.len() && candidate(walk, from, k) <= frame
            < walk[k] implies !#[trigger] reaches(
        frame_time,
        interval,
        (base + k) as nat,
        frame,
    ) by {
        assert(k > 0);
        assert(walk[k] == rest[k - 1]);
        assert((base + 1 + (k - 1)) as nat == (base + k) as nat);
        assert(!reaches(frame_time, interval, (base + 1 + (k - 1)) as nat, frame));
    }
    assert(base + walk.len() == base + 1 + rest.len());
    assert(candidate(walk, from, walk.len() as int) == candidate(
        rest,
        from + 1,
        rest.len() as int,
    ));
}

proof fn lemma_is_walk(
    total: int,
    frame_time: FloatValue,
    interval: FloatValue,
    stop: FloatValue,
    from: int,
    base: nat,
)
    requires
        0 <= from,
        total <= usize::MAX,
    ensures
        is_walk(
            glm53_flash::threshold_walk(
                total,
                frame_time,
                interval,
                stop,
                from,
                threshold(interval, base),
            ),
            total,
            frame_time,
            interval,
            stop,
            from,
            base,
        ),
    decreases total - from,
{
    let here = threshold(interval, base);
    let next = threshold(interval, base + 1);
    let walk = glm53_flash::threshold_walk(total, frame_time, interval, stop, from, here);
    assert(next == here.plus(interval));
    assert(reaches(frame_time, interval, base, from) == here.at_most(
        FloatValue::of(from).times(frame_time),
    )) by {
        reveal(reaches);
    }
    assert(is_over(interval, stop, base + 1) == stop.at_most(next)) by {
        reveal(is_over);
    }
    if from < total {
        if !reaches(frame_time, interval, base, from) {
            lemma_is_walk(total, frame_time, interval, stop, from + 1, base);
            lemma_walk_skips(walk, total, frame_time, interval, stop, from, base);
        } else if is_over(interval, stop, base + 1) {
            assert(walk == seq![from as usize]);
        } else {
            lemma_is_walk(total, frame_time, interval, stop, from + 1, base + 1);
            let rest = glm53_flash::threshold_walk(
                total,
                frame_time,
                interval,
                stop,
                from + 1,
                next,
            );
            lemma_walk_goes_on(rest, total, frame_time, interval, stop, from, base);
        }
    }
}

/// Law: the GLM walk over a clip picks, for one sampling interval after the other,
/// the first frame at or past it, up to the whole seconds of the duration.
pub proof fn law_glm_walk_keeps_the_first_frame_at_each_threshold(
    source: VideoSourceMeta,
    sample_fps: Binary32,
)
    ensures
        is_walk(
            glm53_flash::clip_walk(source, sample_fps),
            source.total_frames as int,
            FloatValue::of(1).over(source.original_fps@),
            FloatValue::of(1).over(sample_fps@),
            FloatValue::of(glm53_flash::clip_duration(source).to_unsigned(u64::MAX as nat) as int),
            0,
            0,
        ),
{
    lemma_is_walk(
        source.total_frames as int,
        FloatValue::of(1).over(source.original_fps@),
        FloatValue::of(1).over(sample_fps@),
        FloatValue::of(glm53_flash::clip_duration(source).to_unsigned(u64::MAX as nat) as int),
        0,
        0,
    );
}

proof fn lemma_clip_walk(source: VideoSourceMeta, sample_fps: Binary32)
    ensures
        increasing(glm53_flash::clip_walk(source, sample_fps)),
        in_range(glm53_flash::clip_walk(source, sample_fps), source.total_frames as int),
{
    glm53_flash::lemma_walk_increases(
        source.total_frames as int,
        FloatValue::of(1).over(source.original_fps@),
        FloatValue::of(1).over(sample_fps@),
        FloatValue::of(glm53_flash::clip_duration(source).to_unsigned(u64::MAX as nat) as int),
        0,
        FloatValue::zero(),
    );
}

proof fn lemma_fitted(picked: Seq<usize>, total: usize, wanted: usize)
    requires
        0 < total <= pow2(52),
        in_order(picked),
        in_range(picked, total as int),
    ensures
        in_order(glm53_flash::fitted(picked, total as int, wanted as int)),
        in_range(glm53_flash::fitted(picked, total as int, wanted as int), total as int),
{
    law_linspace_spans_its_ends(0, (total - 1) as usize, wanted);
    if picked.len() > 0 {
        assert(picked[0] <= picked[picked.len() - 1]);
        law_linspace_spans_its_ends(picked.first(), picked.last(), wanted);
    }
}

proof fn lemma_evened(whole: Seq<usize>, total: int)
    requires
        in_order(whole),
        in_range(whole, total),
    ensures
        in_order(glm53_flash::evened(glm53_flash::first_occurrences(whole))),
        in_range(glm53_flash::evened(glm53_flash::first_occurrences(whole)), total),
{
    lemma_first_occurrences(whole);
    let unique = glm53_flash::first_occurrences(whole);
    assert forall|i: int| 0 <= i < unique.len() implies #[trigger] unique[i] < total by {
        assert(whole.contains(unique[i]));
        let k = choose|k: int| 0 <= k < whole.len() && whole[k] == unique[i];
        assert(whole[k] < total);
    }
}

/// Law: up to 2^52 frames, GLM sampling picks frames of the source, in order.
pub proof fn law_glm_picks_frames_of_the_source(
    source: VideoSourceMeta,
    min_frames: usize,
    max_frames: usize,
    sample_fps: Binary32,
    max_duration: Binary64,
)
    requires
        0 < source.total_frames <= pow2(52),
    ensures
        ({
            let indices = glm53_flash::glm5_next_indices(
                source,
                min_frames,
                max_frames,
                sample_fps,
                max_duration,
            );
            &&& in_range(indices, source.total_frames as int)
            &&& in_order(indices)
        }),
{
    if !source.original_fps@.is_known() {
        law_uniform_picks_frames_of_the_source(source, min_frames, max_frames, sample_fps);
        lemma_floor_grid(
            source.total_frames as nat,
            video_sampling::uniform_count(source, min_frames, max_frames, sample_fps) as nat,
        );
    } else {
        let total = source.total_frames as int;
        let top = (source.total_frames - 1) as usize;
        let count = glm53_flash::wanted_count(source, max_frames, sample_fps, max_duration);
        let picked = if total < count {
            glm53_flash::linspace(0, total - 1, count as int)
        } else {
            glm53_flash::clip_walk(source, sample_fps)
        };
        law_linspace_spans_its_ends(0, top, count);
        lemma_clip_walk(source, sample_fps);
        lemma_fitted(picked, source.total_frames, count);
        lemma_evened(glm53_flash::fitted(picked, total, count as int), total);
    }
}

/// Law: GLM sampling begins with the first frame, where it picks any and a frame
/// lasts a finite time.
pub proof fn law_glm_begins_with_the_first_frame(
    source: VideoSourceMeta,
    min_frames: usize,
    max_frames: usize,
    sample_fps: Binary32,
    max_duration: Binary64,
)
    requires
        0 < source.total_frames <= pow2(52),
        source.original_fps@.is_known(),
        FloatValue::of(1).over(source.original_fps@) is Finite,
        glm53_flash::wanted_count(source, max_frames, sample_fps, max_duration) > 0,
    ensures
        glm53_flash::glm5_next_indices(
            source,
            min_frames,
            max_frames,
            sample_fps,
            max_duration,
        )[0] == 0,
{
    let total = source.total_frames as int;
    let top = (source.total_frames - 1) as usize;
    let count = glm53_flash::wanted_count(source, max_frames, sample_fps, max_duration);
    let wanted = count as int;
    let frame_time = FloatValue::of(1).over(source.original_fps@);
    law_linspace_spans_its_ends(0, top, count);
    order::lemma_powers();
    order::lemma_of_exact(0);
    order::lemma_zero(value::one());
    lemma_pow2_pos(2098);
    assert(0 * frame_time->units == 0);
    assert(FloatValue::zero().at_most(FloatValue::of(0).times(frame_time)));
    let walked = glm53_flash::clip_walk(source, sample_fps);
    assert(walked.len() > 0 && walked[0] == 0);
    lemma_clip_walk(source, sample_fps);
    let picked = if total < wanted {
        glm53_flash::linspace(0, total - 1, wanted)
    } else {
        walked
    };
    law_linspace_spans_its_ends(picked.first(), picked.last(), count);
    lemma_first_occurrences(glm53_flash::fitted(picked, total, wanted));
}

proof fn lemma_kept_after(total: int, video_fps: FloatValue, fps: FloatValue, last: int)
    requires
        0 <= last < total <= usize::MAX,
    ensures
        ({
            let kept = minimax_m3::kept_after(total, video_fps, fps, last);
            &&& forall|i: int| 0 <= i < kept.len() ==> last < #[trigger] kept[i] < total
            &&& increasing(kept)
        }),
    decreases total - last,
{
    let next = minimax_m3::next_kept(video_fps, fps, last);
    let kept = minimax_m3::kept_after(total, video_fps, fps, last);
    if next < total {
        lemma_kept_after(total, video_fps, fps, next);
        let rest = minimax_m3::kept_after(total, video_fps, fps, next);
        assert(kept == seq![next as usize] + rest);
        assert forall|i: int| 0 <= i < kept.len() implies last < #[trigger] kept[i] < total by {
            if i > 0 {
                assert(kept[i] == rest[i - 1]);
            }
        }
        assert forall|i: int, j: int| 0 <= i < j < kept.len() implies kept[i] < kept[j] by {
            assert(kept[j] == rest[j - 1]);
            if i > 0 {
                assert(kept[i] == rest[i - 1]);
            }
        }
    }
}

/// Law: MiniMax-M3 sampling picks frames of the source, the first one and then
/// greater ones, none twice.
pub proof fn law_minimax_m3_picks_distinct_frames(source: VideoSourceMeta, sample_fps: Binary32)
    requires
        source.total_frames > 0,
    ensures
        ({
            let indices = minimax_m3::minimax_m3_indices(source, sample_fps);
            &&& indices.len() > 0
            &&& indices[0] == 0
            &&& increasing(indices)
            &&& in_range(indices, source.total_frames as int)
        }),
{
    let total = source.total_frames as int;
    let indices = minimax_m3::minimax_m3_indices(source, sample_fps);
    if source.original_fps@.is_known() && sample_fps@.is_known() {
        lemma_kept_after(total, source.original_fps@, sample_fps@, 0);
        let rest = minimax_m3::kept_after(total, source.original_fps@, sample_fps@, 0);
        assert(indices == seq![0usize] + rest);
        assert forall|i: int| 0 <= i < indices.len() implies #[trigger] indices[i] < total by {
            if i > 0 {
                assert(indices[i] == rest[i - 1]);
            }
        }
        assert forall|i: int, j: int| 0 <= i < j < indices.len() implies indices[i]
            < indices[j] by {
            assert(indices[j] == rest[j - 1]);
            if i > 0 {
                assert(indices[i] == rest[i - 1]);
            }
        }
    }
}

/// Where MiniMax-M3 sampling looks for the frame after `last`, counted in frames.
pub open spec fn target(video_fps: FloatValue, fps: FloatValue, last: int) -> FloatValue {
    FloatValue::of(last).over(video_fps).plus(FloatValue::of(1).over(fps)).minus(
        FloatValue::of(1).over(FloatValue::of(10000)),
    ).times(video_fps)
}

proof fn lemma_target_is_a_number(video_fps: FloatValue, fps: FloatValue, last: int)
    requires
        video_fps.is_known(),
        fps.is_known(),
        0 <= last <= usize::MAX,
    ensures
        !(target(video_fps, fps, last) is Nan),
{
    order::lemma_powers();
    order::lemma_of(last as nat);
    order::lemma_of_exact(1);
    order::lemma_of_exact(10000);
    let kept = FloatValue::of(last).over(video_fps);
    let interval = FloatValue::of(1).over(fps);
    assert(kept is Finite || kept == (FloatValue::Infinite { negative: false }));
    assert(interval is Finite || interval == (FloatValue::Infinite { negative: false }));
    let eps = FloatValue::of(1).over(FloatValue::of(10000));
    assert(1 * value::one() * value::one() <= (10000 * value::one()) * (1 * pow2(1074)))
        by (nonlinear_arith)
        requires
            value::one() == pow2(1074),
    ;
    order::lemma_stays_below(
        1 * value::one() * value::one(),
        10000 * value::one(),
        1,
        1074,
    );
    lemma_pow2_strictly_increases(1074, 2098);
    assert(eps is Finite);
}

proof fn lemma_next_kept(total: int, video_fps: FloatValue, fps: FloatValue, last: int)
    requires
        0 <= last < total <= usize::MAX,
        total <= pow2(53),
        minimax_m3::next_kept(video_fps, fps, last) < total,
        !(target(video_fps, fps, last) is Nan),
    ensures
        ({
            let next = minimax_m3::next_kept(video_fps, fps, last);
            let goal = target(video_fps, fps, last);
            &&& goal.at_most(FloatValue::of(next))
            &&& forall|between: int|
                last < between < next ==> #[trigger] FloatValue::of(between).less(goal)
        }),
{
    let next = minimax_m3::next_kept(video_fps, fps, last);
    let goal = target(video_fps, fps, last);
    let one = value::one();
    order::lemma_powers();
    order::lemma_of_exact(next as nat);
    match goal {
        FloatValue::Finite { negative, units } => {
            lemma_fundamental_div_mod(units as int, one as int);
            let k = units / one;
            assert(one * k == k * one) by (nonlinear_arith);
            lemma_div_multiples_vanish(k as int, one as int);
            lemma_div_multiples_vanish((k + 1) as int, one as int);
            assert((k + 1) * one == k * one + one && one * (k + 1) == (k + 1) * one)
                by (nonlinear_arith);
            if !negative {
                let whole = value::up(units) / one;
                assert(whole * one == value::up(units));
                assert(whole <= next);
                lemma_mul_inequality(whole as int, next, one as int);
                assert forall|between: int| last < between < next implies #[trigger] FloatValue::of(
                    between,
                ).less(goal) by {
                    order::lemma_of_exact(between as nat);
                    assert(next == whole);
                    lemma_mul_inequality(between + 1, next, one as int);
                    assert((between + 1) * one == between * one + one) by (nonlinear_arith);
                }
            } else {
                assert(next * one >= 0) by (nonlinear_arith)
                    requires
                        next >= 0,
                        one > 0,
                ;
            }
        },
        FloatValue::Infinite { negative } => {},
        FloatValue::Nan => {},
    }
}

proof fn lemma_kept_steps(total: int, video_fps: FloatValue, fps: FloatValue, last: int, i: int)
    requires
        0 <= last < total,
        0 <= i,
        i + 1 < (seq![last as usize] + minimax_m3::kept_after(total, video_fps, fps, last)).len(),
        total <= usize::MAX,
    ensures
        ({
            let all = seq![last as usize] + minimax_m3::kept_after(total, video_fps, fps, last);
            &&& 0 <= all[i] < total
            &&& all[i + 1] == minimax_m3::next_kept(video_fps, fps, all[i] as int)
            &&& all[i + 1] < total
        }),
    decreases i,
{
    let all = seq![last as usize] + minimax_m3::kept_after(total, video_fps, fps, last);
    let next = minimax_m3::next_kept(video_fps, fps, last);
    let rest = minimax_m3::kept_after(total, video_fps, fps, last);
    assert(next < total);
    assert(rest == seq![next as usize] + minimax_m3::kept_after(total, video_fps, fps, next));
    assert(all[1] == rest[0]);
    if i > 0 {
        lemma_kept_steps(total, video_fps, fps, next, i - 1);
        assert(all[i] == rest[i - 1] && all[i + 1] == rest[i]);
    }
}

/// Law: up to 2^53 frames, each further frame that MiniMax-M3 sampling keeps is
/// the first one after the frame before that lies at or past the target: one
/// sampling interval later, less a ten-thousandth of a second.
pub proof fn law_minimax_m3_keeps_the_first_frame_past_each_target(
    source: VideoSourceMeta,
    sample_fps: Binary32,
    i: int,
)
    requires
        source.total_frames <= pow2(53),
        source.original_fps@.is_known(),
        sample_fps@.is_known(),
        0 <= i,
        i + 1 < minimax_m3::minimax_m3_indices(source, sample_fps).len(),
    ensures
        ({
            let indices = minimax_m3::minimax_m3_indices(source, sample_fps);
            let goal = target(source.original_fps@, sample_fps@, indices[i] as int);
            &&& goal.at_most(FloatValue::of(indices[i + 1] as int))
            &&& forall|between: int|
                indices[i] < between < indices[i + 1] ==> #[trigger] FloatValue::of(between).less(
                    goal,
                )
        }),
{
    let total = source.total_frames as int;
    let indices = minimax_m3::minimax_m3_indices(source, sample_fps);
    lemma_kept_steps(total, source.original_fps@, sample_fps@, 0, i);
    lemma_target_is_a_number(source.original_fps@, sample_fps@, indices[i] as int);
    lemma_next_kept(total, source.original_fps@, sample_fps@, indices[i] as int);
}

/// Law: no strategy picks a frame of a source that has none.
pub proof fn law_empty_source_yields_no_indices(
    strategy: VideoSamplingStrategy,
    source: VideoSourceMeta,
    min_frames: usize,
    max_frames: usize,
    sample_fps: Binary32,
)
    requires
        source.total_frames == 0,
    ensures
        strategy.planned(source, min_frames, max_frames, sample_fps) == Seq::<usize>::empty(),
{
}

/// Law: where the frame rate is unknown, Qwen3-VL and GLM sampling are uniform
/// sampling, which then takes `max_frames` frames (at least one); MiniMax-M3
/// sampling takes the first frame alone.
pub proof fn law_unknown_rate_falls_back(
    source: VideoSourceMeta,
    min_frames: usize,
    max_frames: usize,
    sample_fps: Binary32,
    max_duration: Binary64,
)
    requires
        source.total_frames > 0,
        !source.original_fps@.is_known(),
        min_frames <= max_frames,
    ensures
        ({
            let uniform = VideoSamplingStrategy::Uniform.planned(
                source,
                min_frames,
                max_frames,
                sample_fps,
            );
            let glm = VideoSamplingStrategy::Glm5Next { max_duration };
            &&& VideoSamplingStrategy::Qwen3Vl.planned(source, min_frames, max_frames, sample_fps)
                == uniform
            &&& glm.planned(source, min_frames, max_frames, sample_fps) == uniform
            &&& uniform.len() == if max_frames == 0 {
                1
            } else {
                max_frames
            }
            &&& VideoSamplingStrategy::MiniMaxM3.planned(
                source,
                min_frames,
                max_frames,
                sample_fps,
            ) == seq![0usize]
        }),
{
    law_uniform_keeps_to_its_bounds(source, min_frames, max_frames, sample_fps);
}

/// Law: whatever the strategy, every planned index is a frame of the source and
/// the indices stand in order, up to 2^51 frames. (Beyond, rounding can pass the
/// last frame.)
pub proof fn law_plans_hold_frames_in_order(
    strategy: VideoSamplingStrategy,
    source: VideoSourceMeta,
    min_frames: usize,
    max_frames: usize,
    sample_fps: Binary32,
)
    requires
        source.total_frames <= pow2(51),
    ensures
        in_range(
            strategy.planned(source, min_frames, max_frames, sample_fps),
            source.total_frames as int,
        ),
        in_order(strategy.planned(source, min_frames, max_frames, sample_fps)),
{
    order::lemma_powers();
    if source.total_frames > 0 {
        let total = source.total_frames as nat;
        let count = video_sampling::uniform_count(source, min_frames, max_frames, sample_fps);
        lemma_floor_grid(total, count as nat);
        law_uniform_picks_frames_of_the_source(source, min_frames, max_frames, sample_fps);
        match strategy {
            VideoSamplingStrategy::Uniform => {},
            VideoSamplingStrategy::Qwen3Vl => {
                law_qwen3_vl_picks_frames_of_the_source(
                    source,
                    min_frames,
                    max_frames,
                    sample_fps,
                );
                lemma_round_grid(
                    total,
                    qwen3_vl::qwen3_vl_count(source, min_frames, max_frames, sample_fps) as nat,
                );
            },
            VideoSamplingStrategy::Glm5Next { max_duration } => {
                law_glm_picks_frames_of_the_source(
                    source,
                    min_frames,
                    max_frames,
                    sample_fps,
                    max_duration,
                );
            },
            VideoSamplingStrategy::MiniMaxM3 => {
                law_minimax_m3_picks_distinct_frames(source, sample_fps);
            },
        }
    }
}

} // verus!
