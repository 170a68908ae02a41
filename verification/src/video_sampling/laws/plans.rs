//! How plans answer what was asked for: how many frames, and which.
//!
//! Every law here speaks of the planned frames themselves and of what the caller
//! handed over. Counts are bounded from both sides, positions are compared with
//! the exact ones, and walks are followed to their end.
use crate::float::binary32::Binary32;
use crate::float::binary64::Binary64;
use crate::float::order;
use crate::float::rounding;
use crate::float::value;
use crate::float::value::FloatValue;
use crate::registry::{glm53_flash, minimax_m3, qwen3_vl};
use crate::video_sampling;
use crate::video_sampling::{grid, laws, ties};
use crate::video_sampling::{VideoSamplingStrategy, VideoSourceMeta};
use vstd::arithmetic::div_mod::*;
use vstd::arithmetic::mul::*;
use vstd::arithmetic::power2::*;
use vstd::prelude::*;

verus! {

/// `v >= n`, with nothing rounded.
pub open spec fn at_least(v: FloatValue, n: int) -> bool {
    match v {
        FloatValue::Nan => false,
        FloatValue::Infinite { negative } => !negative,
        FloatValue::Finite { .. } => v.signed() >= n * value::one(),
    }
}

/// `v >= halves / 2`, with nothing rounded.
pub open spec fn at_least_halves(v: FloatValue, halves: int) -> bool {
    match v {
        FloatValue::Nan => false,
        FloatValue::Infinite { negative } => !negative,
        FloatValue::Finite { .. } => 2 * v.signed() >= halves * value::one(),
    }
}

/// How many frames a rate asks for: the clip's length in seconds times the rate.
pub open spec fn asked(source: VideoSourceMeta, sample_fps: Binary32) -> FloatValue {
    FloatValue::of(source.total_frames as int).over(source.original_fps@).times(sample_fps@)
}

/// An index is the whole part of a number.
proof fn lemma_index(v: FloatValue, max: nat)
    ensures
        v.to_unsigned(max) == 0 || at_least(v, v.to_unsigned(max) as int),
        v.to_unsigned(max) < max ==> !at_least(v, v.to_unsigned(max) as int + 1),
        v.to_unsigned(max) <= max,
{
    order::lemma_powers();
    let one = value::one();
    if let FloatValue::Finite { negative, units } = v {
        lemma_fundamental_div_mod(units as int, one as int);
        let k = (units / one) as int;
        assert(one * k == k * one && (k + 1) * one == k * one + one) by (nonlinear_arith);
        assert(1 * one == one);
        if max < k {
            lemma_mul_inequality(max as int, k, one as int);
        }
    }
}

/// A rounded index is the nearest whole number.
proof fn lemma_rounded_index(v: FloatValue, max: nat)
    ensures
        v.round().to_unsigned(max) == 0 || at_least_halves(v, 2 * v.round().to_unsigned(max) - 1),
        v.round().to_unsigned(max) < max ==> !at_least_halves(
            v,
            2 * (v.round().to_unsigned(max) as int) + 1,
        ),
        v.round().to_unsigned(max) <= max,
{
    order::lemma_powers();
    let one = value::one();
    if let FloatValue::Finite { negative, units } = v {
        lemma_fundamental_div_mod(units as int, one as int);
        let k = (units / one) as int;
        assert(one * k == k * one && (k + 1) * one == k * one + one) by (nonlinear_arith);
        lemma_div_multiples_vanish(k, one as int);
        lemma_div_multiples_vanish(k + 1, one as int);
        assert(one * (k + 1) == (k + 1) * one) by (nonlinear_arith);
        let up = 2 * (units % one) >= one;
        let r = if up {
            k + 1
        } else {
            k
        };
        assert(v.round()->units == r * one);
        assert((2 * r - 1) * one == 2 * (r * one) - one && (2 * r + 1) * one == 2 * (r * one) + one)
            by (nonlinear_arith);
        if max < r {
            assert((2 * max - 1) * one <= (2 * r - 1) * one) by (nonlinear_arith)
                requires
                    max <= r,
                    one > 0,
            ;
        }
        assert(1 * one == one);
    }
}

/// Law: where the frame rate is known, uniform sampling takes the number of frames
/// asked for, to the nearest whole number. Bounds move it only as far as they
/// must, and one frame is taken at least.
pub proof fn law_uniform_takes_what_is_asked_for(
    source: VideoSourceMeta,
    min_frames: usize,
    max_frames: usize,
    sample_fps: Binary32,
)
    requires
        source.total_frames > 0,
        source.original_fps@.is_known(),
        min_frames <= max_frames,
    ensures
        ({
            let n = VideoSamplingStrategy::Uniform.planned(
                source,
                min_frames,
                max_frames,
                sample_fps,
            ).len() as int;
            &&& min_frames <= n
            &&& 1 <= n
            &&& n <= max_frames || n == 1
            &&& n > min_frames && n > 1 ==> at_least_halves(asked(source, sample_fps), 2 * n - 1)
            &&& n < max_frames ==> !at_least_halves(asked(source, sample_fps), 2 * n + 1)
        }),
{
    laws::law_uniform_keeps_to_its_bounds(source, min_frames, max_frames, sample_fps);
    let x = asked(source, sample_fps);
    lemma_rounded_index(x, usize::MAX as nat);
    order::lemma_powers();
    let k = x.round().to_unsigned(usize::MAX as nat) as int;
    let n = VideoSamplingStrategy::Uniform.planned(source, min_frames, max_frames, sample_fps).len()
        as int;
    if n < max_frames {
        assert(k <= n);
        lemma_halves_ordered(x, 2 * k + 1, 2 * n + 1);
    }
    if n > min_frames && n > 1 {
        assert(n <= k);
        lemma_halves_ordered(x, 2 * n - 1, 2 * k - 1);
    }
}

proof fn lemma_halves_ordered(v: FloatValue, a: int, b: int)
    requires
        a <= b,
    ensures
        at_least_halves(v, b) ==> at_least_halves(v, a),
{
    order::lemma_powers();
    lemma_mul_inequality(a, b, value::one() as int);
}

proof fn lemma_at_least_ordered(v: FloatValue, a: int, b: int)
    requires
        a <= b,
    ensures
        at_least(v, b) ==> at_least(v, a),
{
    order::lemma_powers();
    lemma_mul_inequality(a, b, value::one() as int);
}

/// Law: where the frame rate is unknown, uniform sampling takes as many frames as
/// it may, and one at least.
pub proof fn law_uniform_takes_the_most_without_a_rate(
    source: VideoSourceMeta,
    min_frames: usize,
    max_frames: usize,
    sample_fps: Binary32,
)
    requires
        source.total_frames > 0,
        !source.original_fps@.is_known(),
        min_frames <= max_frames,
    ensures
        ({
            let n = VideoSamplingStrategy::Uniform.planned(
                source,
                min_frames,
                max_frames,
                sample_fps,
            ).len();
            &&& max_frames > 0 ==> n == max_frames
            &&& max_frames == 0 ==> n == 1
        }),
{
}

/// Law: frame `i` of `n` uniform ones is the whole part of its position
/// `i * (total - 1) / (n - 1)`, worked out in double precision.
pub proof fn law_uniform_frames_are_cut_positions(
    source: VideoSourceMeta,
    min_frames: usize,
    max_frames: usize,
    sample_fps: Binary32,
    i: int,
)
    requires
        source.total_frames > 0,
        0 <= i < VideoSamplingStrategy::Uniform.planned(
            source,
            min_frames,
            max_frames,
            sample_fps,
        ).len(),
    ensures
        ({
            let frames = VideoSamplingStrategy::Uniform.planned(
                source,
                min_frames,
                max_frames,
                sample_fps,
            );
            let last = FloatValue::of(source.total_frames - 1);
            frames.len() > 1 ==> is_cut_to(
                FloatValue::of(i).times(last).over(FloatValue::of(frames.len() - 1)),
                frames[i],
            )
        }),
{
    let count = video_sampling::uniform_count(source, min_frames, max_frames, sample_fps);
    if count > 1 {
        let v = video_sampling::grid_point(source.total_frames as int, count as int, i);
        let one = value::one();
        grid::lemma_point(source.total_frames as nat, count as nat, i as nat);
        order::lemma_powers();
        let k = (v->units / one) as int;
        lemma_div_multiples_vanish(k, one as int);
        assert(one * k == k * one) by (nonlinear_arith);
        lemma_index(v, usize::MAX as nat);
    }
}

/// Law: frame `i` of `n` uniform ones is the one at or before the position
/// `i * (total - 1) / (n - 1)`, wherever the product is below 2^53; a single one is
/// the first.
pub proof fn law_uniform_frames_are_evenly_spaced(
    source: VideoSourceMeta,
    min_frames: usize,
    max_frames: usize,
    sample_fps: Binary32,
    i: int,
)
    requires
        source.total_frames > 0,
        ({
            let n = VideoSamplingStrategy::Uniform.planned(
                source,
                min_frames,
                max_frames,
                sample_fps,
            ).len();
            &&& 0 <= i < n
            &&& n - 1 <= pow2(53)
        }),
        i * (source.total_frames - 1) < pow2(53),
    ensures
        ({
            let frames = VideoSamplingStrategy::Uniform.planned(
                source,
                min_frames,
                max_frames,
                sample_fps,
            );
            let n = frames.len();
            &&& n == 1 ==> frames[i] == 0
            &&& n > 1 ==> frames[i] * (n - 1) <= i * (source.total_frames - 1) < (frames[i] + 1) * (
            n - 1)
        }),
{
    let count = video_sampling::uniform_count(source, min_frames, max_frames, sample_fps);
    laws::lemma_floor_grid(source.total_frames as nat, count as nat);
    let frames = VideoSamplingStrategy::Uniform.planned(
        source,
        min_frames,
        max_frames,
        sample_fps,
    );
    if count > 1 {
        laws::law_uniform_grid_is_exact(source.total_frames, count, i);
        let p = i * (source.total_frames - 1);
        let d = count - 1;
        lemma_fundamental_div_mod(p, d);
        assert(d * (p / d) == (p / d) * d && (p / d + 1) * d == (p / d) * d + d)
            by (nonlinear_arith);
    }
}

/// Law: where the frame rate is known, Qwen3-VL sampling takes the whole part of
/// the number of frames asked for. It takes no more than `max_frames` and than
/// there are, and bounds move it only as far as they must.
pub proof fn law_qwen3_vl_takes_what_is_asked_for(
    source: VideoSourceMeta,
    min_frames: usize,
    max_frames: usize,
    sample_fps: Binary32,
)
    requires
        source.total_frames > 0,
        source.original_fps@.is_known(),
    ensures
        ({
            let n = VideoSamplingStrategy::Qwen3Vl.planned(
                source,
                min_frames,
                max_frames,
                sample_fps,
            ).len() as int;
            &&& n <= max_frames
            &&& n <= source.total_frames
            &&& n > min_frames ==> at_least(asked(source, sample_fps), n)
            &&& n < max_frames && n < source.total_frames ==> min_frames <= n && !at_least(
                asked(source, sample_fps),
                n + 1,
            )
        }),
{
    laws::law_qwen3_vl_keeps_to_its_bounds(source, min_frames, max_frames, sample_fps);
    let x = asked(source, sample_fps);
    lemma_index(x, usize::MAX as nat);
    let k = x.to_unsigned(usize::MAX as nat) as int;
    let n = VideoSamplingStrategy::Qwen3Vl.planned(source, min_frames, max_frames, sample_fps).len()
        as int;
    if n > min_frames {
        assert(n <= k);
        lemma_at_least_ordered(x, n, k);
    }
    if n < max_frames && n < source.total_frames {
        assert(k <= n);
        lemma_at_least_ordered(x, k + 1, n + 1);
    }
}

/// Law: where the whole part `t` of the number of frames asked for keeps to all
/// bounds, the Qwen3-VL plan holds exactly `t` frames.
pub proof fn law_qwen3_vl_takes_exactly_the_count_within_bounds(
    source: VideoSourceMeta,
    min_frames: usize,
    max_frames: usize,
    sample_fps: Binary32,
    t: int,
)
    requires
        source.total_frames > 0,
        source.original_fps@.is_known(),
        min_frames <= t <= max_frames,
        t <= source.total_frames,
        t == 0 || at_least(asked(source, sample_fps), t),
        !at_least(asked(source, sample_fps), t + 1),
    ensures
        VideoSamplingStrategy::Qwen3Vl.planned(source, min_frames, max_frames, sample_fps).len()
            == t,
{
    law_qwen3_vl_takes_what_is_asked_for(source, min_frames, max_frames, sample_fps);
    let x = asked(source, sample_fps);
    let n = VideoSamplingStrategy::Qwen3Vl.planned(source, min_frames, max_frames, sample_fps).len()
        as int;
    if n < t {
        lemma_at_least_ordered(x, n + 1, t);
    }
    if n > t {
        lemma_at_least_ordered(x, t + 1, n);
    }
}

/// Law: frame `i` of `n` that Qwen3-VL sampling picks is the one nearest to the
/// position `i * (total - 1) / (n - 1)`, the even one of two equally near,
/// wherever the product is below 2^52; a single one is the first.
pub proof fn law_qwen3_vl_frames_are_nearest_to_even_spacing(
    source: VideoSourceMeta,
    min_frames: usize,
    max_frames: usize,
    sample_fps: Binary32,
    i: int,
)
    requires
        source.total_frames > 0,
        source.original_fps@.is_known(),
        ({
            let n = VideoSamplingStrategy::Qwen3Vl.planned(
                source,
                min_frames,
                max_frames,
                sample_fps,
            ).len();
            &&& 0 <= i < n
            &&& n - 1 <= pow2(53)
        }),
        i * (source.total_frames - 1) < pow2(52),
    ensures
        ({
            let frames = VideoSamplingStrategy::Qwen3Vl.planned(
                source,
                min_frames,
                max_frames,
                sample_fps,
            );
            let d = frames.len() - 1;
            let twice = 2 * (i * (source.total_frames - 1));
            &&& d == 0 ==> frames[i] == 0
            &&& d > 0 ==> -d <= 2 * (frames[i] * d) - twice <= d
            &&& d > 0 && (2 * (frames[i] * d) - twice == d || 2 * (frames[i] * d) - twice == -d)
                ==> frames[i] % 2 == 0
        }),
{
    let count = qwen3_vl::qwen3_vl_count(source, min_frames, max_frames, sample_fps);
    laws::lemma_round_grid(source.total_frames as nat, count as nat);
    if count > 1 {
        laws::law_qwen3_vl_grid_is_exact(source.total_frames, count, i);
        let p = i * (source.total_frames - 1);
        assert(p >= 0) by (nonlinear_arith)
            requires
                p == i * (source.total_frames - 1),
                i >= 0,
                source.total_frames >= 1,
        ;
        rounding::lemma_nearest_integer_is_nearest(p as nat, (count - 1) as nat);
    }
}

/// Law: frame `i` of `n` that Qwen3-VL sampling picks is the one nearest to its
/// position `i * (total - 1) / (n - 1)`, worked out in double precision, and the
/// even one of two that are equally near.
pub proof fn law_qwen3_vl_frames_are_rounded_positions(
    source: VideoSourceMeta,
    min_frames: usize,
    max_frames: usize,
    sample_fps: Binary32,
    i: int,
)
    requires
        source.total_frames > 0,
        source.original_fps@.is_known(),
        0 <= i < VideoSamplingStrategy::Qwen3Vl.planned(
            source,
            min_frames,
            max_frames,
            sample_fps,
        ).len(),
    ensures
        ({
            let frames = VideoSamplingStrategy::Qwen3Vl.planned(
                source,
                min_frames,
                max_frames,
                sample_fps,
            );
            let last = FloatValue::of(source.total_frames - 1);
            let v = FloatValue::of(i).times(last).over(FloatValue::of(frames.len() - 1));
            let off = 2 * (frames[i] * value::one() - v.signed());
            &&& frames.len() > 1 ==> v is Finite && off <= value::one()
            &&& frames.len() > 1 && frames[i] < usize::MAX ==> -value::one() <= off
            &&& frames.len() > 1 && frames[i] < usize::MAX && (off == value::one() || off
                == -value::one()) ==> frames[i] % 2 == 0
        }),
{
    let count = qwen3_vl::qwen3_vl_count(source, min_frames, max_frames, sample_fps);
    if count > 1 {
        let total = source.total_frames as nat;
        let one = value::one();
        let x = grid::stretched(total, i as nat);
        let a = order::rounded((count - 1) as nat * one, 1);
        let units = grid::point(total, count as nat, i as nat);
        grid::lemma_point(total, count as nat, i as nat);
        order::lemma_powers();
        let written = ties::lemma_rounded_is_written(x * one, a);
        ties::lemma_half_to_even(written.0, written.1, units);
        rounding::lemma_nearest_integer_is_nearest(units, one);
        let k = rounding::nearest_integer(units, one) as int;
        lemma_div_multiples_vanish(k, one as int);
        assert(one * k == k * one) by (nonlinear_arith);
        if k > usize::MAX {
            lemma_mul_inequality(usize::MAX as int, k, one as int);
        }
    }
}

/// `v > n`, with nothing rounded.
pub open spec fn past(v: FloatValue, n: int) -> bool {
    match v {
        FloatValue::Nan => false,
        FloatValue::Infinite { negative } => !negative,
        FloatValue::Finite { .. } => v.signed() > n * value::one(),
    }
}

/// The next frame kept is the first one that the target does not lie past.
proof fn lemma_next_reaches_target(total: int, video_fps: FloatValue, fps: FloatValue, last: int)
    requires
        0 <= last < total <= usize::MAX,
    ensures
        ({
            let next = minimax_m3::next_kept(video_fps, fps, last);
            let goal = laws::target(video_fps, fps, last);
            &&& next < total ==> !past(goal, next)
            &&& forall|frame: int|
                last < frame < total && frame < next ==> #[trigger] past(goal, frame)
        }),
{
    let next = minimax_m3::next_kept(video_fps, fps, last);
    let goal = laws::target(video_fps, fps, last);
    let one = value::one();
    order::lemma_powers();
    assert(next * one >= 0) by (nonlinear_arith)
        requires
            next >= 0,
            one > 0,
    ;
    if let FloatValue::Finite { negative, units } = goal {
        lemma_fundamental_div_mod(units as int, one as int);
        let k = (units / one) as int;
        assert(one * k == k * one && (k + 1) * one == k * one + one && one * (k + 1) == (k + 1)
            * one) by (nonlinear_arith);
        lemma_div_multiples_vanish(k, one as int);
        lemma_div_multiples_vanish(k + 1, one as int);
        if !negative {
            let whole = (value::up(units) / one) as int;
            assert(whole * one == value::up(units));
            assert(value::up(units) >= units);
            if next < total {
                assert(whole <= next);
                lemma_mul_inequality(whole, next, one as int);
            }
            assert forall|frame: int| last < frame < total && frame < next implies #[trigger] past(
                goal,
                frame,
            ) by {
                assert(frame + 1 <= whole);
                lemma_mul_inequality(frame + 1, whole, one as int);
                assert((frame + 1) * one == frame * one + one) by (nonlinear_arith);
            }
        }
    }
}

proof fn lemma_last_kept(total: int, video_fps: FloatValue, fps: FloatValue, last: int)
    requires
        0 <= last < total <= usize::MAX,
    ensures
        ({
            let all = seq![last as usize] + minimax_m3::kept_after(total, video_fps, fps, last);
            &&& 0 <= all.last() < total
            &&& minimax_m3::next_kept(video_fps, fps, all.last() as int) >= total
        }),
    decreases total - last,
{
    let next = minimax_m3::next_kept(video_fps, fps, last);
    let rest = minimax_m3::kept_after(total, video_fps, fps, last);
    if next < total {
        lemma_last_kept(total, video_fps, fps, next);
        assert(rest == seq![next as usize] + minimax_m3::kept_after(total, video_fps, fps, next));
        assert((seq![last as usize] + rest).last() == rest.last());
    }
}

/// Law: a MiniMax-M3 plan is the whole walk. It begins with the first frame; each
/// further frame is the first one at or past the target of the frame before, one
/// sampling interval later less a ten-thousandth of a second; and no frame of the
/// source lies at or past the target of the last. Where a rate is unknown, it is
/// the first frame alone.
pub proof fn law_minimax_m3_plans_are_whole_walks(
    source: VideoSourceMeta,
    min_frames: usize,
    max_frames: usize,
    sample_fps: Binary32,
)
    requires
        source.total_frames > 0,
    ensures
        ({
            let frames = VideoSamplingStrategy::MiniMaxM3.planned(
                source,
                min_frames,
                max_frames,
                sample_fps,
            );
            let known = source.original_fps@.is_known() && sample_fps@.is_known();
            let goal = |i: int|
                FloatValue::of(frames[i] as int).over(source.original_fps@).plus(
                    FloatValue::of(1).over(sample_fps@),
                ).minus(FloatValue::of(1).over(FloatValue::of(10000))).times(source.original_fps@);
            &&& frames.len() > 0
            &&& frames[0] == 0
            &&& !known ==> frames.len() == 1
            &&& known ==> forall|i: int|
                0 <= i < frames.len() - 1 ==> {
                    &&& #[trigger] frames[i] < frames[i + 1] < source.total_frames
                    &&& !past(goal(i), frames[i + 1] as int)
                }
            &&& known ==> forall|i: int, frame: int|
                0 <= i < frames.len() && frames[i] < frame < source.total_frames && (i + 1
                    < frames.len() ==> frame < frames[i + 1]) ==> #[trigger] past(goal(i), frame)
        }),
{
    let frames = VideoSamplingStrategy::MiniMaxM3.planned(
        source,
        min_frames,
        max_frames,
        sample_fps,
    );
    let total = source.total_frames as int;
    let (v, f) = (source.original_fps@, sample_fps@);
    laws::law_minimax_m3_picks_distinct_frames(source, sample_fps);
    if v.is_known() && f.is_known() {
        let goal = |i: int|
            FloatValue::of(frames[i] as int).over(v).plus(FloatValue::of(1).over(f)).minus(
                FloatValue::of(1).over(FloatValue::of(10000)),
            ).times(v);
        assert forall|i: int| 0 <= i < frames.len() - 1 implies {
            &&& #[trigger] frames[i] < frames[i + 1] < total
            &&& !past(goal(i), frames[i + 1] as int)
        } by {
            assert(goal(i) == laws::target(v, f, frames[i] as int));
            lemma_next_reaches_target(total, v, f, frames[i] as int);
            laws::lemma_kept_steps(total, v, f, 0, i);
        }
        assert forall|i: int, frame: int|
            0 <= i < frames.len() && frames[i] < frame < total && (i + 1 < frames.len() ==> frame
                < frames[i + 1]) implies #[trigger] past(goal(i), frame) by {
            assert(goal(i) == laws::target(v, f, frames[i] as int));
            lemma_next_reaches_target(total, v, f, frames[i] as int);
            if i + 1 < frames.len() {
                laws::lemma_kept_steps(total, v, f, 0, i);
            } else {
                lemma_last_kept(total, v, f, 0);
            }
        }
    }
}

/// Points from `start` to `end` at even distances, each cut to a whole number: at
/// the exact position or less than one before it, or one before where the exact
/// position is whole.
pub open spec fn is_evenly_spaced(points: Seq<usize>, start: int, end: int) -> bool {
    let d = points.len() - 1;
    &&& laws::in_order(points)
    &&& points.len() >= 1 ==> points[0] == start
    &&& points.len() >= 2 ==> points.last() == end
    &&& forall|i: int|
        0 <= i < points.len() ==> (#[trigger] points[i]) * d <= start * d + i * (end - start)
            <= (points[i] + 1) * d
}

/// Frames without repeats, in increasing order, but for the last one, which stands
/// twice where that makes their number even.
pub open spec fn is_even_without_repeats(frames: Seq<usize>) -> bool {
    &&& frames.len() % 2 == 0
    &&& forall|i: int, j: int|
        0 <= i < j < frames.len() ==> frames[i] < frames[j] || (frames[i] == frames[j] && i
            == frames.len() - 2)
}

/// Two sequences hold the same numbers.
pub open spec fn same_numbers(a: Seq<usize>, b: Seq<usize>) -> bool {
    forall|x: usize| #[trigger] a.contains(x) <==> b.contains(x)
}

proof fn lemma_scaled_error(y: int, s: int, x: int, t: int, v: int, d: int, i: int, one: int, e: int)
    requires
        d >= 1,
        i >= 0,
        one > 0,
        // Three roundings, each off by a 2^53rd part at most.
        (0x20_0000_0000_0000 - 1) * (s + x) <= 0x20_0000_0000_0000 * y <= (0x20_0000_0000_0000 + 1)
            * (s + x),
        (0x20_0000_0000_0000 - 1) * (i * t) <= 0x20_0000_0000_0000 * x <= (0x20_0000_0000_0000 + 1)
            * (i * t),
        (0x20_0000_0000_0000 - 1) * v <= 0x20_0000_0000_0000 * (t * d) <= (0x20_0000_0000_0000 + 1)
            * v,
        e == d * s + i * v,
        0 <= 8 * e <= 0x20_0000_0000_0000 * one,
        s >= 0,
        v >= 0,
    ensures
        e - one < d * y < e + one,
{
    let (p, q, r, u, z) = (d * y, d * s, d * x, i * (t * d), i * v);
    assert(d * (s + x) == q + r) by (nonlinear_arith)
        requires
            q == d * s,
            r == d * x,
    ;
    assert((i * t) * d == u) by (nonlinear_arith)
        requires
            u == i * (t * d),
    ;
    assert((0x20_0000_0000_0000 - 1) * (q + r) <= 0x20_0000_0000_0000 * p <= (0x20_0000_0000_0000
        + 1) * (q + r)) by (nonlinear_arith)
        requires
            (0x20_0000_0000_0000 - 1) * (s + x) <= 0x20_0000_0000_0000 * y
                <= (0x20_0000_0000_0000 + 1) * (s + x),
            d * (s + x) == q + r,
            p == d * y,
            d >= 1,
    ;
    assert((0x20_0000_0000_0000 - 1) * u <= 0x20_0000_0000_0000 * r <= (0x20_0000_0000_0000 + 1)
        * u) by (nonlinear_arith)
        requires
            (0x20_0000_0000_0000 - 1) * (i * t) <= 0x20_0000_0000_0000 * x
                <= (0x20_0000_0000_0000 + 1) * (i * t),
            (i * t) * d == u,
            r == d * x,
            d >= 1,
    ;
    assert((0x20_0000_0000_0000 - 1) * z <= 0x20_0000_0000_0000 * u <= (0x20_0000_0000_0000 + 1)
        * z) by (nonlinear_arith)
        requires
            (0x20_0000_0000_0000 - 1) * v <= 0x20_0000_0000_0000 * (t * d)
                <= (0x20_0000_0000_0000 + 1) * v,
            u == i * (t * d),
            z == i * v,
            i >= 0,
    ;
    assert(z >= 0) by (nonlinear_arith)
        requires
            z == i * v,
            i >= 0,
            v >= 0,
    ;
    assert(q >= 0) by (nonlinear_arith)
        requires
            q == d * s,
            d >= 1,
            s >= 0,
    ;
}

/// A linspace point lies between its exact position and one before.
proof fn lemma_linspace_point(start: nat, end: nat, num: nat, i: nat)
    requires
        start <= end <= usize::MAX,
        2 <= num <= usize::MAX,
        end * (num - 1) <= pow2(50),
        i < num,
    ensures
        ({
            let p = glm53_flash::linspace(start as int, end as int, num as int)[i as int];
            let d = num - 1;
            p * d <= start * d + i * (end - start) <= (p + 1) * d
        }),
{
    let one = value::one();
    let w = pow2(53);
    let span = (end - start) as nat;
    let d = (num - 1) as nat;
    let p = glm53_flash::linspace(start as int, end as int, num as int)[i as int];
    order::lemma_powers();
    lemma_pow2_unfold(52);
    lemma_pow2_unfold(51);
    assert(start * d + d * span == end * d && (end + 1) * d == end * d + d) by (nonlinear_arith)
        requires
            start + span == end,
    ;
    assert(end <= pow2(50)) by (nonlinear_arith)
        requires
            end * d <= pow2(50),
            d >= 1,
    ;
    if i == d {
    } else {
        laws::lemma_step_point(start, end, num, i);
        let y = laws::step_point(start, span, num, i);
        lemma_fundamental_div_mod(y as int, one as int);
        let k = (y / one) as int;
        assert(one * k == k * one && (k + 1) * one == k * one + one) by (nonlinear_arith);
        if span == 0 {
            laws::lemma_step_point_bound(start, end, num, 0);
            laws::lemma_step_points_ordered(start, span, num, 0, i);
            laws::lemma_step_point_bound(start, end, num, i);
            assert(y <= start * one + pow2(1073)) by (nonlinear_arith)
                requires
                    y <= (2 * start + 1) * pow2(1073),
                    one == 2 * pow2(1073),
            ;
            assert(k == start) by {
                lemma_fundamental_div_mod_converse(
                    y as int,
                    one as int,
                    start as int,
                    y - start * one,
                );
            }
            assert(i * span == 0) by (nonlinear_arith)
                requires
                    span == 0,
            ;
            assert((start + 1) * d == start * d + d) by (nonlinear_arith);
        } else {
            assert(d <= pow2(50)) by (nonlinear_arith)
                requires
                    end * d <= pow2(50),
                    end >= 1,
            ;
            order::lemma_of_exact(start);
            order::lemma_of_exact(span);
            order::lemma_of_exact(d);
            order::lemma_of_exact(i);
            order::lemma_of(start);
            order::lemma_of(span);
            order::lemma_of(d);
            order::lemma_of(i);
            let b = span * one;
            let a = d * one;
            let t = order::rounded(b * one, a);
            assert(a > 0) by (nonlinear_arith)
                requires
                    a == d * one,
                    d >= 1,
                    one > 0,
            ;
            assert(b * one >= a * w) by (nonlinear_arith)
                requires
                    b == span * one,
                    span >= 1,
                    a == d * one,
                    d <= pow2(64),
                    one >= w * pow2(64),
            ;
            order::lemma_error(b * one, a);
            assert(t * a == (t * d) * one) by (nonlinear_arith)
                requires
                    a == d * one,
            ;
            assert(w * (t * a) == (w * (t * d)) * one && (w + 1) * (b * one) == ((w + 1) * b) * one
                && (w - 1) * (b * one) == ((w - 1) * b) * one) by (nonlinear_arith)
                requires
                    t * a == (t * d) * one,
            ;
            assert((w - 1) * b <= w * (t * d) <= (w + 1) * b) by (nonlinear_arith)
                requires
                    ((w - 1) * b) * one <= (w * (t * d)) * one <= ((w + 1) * b) * one,
                    one > 0,
            ;
            let x = order::rounded((i * one) * t, one);
            let s = start * one;
            assert(y == order::rounded(s + x, 1));
            if i == 0 {
                assert((0 * one) * t == 0) by (nonlinear_arith);
                order::lemma_zero(one);
                assert(x == 0);
                rounding::lemma_nearest_exact(53, 0, start, 1074, s, 1);
                assert(y == s);
                assert(w * 0 == 0 && (w + 1) * 0 == 0);
                lemma_fundamental_div_mod_converse(y as int, one as int, start as int, 0);
                assert(0 * span == 0);
                assert((start + 1) * d == start * d + d) by (nonlinear_arith);
            } else {
                assert(t >= 2 * w) by (nonlinear_arith)
                    requires
                        (w - 1) * b <= w * (t * d),
                        b == span * one,
                        span >= 1,
                        d <= pow2(50),
                        one >= w * pow2(64),
                        w == 0x20_0000_0000_0000,
                        pow2(64) == 0x1_0000_0000_0000_0000,
                        pow2(50) == 0x4_0000_0000_0000,
                ;
                assert((i * one) * t == (i * t) * one) by (nonlinear_arith);
                assert((i * t) * one >= one * w) by (nonlinear_arith)
                    requires
                        t >= w,
                        i >= 1,
                ;
                order::lemma_error((i * one) * t, one);
                let it = (i * t) as int;
                assert(w * (x * one) == (w * x) * one && (w + 1) * ((i * t) * one) == ((w + 1) * it)
                    * one && (w - 1) * ((i * t) * one) == ((w - 1) * it) * one) by (nonlinear_arith)
                    requires
                        it == i * t,
                ;
                assert((w - 1) * it <= w * x <= (w + 1) * it) by (nonlinear_arith)
                    requires
                        ((w - 1) * it) * one <= (w * x) * one <= ((w + 1) * it) * one,
                        one > 0,
                ;
                assert(it >= t) by (nonlinear_arith)
                    requires
                        it == i * t,
                        i >= 1,
                ;
                assert(x >= w) by (nonlinear_arith)
                    requires
                        (w - 1) * it <= w * x,
                        it >= t,
                        t >= 2 * w,
                        w == 0x20_0000_0000_0000,
                ;
                assert(1 * w == w);
                order::lemma_error(s + x, 1);
                assert(y * 1 == y);
                let e = d * s + i * b;
                assert(e == (start * d + i * span) * one) by (nonlinear_arith)
                    requires
                        e == d * s + i * b,
                        s == start * one,
                        b == span * one,
                ;
                assert(i * span <= d * span) by (nonlinear_arith)
                    requires
                        i <= d,
                ;
                assert(0 <= 8 * e <= w * one) by (nonlinear_arith)
                    requires
                        e == (start * d + i * span) * one,
                        0 <= start * d + i * span <= pow2(50),
                        w == 8 * pow2(50),
                        one > 0,
                ;
                lemma_scaled_error(
                    y as int,
                    s as int,
                    x as int,
                    t as int,
                    b as int,
                    d as int,
                    i as int,
                    one as int,
                    e as int,
                );
                let exact = start * d + i * span;
                let kd = k * d;
                assert(d * y >= kd * one) by (nonlinear_arith)
                    requires
                        y >= k * one,
                        kd == k * d,
                        d >= 1,
                ;
                assert(d * y < (kd + d) * one) by (nonlinear_arith)
                    requires
                        y < k * one + one,
                        kd == k * d,
                        d >= 1,
                ;
                assert(exact >= kd) by (nonlinear_arith)
                    requires
                        kd * one <= d * y,
                        d * y < exact * one + one,
                        one > 0,
                ;
                assert(exact <= kd + d) by (nonlinear_arith)
                    requires
                        (kd + d) * one > d * y,
                        d * y > exact * one - one,
                        one > 0,
                ;
                assert((k + 1) * d == kd + d) by (nonlinear_arith)
                    requires
                        kd == k * d,
                ;
            }
        }
        assert(k <= usize::MAX) by {
            laws::lemma_step_point_bound(start, end, num, i);
            assert(k <= end) by (nonlinear_arith)
                requires
                    k * one <= y,
                    y <= (2 * end + 1) * pow2(1073),
                    one == 2 * pow2(1073),
                    pow2(1073) > 0,
            ;
        }
        assert(p == k);
    }
}

/// `d` is a clip's length in seconds: what the container says where that is known,
/// else one second more than the last frame's time, to the nearest second.
pub open spec fn is_clip_length(source: VideoSourceMeta, d: FloatValue) -> bool {
    let stated = source.duration_seconds is Some && source.duration_seconds->Some_0@.is_known();
    &&& stated ==> d == source.duration_seconds->Some_0@
    &&& !stated ==> d == FloatValue::of(source.total_frames - 1).over(
        source.original_fps@,
    ).round().plus(FloatValue::of(1))
}

/// `w` is the whole part of the clip's length, or of a positive limit where that is
/// shorter, times the sampling rate; `max_frames` where that is less.
pub open spec fn is_wanted(
    d: FloatValue,
    max_frames: usize,
    sample_fps: Binary32,
    max_duration: Binary64,
    w: int,
) -> bool {
    let limited = max_duration@.is_positive() && max_duration@.less(d);
    let length = if limited {
        max_duration@
    } else {
        d
    };
    &&& 0 <= w <= max_frames
    &&& w == 0 || at_least(length.times(sample_fps@), w)
    &&& w < max_frames ==> !at_least(length.times(sample_fps@), w + 1)
}

proof fn lemma_wanted(
    source: VideoSourceMeta,
    max_frames: usize,
    sample_fps: Binary32,
    max_duration: Binary64,
    d: FloatValue,
    w: int,
)
    requires
        is_clip_length(source, d),
        is_wanted(d, max_frames, sample_fps, max_duration, w),
    ensures
        d == glm53_flash::clip_duration(source),
        w == glm53_flash::wanted_count(source, max_frames, sample_fps, max_duration),
{
    let length = if max_duration@.is_positive() && max_duration@.less(d) {
        max_duration@
    } else {
        d
    };
    let x = length.times(sample_fps@);
    let k = x.to_unsigned(usize::MAX as nat) as int;
    lemma_index(x, usize::MAX as nat);
    let n = glm53_flash::wanted_count(source, max_frames, sample_fps, max_duration) as int;
    assert(n == if k > max_frames {
        max_frames as int
    } else {
        k
    });
    if n < w {
        lemma_at_least_ordered(x, k + 1, w);
    }
    if w < n {
        lemma_at_least_ordered(x, w + 1, k);
    }
}

/// Law: where the frame rate is known, a GLM plan holds at most the wanted number
/// of frames, and one more to make it even; it is empty where none is wanted and
/// only there.
pub proof fn law_glm_takes_what_is_asked_for(
    source: VideoSourceMeta,
    min_frames: usize,
    max_frames: usize,
    sample_fps: Binary32,
    max_duration: Binary64,
    d: FloatValue,
    w: int,
)
    requires
        source.total_frames > 0,
        source.original_fps@.is_known(),
        is_clip_length(source, d),
        is_wanted(d, max_frames, sample_fps, max_duration, w),
    ensures
        ({
            let glm = VideoSamplingStrategy::Glm5Next { max_duration };
            let n = glm.planned(source, min_frames, max_frames, sample_fps).len();
            &&& n % 2 == 0
            &&& n <= w + w % 2
            &&& n == 0 <==> w == 0
        }),
{
    lemma_wanted(source, max_frames, sample_fps, max_duration, d, w);
    laws::law_glm_counts_are_even(source, min_frames, max_frames, sample_fps, max_duration);
}

/// Law: a clip's length, the rate and the bounds leave no clip without a number of
/// frames that is wanted.
pub proof fn law_glm_wants_a_definite_number(
    source: VideoSourceMeta,
    max_frames: usize,
    sample_fps: Binary32,
    max_duration: Binary64,
    d: FloatValue,
)
    requires
        is_clip_length(source, d),
    ensures
        exists|w: int| #[trigger] is_wanted(d, max_frames, sample_fps, max_duration, w),
{
    let length = if max_duration@.is_positive() && max_duration@.less(d) {
        max_duration@
    } else {
        d
    };
    let x = length.times(sample_fps@);
    let k = x.to_unsigned(usize::MAX as nat) as int;
    lemma_index(x, usize::MAX as nat);
    let w = if k > max_frames {
        max_frames as int
    } else {
        k
    };
    lemma_at_least_ordered(x, w, k);
    assert(is_wanted(d, max_frames, sample_fps, max_duration, w));
}

proof fn lemma_first_occurrences_keep_all(s: Seq<usize>)
    ensures
        forall|x: usize| s.contains(x) ==> #[trigger] glm53_flash::first_occurrences(s).contains(x),
    decreases s.len(),
{
    if s.len() > 0 {
        let front = s.drop_last();
        let before = glm53_flash::first_occurrences(front);
        let r = glm53_flash::first_occurrences(s);
        lemma_first_occurrences_keep_all(front);
        assert forall|x: usize| s.contains(x) implies #[trigger] r.contains(x) by {
            let k = choose|k: int| 0 <= k < s.len() && s[k] == x;
            if k < front.len() {
                assert(front[k] == x);
                assert(before.contains(x));
                let j = choose|j: int| 0 <= j < before.len() && before[j] == x;
                assert(r[j] == x);
            } else if !before.contains(x) {
                assert(r[before.len() as int] == x);
            }
        }
    }
}

proof fn lemma_evened_numbers(whole: Seq<usize>)
    requires
        laws::in_order(whole),
    ensures
        ({
            let frames = glm53_flash::evened(glm53_flash::first_occurrences(whole));
            &&& is_even_without_repeats(frames)
            &&& same_numbers(frames, whole)
        }),
{
    laws::lemma_first_occurrences(whole);
    lemma_evened_holds_all(whole);
}

proof fn lemma_evened_holds_all(whole: Seq<usize>)
    ensures
        ({
            let frames = glm53_flash::evened(glm53_flash::first_occurrences(whole));
            &&& frames.len() % 2 == 0
            &&& forall|i: int, j: int|
                0 <= i < j < frames.len() && frames[i] == frames[j] ==> i == frames.len() - 2
            &&& same_numbers(frames, whole)
        }),
{
    let unique = glm53_flash::first_occurrences(whole);
    let frames = glm53_flash::evened(unique);
    laws::lemma_first_occurrences(whole);
    lemma_first_occurrences_keep_all(whole);
    assert forall|x: usize| #[trigger] frames.contains(x) <==> whole.contains(x) by {
        if frames.contains(x) {
            let k = choose|k: int| 0 <= k < frames.len() && frames[k] == x;
            if k < unique.len() {
                assert(whole.contains(unique[k]));
            } else {
                assert(whole.contains(unique[unique.len() - 1]));
            }
        }
        if whole.contains(x) {
            assert(unique.contains(x));
            let k = choose|k: int| 0 <= k < unique.len() && unique[k] == x;
            assert(frames[k] == x);
        }
    }
}

/// Law: where `end * num` stays below 2^50, a linspace has the wanted length and
/// is evenly spaced from its start to its end.
pub proof fn law_linspace_is_evenly_spaced(start: usize, end: usize, num: usize)
    requires
        start <= end < pow2(52),
        end * num <= pow2(50),
    ensures
        is_evenly_spaced(
            glm53_flash::linspace(start as int, end as int, num as int),
            start as int,
            end as int,
        ),
        glm53_flash::linspace(start as int, end as int, num as int).len() == num,
{
    let points = glm53_flash::linspace(start as int, end as int, num as int);
    laws::law_linspace_spans_its_ends(start, end, num);
    let d = points.len() - 1;
    if num >= 2 {
        assert(end * (num - 1) <= end * num) by (nonlinear_arith);
    }
    assert forall|i: int| 0 <= i < points.len() implies (#[trigger] points[i]) * d <= start * d + i
        * (end - start) <= (points[i] + 1) * d by {
        if num >= 2 {
            lemma_linspace_point(start as nat, end as nat, num as nat, i as nat);
        } else {
            assert(d == 0);
            assert(start * 0 == 0 && (points[i] + 1) * 0 == 0 && points[i] * 0 == 0 && 0 * (end
                - start) == 0);
        }
    }
}

/// `n` is the whole part of `v`, as far as it is in range.
pub open spec fn is_cut_to(v: FloatValue, n: usize) -> bool {
    &&& n == 0 || at_least(v, n as int)
    &&& n < usize::MAX ==> !at_least(v, n + 1)
}

/// Points from `start` in equal steps, each cut to a whole number, but for the
/// last of several, which is `end`.
pub open spec fn is_stepped(points: Seq<usize>, start: int, end: int) -> bool {
    let d = points.len() - 1;
    let step = FloatValue::of(end - start).over(FloatValue::of(d));
    &&& points.len() == 1 ==> points[0] == start
    &&& points.len() >= 2 ==> points.last() == end
    &&& forall|i: int|
        0 <= i < d ==> is_cut_to(
            FloatValue::of(start).plus(FloatValue::of(i).times(step)),
            #[trigger] points[i],
        )
}

/// Law: a linspace has the wanted length and goes from its start in equal steps,
/// to its end.
pub proof fn law_linspace_goes_in_equal_steps(start: usize, end: usize, num: usize)
    ensures
        is_stepped(
            glm53_flash::linspace(start as int, end as int, num as int),
            start as int,
            end as int,
        ),
        glm53_flash::linspace(start as int, end as int, num as int).len() == num,
{
    let points = glm53_flash::linspace(start as int, end as int, num as int);
    let d = points.len() - 1;
    let step = FloatValue::of(end - start).over(FloatValue::of(d));
    assert forall|i: int| 0 <= i < d implies is_cut_to(
        FloatValue::of(start as int).plus(FloatValue::of(i).times(step)),
        #[trigger] points[i],
    ) by {
        lemma_index(
            FloatValue::of(start as int).plus(FloatValue::of(i).times(step)),
            usize::MAX as nat,
        );
    }
}

/// Law: which frames a GLM plan holds. With `w` frames wanted of a clip of length
/// `d`, whose whole seconds are `stop`: take the walk that keeps the first frame
/// at or past each sampling interval up to `stop`. Where it has `w` frames, they
/// are the plan. Where it has fewer, the plan spreads `w` points evenly over the
/// walked span; where it has more, or none, over the whole clip. Points that meet
/// count once, and the last frame stands twice where that makes the number even.
/// (Where frames times wanted ones stay below 2^50.)
pub proof fn law_glm_plans_follow_the_walk(
    source: VideoSourceMeta,
    min_frames: usize,
    max_frames: usize,
    sample_fps: Binary32,
    max_duration: Binary64,
    d: FloatValue,
    w: int,
    stop: nat,
)
    requires
        source.total_frames > 0,
        source.original_fps@.is_known(),
        is_clip_length(source, d),
        is_wanted(d, max_frames, sample_fps, max_duration, w),
        w <= source.total_frames < pow2(50),
        source.total_frames * w <= pow2(50),
        stop == 0 || at_least(d, stop as int),
        stop < u64::MAX ==> !at_least(d, stop as int + 1),
        stop <= u64::MAX,
    ensures
        ({
            let glm = VideoSamplingStrategy::Glm5Next { max_duration };
            let frames = glm.planned(source, min_frames, max_frames, sample_fps);
            exists|walk: Seq<usize>|
                {
                    &&& #[trigger] laws::is_walk(
                        walk,
                        source.total_frames as int,
                        FloatValue::of(1).over(source.original_fps@),
                        FloatValue::of(1).over(sample_fps@),
                        FloatValue::of(stop as int),
                        0,
                        0,
                    )
                    &&& is_plan_of_walk(frames, walk, source.total_frames as int, w)
                }
        }),
{
    let total = source.total_frames as int;
    let glm = VideoSamplingStrategy::Glm5Next { max_duration };
    let frames = glm.planned(source, min_frames, max_frames, sample_fps);
    let walk = glm53_flash::clip_walk(source, sample_fps);
    lemma_wanted(source, max_frames, sample_fps, max_duration, d, w);
    lemma_index(d, u64::MAX as nat);
    let seconds = d.to_unsigned(u64::MAX as nat);
    if seconds < stop {
        lemma_at_least_ordered(d, seconds as int + 1, stop as int);
    }
    if stop < seconds {
        lemma_at_least_ordered(d, stop as int + 1, seconds as int);
    }
    assert(stop == seconds);
    laws::law_glm_walk_keeps_the_first_frame_at_each_threshold(source, sample_fps);
    laws::lemma_clip_walk(source, sample_fps);
    let top = (source.total_frames - 1) as usize;
    let wanted = w as usize;
    order::lemma_powers();
    lemma_pow2_unfold(52);
    lemma_pow2_unfold(51);
    let whole = glm53_flash::fitted(walk, total, w);
    assert(frames == glm53_flash::evened(glm53_flash::first_occurrences(whole)));
    assert(top * w <= pow2(50)) by (nonlinear_arith)
        requires
            top <= total,
            total * w <= pow2(50),
            w >= 0,
    ;
    law_linspace_is_evenly_spaced(0, top, wanted);
    law_linspace_goes_in_equal_steps(0, top, wanted);
    if walk.len() > 0 {
        let (first, last) = (walk.first(), walk.last());
        assert(first == walk[0] && last == walk[walk.len() - 1]);
        assert(first <= last);
        assert(last < total);
        assert(last * w <= pow2(50)) by (nonlinear_arith)
            requires
                last <= total,
                total * w <= pow2(50),
                w >= 0,
        ;
        law_linspace_is_evenly_spaced(first, last, wanted);
        law_linspace_goes_in_equal_steps(first, last, wanted);
    }
    lemma_evened_numbers(whole);
    assert(is_plan_of_walk(frames, walk, total, w)) by {
        if walk.len() == w {
            assert(whole == walk);
        } else if 0 < walk.len() < w {
            assert(is_evenly_spaced(whole, walk.first() as int, walk.last() as int));
            assert(is_spread(frames, whole, w, walk.first() as int, walk.last() as int));
        } else {
            assert(is_spread(frames, whole, w, 0, total - 1));
        }
    }
}

/// Frames are `w` points spread evenly from `start` to `end`.
pub open spec fn is_spread(
    frames: Seq<usize>,
    points: Seq<usize>,
    w: int,
    start: int,
    end: int,
) -> bool {
    &&& is_evenly_spaced(points, start, end)
    &&& is_spread_in_steps(frames, points, w, start, end)
}

/// Frames are `w` points in equal steps from `start` to `end`.
pub open spec fn is_spread_in_steps(
    frames: Seq<usize>,
    points: Seq<usize>,
    w: int,
    start: int,
    end: int,
) -> bool {
    &&& points.len() == w
    &&& is_stepped(points, start, end)
    &&& same_numbers(frames, points)
}

/// Frames are what becomes of a walk where `w` are wanted.
pub open spec fn is_plan_of_walk(
    frames: Seq<usize>,
    walk: Seq<usize>,
    total: int,
    w: int,
) -> bool {
    &&& is_even_without_repeats(frames)
    &&& walk.len() == w ==> same_numbers(frames, walk)
    &&& 0 < walk.len() < w ==> exists|points: Seq<usize>|
        #[trigger] is_spread(frames, points, w, walk[0] as int, walk.last() as int)
    &&& walk.len() > w || (walk.len() == 0 && w > 0) ==> exists|points: Seq<usize>|
        #[trigger] is_spread(frames, points, w, 0, total - 1)
}

/// Frames are what becomes of a walk where `w` are wanted, or of no walk where
/// there are fewer: an even number, none of them twice but the last.
pub open spec fn is_made_of(frames: Seq<usize>, walk: Seq<usize>, total: int, w: int) -> bool {
    &&& frames.len() % 2 == 0
    &&& forall|i: int, j: int|
        0 <= i < j < frames.len() && frames[i] == frames[j] ==> i == frames.len() - 2
    &&& total >= w && walk.len() == w ==> same_numbers(frames, walk)
    &&& total >= w && 0 < walk.len() < w ==> exists|points: Seq<usize>|
        #[trigger] is_spread_in_steps(frames, points, w, walk[0] as int, walk.last() as int)
    &&& total < w || walk.len() > w || (walk.len() == 0 && w > 0) ==> exists|points: Seq<usize>|
        #[trigger] is_spread_in_steps(frames, points, w, 0, total - 1)
}

/// Law: which frames a GLM plan holds, of a source of any length. It is the walk
/// where that has the wanted number of frames; else equal steps over the walked
/// span, or over the whole clip where more were walked than wanted, or none, or
/// where there are fewer frames than wanted.
pub proof fn law_glm_plans_go_in_equal_steps(
    source: VideoSourceMeta,
    min_frames: usize,
    max_frames: usize,
    sample_fps: Binary32,
    max_duration: Binary64,
    d: FloatValue,
    w: int,
    stop: nat,
)
    requires
        source.total_frames > 0,
        source.original_fps@.is_known(),
        is_clip_length(source, d),
        is_wanted(d, max_frames, sample_fps, max_duration, w),
        stop == 0 || at_least(d, stop as int),
        stop < u64::MAX ==> !at_least(d, stop as int + 1),
        stop <= u64::MAX,
    ensures
        ({
            let glm = VideoSamplingStrategy::Glm5Next { max_duration };
            let frames = glm.planned(source, min_frames, max_frames, sample_fps);
            exists|walk: Seq<usize>|
                {
                    &&& #[trigger] laws::is_walk(
                        walk,
                        source.total_frames as int,
                        FloatValue::of(1).over(source.original_fps@),
                        FloatValue::of(1).over(sample_fps@),
                        FloatValue::of(stop as int),
                        0,
                        0,
                    )
                    &&& is_made_of(frames, walk, source.total_frames as int, w)
                }
        }),
{
    let total = source.total_frames as int;
    let glm = VideoSamplingStrategy::Glm5Next { max_duration };
    let frames = glm.planned(source, min_frames, max_frames, sample_fps);
    let walk = glm53_flash::clip_walk(source, sample_fps);
    lemma_wanted(source, max_frames, sample_fps, max_duration, d, w);
    lemma_index(d, u64::MAX as nat);
    let seconds = d.to_unsigned(u64::MAX as nat);
    if seconds < stop {
        lemma_at_least_ordered(d, seconds as int + 1, stop as int);
    }
    if stop < seconds {
        lemma_at_least_ordered(d, stop as int + 1, seconds as int);
    }
    assert(stop == seconds);
    laws::law_glm_walk_keeps_the_first_frame_at_each_threshold(source, sample_fps);
    let top = (source.total_frames - 1) as usize;
    let wanted = w as usize;
    let picked = if total < w {
        glm53_flash::linspace(0, total - 1, w)
    } else {
        walk
    };
    let whole = glm53_flash::fitted(picked, total, w);
    assert(frames == glm53_flash::evened(glm53_flash::first_occurrences(whole)));
    law_linspace_goes_in_equal_steps(0, top, wanted);
    if walk.len() > 0 {
        law_linspace_goes_in_equal_steps(walk.first(), walk.last(), wanted);
    }
    lemma_evened_holds_all(whole);
    assert(is_made_of(frames, walk, total, w)) by {
        if total < w {
            assert(whole == picked);
            assert(is_spread_in_steps(frames, whole, w, 0, total - 1));
        } else if walk.len() == w {
            assert(whole == walk);
        } else if 0 < walk.len() < w {
            assert(is_spread_in_steps(
                frames,
                whole,
                w,
                walk.first() as int,
                walk.last() as int,
            ));
        } else {
            assert(is_spread_in_steps(frames, whole, w, 0, total - 1));
        }
    }
}

/// Law: a clip with fewer frames than wanted is taken whole by a GLM plan: every
/// frame in turn, the last one twice where that makes the number even. (Where
/// frames times wanted ones stay below 2^50.)
pub proof fn law_glm_takes_short_clips_whole(
    source: VideoSourceMeta,
    min_frames: usize,
    max_frames: usize,
    sample_fps: Binary32,
    max_duration: Binary64,
    d: FloatValue,
    w: int,
)
    requires
        source.total_frames > 0,
        source.original_fps@.is_known(),
        is_clip_length(source, d),
        is_wanted(d, max_frames, sample_fps, max_duration, w),
        source.total_frames < w,
        source.total_frames * w <= pow2(50),
    ensures
        ({
            let glm = VideoSamplingStrategy::Glm5Next { max_duration };
            let frames = glm.planned(source, min_frames, max_frames, sample_fps);
            let total = source.total_frames as int;
            &&& frames.len() == total + total % 2
            &&& forall|i: int| 0 <= i < total ==> #[trigger] frames[i] == i
            &&& frames.last() == total - 1
        }),
{
    let total = source.total_frames as int;
    let glm = VideoSamplingStrategy::Glm5Next { max_duration };
    let frames = glm.planned(source, min_frames, max_frames, sample_fps);
    lemma_wanted(source, max_frames, sample_fps, max_duration, d, w);
    let top = (source.total_frames - 1) as usize;
    let points = glm53_flash::linspace(0, total - 1, w);
    assert(top * w <= pow2(50)) by (nonlinear_arith)
        requires
            top <= total,
            total * w <= pow2(50),
            w >= 0,
    ;
    assert(top <= pow2(50)) by (nonlinear_arith)
        requires
            top * w <= pow2(50),
            w >= 1,
    ;
    order::lemma_powers();
    lemma_pow2_unfold(52);
    lemma_pow2_unfold(51);
    law_linspace_is_evenly_spaced(0, top, w as usize);
    assert(glm53_flash::fitted(points, total, w) == points);
    lemma_evened_numbers(points);
    let d1 = w - 1;
    // Every frame is one of the points.
    assert forall|f: int| 0 <= f < total implies frames.contains(#[trigger] (f as usize)) by {
        if f == top {
            assert(points[d1] == top);
        } else {
            lemma_some_point_meets(points, top as int, f);
        }
        assert(points.contains(f as usize));
    }
    lemma_counting(frames, total, points);
}

/// Points that lie less than one apart meet every number between.
proof fn lemma_some_point_meets(points: Seq<usize>, top: int, f: int)
    requires
        0 <= f < top,
        points.len() >= 2,
        is_evenly_spaced(points, 0, top),
        top < points.len() - 1,
        f <= usize::MAX,
    ensures
        points.contains(f as usize),
{
    let d = points.len() - 1;
    // The first position past f, if only just.
    let i = (f * d) / top + 1;
    lemma_fundamental_div_mod(f * d, top);
    let k = (f * d) / top;
    assert(top * k == k * top && i * top == k * top + top) by (nonlinear_arith)
        requires
            i == k + 1,
    ;
    assert(0 <= f * d) by (nonlinear_arith)
        requires
            f >= 0,
            d >= 0,
    ;
    assert(k >= 0) by (nonlinear_arith)
        requires
            k * top + top > f * d,
            f * d >= 0,
            top > 0,
    ;
    assert(f * d < i * top <= f * d + top);
    assert((f + 1) * d == f * d + d) by (nonlinear_arith);
    assert(i * top < (f + 1) * d);
    assert(i < d) by (nonlinear_arith)
        requires
            i * top < (f + 1) * d,
            f + 1 <= top,
            top > 0,
            d > 0,
            i >= 0,
    ;
    let p = points[i];
    assert(0 * d == 0);
    assert(p * d <= i * top <= (p + 1) * d);
    assert(p == f) by (nonlinear_arith)
        requires
            p * d <= i * top <= (p + 1) * d,
            f * d < i * top < (f + 1) * d,
            d > 0,
    ;
}

/// Increasing frames that hold all numbers below `total` and no others are those
/// numbers.
proof fn lemma_counting(frames: Seq<usize>, total: int, points: Seq<usize>)
    requires
        0 < total <= usize::MAX,
        is_even_without_repeats(frames),
        same_numbers(frames, points),
        forall|i: int| 0 <= i < points.len() ==> #[trigger] points[i] < total,
        forall|f: int| 0 <= f < total ==> frames.contains(#[trigger] (f as usize)),
    ensures
        frames.len() == total + total % 2,
        forall|i: int| 0 <= i < total ==> #[trigger] frames[i] == i,
        frames.last() == total - 1,
{
    lemma_counting_up(frames, total, total);
    assert(frames.contains((total - 1) as usize));
    assert forall|i: int| 0 <= i < frames.len() implies #[trigger] frames[i] < total by {
        assert(frames.contains(frames[i]));
        let k = choose|k: int| 0 <= k < points.len() && points[k] == frames[i];
        assert(points[k] < total);
    }
    assert(frames[total - 1] == total - 1);
    if frames.len() > total {
        let n = frames.len();
        assert(frames[total] < total);
        assert(frames[total - 1] == frames[total]);
        assert(total - 1 == n - 2);
    }
}

proof fn lemma_counting_up(frames: Seq<usize>, total: int, n: int)
    requires
        0 <= n <= total <= usize::MAX,
        is_even_without_repeats(frames),
        forall|f: int| 0 <= f < total ==> frames.contains(#[trigger] (f as usize)),
    ensures
        frames.len() >= n,
        forall|i: int| 0 <= i < n ==> #[trigger] frames[i] == i,
    decreases n,
{
    if n > 0 {
        lemma_counting_up(frames, total, n - 1);
        let f = (n - 1) as usize;
        assert(frames.contains((n - 1) as usize));
        let k = choose|k: int| 0 <= k < frames.len() && frames[k] == f;
        assert(k >= n - 1) by {
            if k < n - 1 {
                assert(frames[k] == k);
            }
        }
        if k > n - 1 {
            // Something stands between the numbers below and this one.
            assert(frames[n - 1] <= f);
            if n - 1 > 0 {
                assert(frames[n - 2] == n - 2);
                assert(frames[n - 2] < frames[n - 1] || n - 2 == frames.len() - 2);
            }
        }
    }
}

} // verus!
