//! Per-model video frame sampling strategies.
//!
//! This module owns the generic `Uniform` sampling and the strategy dispatch;
//! model-specific index math lives next to its spec in `crate::registry`.
use crate::float::binary32::Binary32;
use crate::float::binary64::Binary64;
use crate::float::value::FloatValue;
use crate::registry::{glm53_flash, minimax_m3, qwen3_vl};
use vstd::prelude::*;

pub mod grid;
pub mod laws;
pub mod ties;

verus! {

/// Static facts about the source video that sampling strategies plan against.
#[derive(Debug, Clone, Copy)]
pub struct VideoSourceMeta {
    /// Total decodable frames reported by the demuxer.
    pub total_frames: usize,
    /// Source frame rate; `<= 0` or NaN marks it as unknown.
    pub original_fps: Binary64,
    /// Container/stream duration when known.
    pub duration_seconds: Option<Binary64>,
}

/// How frames are picked out of a source video.
#[derive(Debug, Clone, Copy, PartialEq)]
pub enum VideoSamplingStrategy {
    /// `round(duration * sample_fps)` frames on a floor-linspace grid. The default;
    /// applies to every model whose spec asks for nothing else.
    Uniform,
    /// What Qwen3-VL's video processor samples: an fps-scaled frame count,
    /// truncated, clamped to `[min_frames, min(max_frames, total_frames)]`, on a
    /// round-linspace grid (half-to-even ties).
    Qwen3Vl,
    /// What GLM-5-Next's video processor samples: a threshold walk at the sampling
    /// rate, brought to the wanted count and to an even one.
    Glm5Next {
        /// The duration in seconds that the count goes by at most; no cap where it
        /// is not positive.
        max_duration: Binary64,
    },
    /// A ceil-interval walk, one frame every `1 / sample_fps` seconds.
    MiniMaxM3,
}

impl Default for VideoSamplingStrategy {
    fn default() -> (r: VideoSamplingStrategy)
        ensures
            r == VideoSamplingStrategy::Uniform,
    {
        VideoSamplingStrategy::Uniform
    }
}

/// The frames to decode, as indices into the source video.
#[derive(Debug, Clone, PartialEq, Eq)]
pub struct FrameSamplingPlan {
    pub indices: Vec<usize>,
}

/// What `as usize` makes of a number.
pub open spec fn to_index(v: FloatValue) -> usize {
    v.to_unsigned(usize::MAX as nat) as usize
}

/// The number at position `i` of `count` evenly spaced ones from 0 to
/// `total - 1`.
pub open spec fn grid_point(total: int, count: int, i: int) -> FloatValue {
    FloatValue::of(i).times(FloatValue::of(total - 1)).over(FloatValue::of(count - 1))
}

/// How many frames a rate of `sample_fps` asks for, before rounding.
pub open spec fn scaled_count(source: VideoSourceMeta, sample_fps: Binary32) -> FloatValue {
    FloatValue::of(source.total_frames as int).over(source.original_fps@).times(sample_fps@)
}

/// How many frames uniform sampling takes: the scaled count, rounded, or
/// `max_frames` where the frame rate is unknown, clamped, and at least one.
pub open spec fn uniform_count(
    source: VideoSourceMeta,
    min_frames: usize,
    max_frames: usize,
    sample_fps: Binary32,
) -> usize {
    let target = if source.original_fps@.is_known() {
        to_index(scaled_count(source, sample_fps).round())
    } else {
        max_frames
    };
    let clamped = if target < min_frames {
        min_frames
    } else if target > max_frames {
        max_frames
    } else {
        target
    };
    if clamped == 0 {
        1
    } else {
        clamped
    }
}

/// `count` frames on a floor-linspace grid over `[0, total - 1]`.
pub open spec fn floor_grid(total: int, count: int) -> Seq<usize> {
    if count == 1 {
        seq![0usize]
    } else {
        Seq::new(count as nat, |i: int| to_index(grid_point(total, count, i).floor()))
    }
}

/// The frames that uniform sampling picks.
pub open spec fn uniform_indices(
    source: VideoSourceMeta,
    min_frames: usize,
    max_frames: usize,
    sample_fps: Binary32,
) -> Seq<usize> {
    if source.total_frames == 0 {
        Seq::empty()
    } else {
        floor_grid(
            source.total_frames as int,
            uniform_count(source, min_frames, max_frames, sample_fps) as int,
        )
    }
}

/// Round the fps-scaled frame count, clamp to `[min_frames, max_frames]`,
/// floor-linspace over `[0, total_frames - 1]`. Also the fallback for
/// model-specific strategies whose inputs are undefined (e.g. unknown source
/// fps).
pub fn uniform_frame_indices(
    source: &VideoSourceMeta,
    min_frames: usize,
    max_frames: usize,
    sample_fps: Binary32,
) -> (indices: Vec<usize>)
    requires
        source.total_frames > 0 ==> min_frames <= max_frames,
    ensures
        indices@ == uniform_indices(*source, min_frames, max_frames, sample_fps),
{
    let total_frames = source.total_frames;
    let mut indices: Vec<usize> = Vec::new();
    if total_frames == 0 {
        return indices;
    }
    let mut target_frames: usize = if source.original_fps.is_known() {
        let duration = Binary64::from_usize(total_frames).over(source.original_fps);
        duration.times(sample_fps.to_double()).round().to_usize()
    } else {
        max_frames
    };
    if target_frames < min_frames {
        target_frames = min_frames;
    } else if target_frames > max_frames {
        target_frames = max_frames;
    }
    if target_frames == 0 {
        target_frames = 1;
    }
    if target_frames == 1 {
        indices.push(0);
        return indices;
    }
    let last = Binary64::from_usize(total_frames - 1);
    let denom = Binary64::from_usize(target_frames - 1);
    let mut i: usize = 0;
    while i < target_frames
        invariant
            i <= target_frames,
            target_frames >= 2,
            total_frames >= 1,
            last@ == FloatValue::of(total_frames - 1),
            denom@ == FloatValue::of(target_frames - 1),
            indices@ == floor_grid(total_frames as int, target_frames as int).take(i as int),
        decreases target_frames - i,
    {
        let index = Binary64::from_usize(i).times(last).over(denom).floor().to_usize();
        indices.push(index);
        proof {
            let grid = floor_grid(total_frames as int, target_frames as int);
            assert(grid.take(i + 1) =~= grid.take(i as int).push(grid[i as int]));
        }
        i = i + 1;
    }
    proof {
        let grid = floor_grid(total_frames as int, target_frames as int);
        assert(grid.take(grid.len() as int) =~= grid);
    }
    indices
}

impl VideoSamplingStrategy {
    /// The uniform grid is used: by choice, or for want of a frame rate.
    pub open spec fn is_on_uniform_grid(self, source: VideoSourceMeta) -> bool {
        match self {
            VideoSamplingStrategy::Uniform => true,
            VideoSamplingStrategy::Qwen3Vl => !source.original_fps@.is_known(),
            VideoSamplingStrategy::Glm5Next { .. } => !source.original_fps@.is_known(),
            VideoSamplingStrategy::MiniMaxM3 => false,
        }
    }

    /// Whether a plan clamps to both bounds, which must then not cross.
    pub fn clamps(self, source: &VideoSourceMeta) -> (r: bool)
        ensures
            r == (source.total_frames > 0 && self.is_on_uniform_grid(*source)),
    {
        source.total_frames > 0 && match self {
            VideoSamplingStrategy::Uniform => true,
            VideoSamplingStrategy::Qwen3Vl => !source.original_fps.is_known(),
            VideoSamplingStrategy::Glm5Next { .. } => !source.original_fps.is_known(),
            VideoSamplingStrategy::MiniMaxM3 => false,
        }
    }

    /// The frames that the strategy picks.
    pub open spec fn planned(
        self,
        source: VideoSourceMeta,
        min_frames: usize,
        max_frames: usize,
        sample_fps: Binary32,
    ) -> Seq<usize> {
        match self {
            VideoSamplingStrategy::Uniform => uniform_indices(
                source,
                min_frames,
                max_frames,
                sample_fps,
            ),
            VideoSamplingStrategy::Qwen3Vl => qwen3_vl::qwen3_vl_indices(
                source,
                min_frames,
                max_frames,
                sample_fps,
            ),
            VideoSamplingStrategy::Glm5Next { max_duration } => glm53_flash::glm5_next_indices(
                source,
                min_frames,
                max_frames,
                sample_fps,
                max_duration,
            ),
            VideoSamplingStrategy::MiniMaxM3 => minimax_m3::minimax_m3_indices(source, sample_fps),
        }
    }

    /// Plan which source frames to decode. The uniform grid cannot clamp to
    /// bounds that cross.
    pub fn plan(
        self,
        source: &VideoSourceMeta,
        min_frames: usize,
        max_frames: usize,
        sample_fps: Binary32,
    ) -> (plan: FrameSamplingPlan)
        requires
            source.total_frames > 0 && self.is_on_uniform_grid(*source) ==> min_frames
                <= max_frames,
        ensures
            plan.indices@ == self.planned(*source, min_frames, max_frames, sample_fps),
    {
        let indices = match self {
            VideoSamplingStrategy::Uniform => {
                uniform_frame_indices(source, min_frames, max_frames, sample_fps)
            },
            VideoSamplingStrategy::Qwen3Vl => {
                qwen3_vl::qwen3_vl_frame_indices(source, min_frames, max_frames, sample_fps)
            },
            VideoSamplingStrategy::Glm5Next { max_duration } => {
                glm53_flash::glm5_next_frame_indices(
                    source,
                    min_frames,
                    max_frames,
                    sample_fps,
                    max_duration,
                )
            },
            VideoSamplingStrategy::MiniMaxM3 => {
                minimax_m3::minimax_m3_frame_indices(source, min_frames, max_frames, sample_fps)
            },
        };
        FrameSamplingPlan { indices }
    }
}

} // verus!
