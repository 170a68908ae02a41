//! GLM-5.3-Flash, and the GLM-5-Next checkpoints that share its layout.
use crate::encoder_inputs;
use crate::encoder_inputs::{to_count, PreprocessedEncoderInputs};
use crate::float::binary32::Binary32;
use crate::float::binary64::Binary64;
use crate::float::display;
use crate::float::value;
use crate::float::value::FloatValue;
use crate::json;
use crate::json::empty_object;
use crate::media::{VideoFetchConfig, TWO_BITS};
use crate::registry;
use crate::registry::{
    encode_for, grid_keys, no_layouts, with_layout, ModelMetadata, ModelProcessorSpec,
    ModelRegistryError, RegistryErrorView, RegistryResult, Tokenizer,
};
use crate::text;
use crate::text::{ascii_lowercase, has, same};
use crate::types;
use crate::types::{
    append_repeated, FieldLayout, FieldLayoutView, Modality, ModalityLimits, PlaceholderRange,
    PromptReplacement, PromptReplacementView, TokenId,
};
use crate::video_sampling;
use crate::video_sampling::{uniform_frame_indices, VideoSamplingStrategy, VideoSourceMeta};
use crate::vision::PreProcessorConfig;
use serde_json::Value;
use std::collections::HashSet;
use vstd::hash_map::StringHashMap;
use vstd::prelude::*;

verus! {

/// `num` numbers from `start` to `end`: float steps, then truncation, the last
/// one pinned to `end`.
pub open spec fn linspace(start: int, end: int, num: int) -> Seq<usize> {
    if num <= 0 {
        Seq::empty()
    } else if num == 1 {
        seq![start as usize]
    } else {
        let step = FloatValue::of(end - start).over(FloatValue::of(num - 1));
        Seq::new(
            num as nat,
            |i: int|
                if i == num - 1 {
                    end as usize
                } else {
                    video_sampling::to_index(
                        FloatValue::of(start).plus(FloatValue::of(i).times(step)),
                    )
                },
        )
    }
}

/// `num` numbers from `start` to `end`: float steps, then truncation toward zero
/// (equivalent to floor for these non-negative values). The last element is
/// pinned to `end` exactly: float step accumulation could otherwise truncate to
/// `end - 1`.
pub fn linspace_trunc(start: usize, end: usize, num: usize) -> (values: Vec<usize>)
    requires
        num > 1 ==> start <= end,
    ensures
        values@ == linspace(start as int, end as int, num as int),
{
    let mut values: Vec<usize> = Vec::new();
    if num == 0 {
        return values;
    }
    if num == 1 {
        values.push(start);
        return values;
    }
    let step = Binary64::from_usize(end - start).over(Binary64::from_usize(num - 1));
    let origin = Binary64::from_usize(start);
    let mut i: usize = 0;
    while i < num - 1
        invariant
            i <= num - 1,
            start <= end,
            num > 1,
            step@ == FloatValue::of(end - start).over(FloatValue::of(num - 1)),
            origin@ == FloatValue::of(start as int),
            values@ == linspace(start as int, end as int, num as int).take(i as int),
        decreases num - i,
    {
        values.push(origin.plus(Binary64::from_usize(i).times(step)).to_usize());
        proof {
            let all = linspace(start as int, end as int, num as int);
            assert(all.take(i + 1) =~= all.take(i as int).push(all[i as int]));
        }
        i = i + 1;
    }
    values.push(end);
    proof {
        let all = linspace(start as int, end as int, num as int);
        assert(all =~= all.take(num - 1).push(all[num - 1]));
    }
    values
}

/// The duration that sampling goes by: the container's where it is known, else
/// an estimate from the frame count.
pub open spec fn clip_duration(source: VideoSourceMeta) -> FloatValue {
    match source.duration_seconds {
        Some(duration) if duration@.is_known() => duration@,
        _ => FloatValue::of(source.total_frames - 1).over(
            source.original_fps@,
        ).round().plus(FloatValue::of(1)),
    }
}

/// How many frames are wanted: the duration, capped where a cap is set, times
/// the sampling rate, cut to an integer and capped by `max_frames`.
pub open spec fn wanted_count(
    source: VideoSourceMeta,
    max_frames: usize,
    sample_fps: Binary32,
    max_duration: Binary64,
) -> usize {
    let duration = clip_duration(source);
    let capped = if max_duration@.is_positive() && max_duration@.less(duration) {
        max_duration@
    } else {
        duration
    };
    let wanted = video_sampling::to_index(capped.times(sample_fps@));
    if wanted > max_frames {
        max_frames
    } else {
        wanted
    }
}

/// From `frame` on, the first frame at or after each threshold. The thresholds
/// start at `threshold` and lie `interval` apart; the walk ends with the frame
/// after which the threshold reaches `stop`.
pub open spec fn threshold_walk(
    total: int,
    frame_time: FloatValue,
    interval: FloatValue,
    stop: FloatValue,
    frame: int,
    threshold: FloatValue,
) -> Seq<usize>
    decreases total - frame,
{
    if frame >= total {
        Seq::empty()
    } else if threshold.at_most(FloatValue::of(frame).times(frame_time)) {
        let next = threshold.plus(interval);
        if stop.at_most(next) {
            seq![frame as usize]
        } else {
            seq![frame as usize] + threshold_walk(
                total,
                frame_time,
                interval,
                stop,
                frame + 1,
                next,
            )
        }
    } else {
        threshold_walk(total, frame_time, interval, stop, frame + 1, threshold)
    }
}

/// The walk over a whole clip: one threshold per sampling interval, up to the
/// whole seconds of the duration, which no cap applies to.
pub open spec fn clip_walk(source: VideoSourceMeta, sample_fps: Binary32) -> Seq<usize> {
    threshold_walk(
        source.total_frames as int,
        FloatValue::of(1).over(source.original_fps@),
        FloatValue::of(1).over(sample_fps@),
        FloatValue::of(clip_duration(source).to_unsigned(u64::MAX as nat) as int),
        0,
        FloatValue::zero(),
    )
}

/// The walked frames brought to the wanted count: too few are spread over their
/// own span, too many over the whole clip.
pub open spec fn fitted(walked: Seq<usize>, total: int, wanted: int) -> Seq<usize> {
    if walked.len() < wanted {
        if walked.len() > 0 {
            linspace(walked.first() as int, walked.last() as int, wanted)
        } else {
            linspace(0, total - 1, wanted)
        }
    } else if walked.len() > wanted {
        linspace(0, total - 1, wanted)
    } else {
        walked
    }
}

/// A sequence without what occurred before.
pub open spec fn first_occurrences(s: Seq<usize>) -> Seq<usize>
    decreases s.len(),
{
    if s.len() == 0 {
        s
    } else {
        let before = first_occurrences(s.drop_last());
        if before.contains(s.last()) {
            before
        } else {
            before.push(s.last())
        }
    }
}

/// A sequence of even length: the last element is repeated where that is needed.
pub open spec fn evened(s: Seq<usize>) -> Seq<usize> {
    if s.len() % 2 == 1 {
        s.push(s.last())
    } else {
        s
    }
}

/// The frames that GLM sampling picks.
pub open spec fn glm5_next_indices(
    source: VideoSourceMeta,
    min_frames: usize,
    max_frames: usize,
    sample_fps: Binary32,
    max_duration: Binary64,
) -> Seq<usize> {
    let total = source.total_frames as int;
    if total == 0 {
        Seq::empty()
    } else if !source.original_fps@.is_known() {
        video_sampling::uniform_indices(source, min_frames, max_frames, sample_fps)
    } else {
        let wanted = wanted_count(source, max_frames, sample_fps, max_duration) as int;
        let picked = if total < wanted {
            linspace(0, total - 1, wanted)
        } else {
            clip_walk(source, sample_fps)
        };
        evened(first_occurrences(fitted(picked, total, wanted)))
    }
}

/// The walk picks frames in increasing order.
pub proof fn lemma_walk_increases(
    total: int,
    frame_time: FloatValue,
    interval: FloatValue,
    stop: FloatValue,
    frame: int,
    threshold: FloatValue,
)
    requires
        0 <= frame,
        total <= usize::MAX,
    ensures
        ({
            let walk = threshold_walk(total, frame_time, interval, stop, frame, threshold);
            &&& forall|i: int| 0 <= i < walk.len() ==> frame <= #[trigger] walk[i] < total
            &&& forall|i: int, j: int| 0 <= i < j < walk.len() ==> walk[i] < walk[j]
        }),
    decreases total - frame,
{
    if frame < total {
        if threshold.at_most(FloatValue::of(frame).times(frame_time)) {
            let next = threshold.plus(interval);
            if !stop.at_most(next) {
                lemma_walk_increases(total, frame_time, interval, stop, frame + 1, next);
                let rest = threshold_walk(total, frame_time, interval, stop, frame + 1, next);
                let walk = threshold_walk(total, frame_time, interval, stop, frame, threshold);
                assert(walk == seq![frame as usize] + rest);
                assert forall|i: int| 0 <= i < walk.len() implies frame <= #[trigger] walk[i]
                    < total by {
                    if i > 0 {
                        assert(walk[i] == rest[i - 1]);
                    }
                }
                assert forall|i: int, j: int| 0 <= i < j < walk.len() implies walk[i]
                    < walk[j] by {
                    assert(walk[j] == rest[j - 1]);
                    if i > 0 {
                        assert(walk[i] == rest[i - 1]);
                    }
                }
            } else {
                let walk = threshold_walk(total, frame_time, interval, stop, frame, threshold);
                assert(walk == seq![frame as usize]);
            }
        } else {
            lemma_walk_increases(total, frame_time, interval, stop, frame + 1, threshold);
            let walk = threshold_walk(total, frame_time, interval, stop, frame, threshold);
            let rest = threshold_walk(total, frame_time, interval, stop, frame + 1, threshold);
            assert(walk == rest);
            assert forall|i: int| 0 <= i < walk.len() implies frame <= #[trigger] walk[i]
                    < total by {
                assert(walk[i] == rest[i]);
            }
        }
    }
}

fn walk_thresholds(
    total_frames: usize,
    frame_time: Binary64,
    interval: Binary64,
    stop: Binary64,
) -> (indices: Vec<usize>)
    ensures
        indices@ == threshold_walk(
            total_frames as int,
            frame_time@,
            interval@,
            stop@,
            0,
            FloatValue::zero(),
        ),
{
    let mut indices: Vec<usize> = Vec::new();
    let mut threshold = Binary64::signed_zero(false);
    let mut frame: usize = 0;
    let ghost all = threshold_walk(
        total_frames as int,
        frame_time@,
        interval@,
        stop@,
        0,
        FloatValue::zero(),
    );
    while frame < total_frames
        invariant
            frame <= total_frames,
            all == threshold_walk(
                total_frames as int,
                frame_time@,
                interval@,
                stop@,
                0,
                FloatValue::zero(),
            ),
            indices@ + threshold_walk(
                total_frames as int,
                frame_time@,
                interval@,
                stop@,
                frame as int,
                threshold@,
            ) =~= all,
        decreases total_frames - frame,
    {
        if threshold.at_most(Binary64::from_usize(frame).times(frame_time)) {
            threshold = threshold.plus(interval);
            indices.push(frame);
            if stop.at_most(threshold) {
                assert(indices@ =~= all);
                return indices;
            }
        }
        frame = frame + 1;
    }
    indices
}

/// Drops what occurred before.
fn without_repeats(s: &Vec<usize>) -> (r: Vec<usize>)
    ensures
        r@ == first_occurrences(s@),
{
    broadcast use vstd::std_specs::hash::group_hash_axioms;

    let mut seen: HashSet<usize> = HashSet::new();
    let mut r: Vec<usize> = Vec::new();
    let mut i: usize = 0;
    proof {
        assert(s@.take(0) =~= Seq::<usize>::empty());
    }
    while i < s.len()
        invariant
            i <= s.len(),
            r@ == first_occurrences(s@.take(i as int)),
            forall|x: usize| #[trigger] seen@.contains(x) <==> r@.contains(x),
        decreases s.len() - i,
    {
        broadcast use vstd::std_specs::hash::group_hash_axioms;

        let x = s[i];
        let ghost before = r@;
        proof {
            assert(s@.take(i + 1).drop_last() =~= s@.take(i as int));
        }
        if seen.insert(x) {
            r.push(x);
            proof {
                assert forall|y: usize| r@.contains(y) <==> before.contains(y) || y == x by {
                    if before.contains(y) {
                        let k = choose|k: int| 0 <= k < before.len() && before[k] == y;
                        assert(r@[k] == y);
                    }
                    if y == x {
                        assert(r@[before.len() as int] == y);
                    }
                }
            }
        }
        i = i + 1;
    }
    proof {
        assert(s@.take(s@.len() as int) =~= s@);
    }
    r
}

/// The frames of a clip for GLM: a target count `int(duration * fps)` capped by
/// `max_frames`, a threshold walk keeping the first frame at each `1 / fps`
/// boundary (stopping at `int(duration)` seconds), linspace pad/trim to the exact
/// count, dedup, and even-count padding by repeating the last frame.
///
/// `min_frames` only matters to the fallback: there is no minimum-frame clamp.
/// Falls back to [`uniform_frame_indices`] when the source frame rate is
/// unknown, where the formula is undefined.
pub fn glm5_next_frame_indices(
    source: &VideoSourceMeta,
    min_frames: usize,
    max_frames: usize,
    sample_fps: Binary32,
    max_duration: Binary64,
) -> (indices: Vec<usize>)
    requires
        source.total_frames > 0 && !source.original_fps@.is_known() ==> min_frames <= max_frames,
    ensures
        indices@ == glm5_next_indices(*source, min_frames, max_frames, sample_fps, max_duration),
{
    let total_frames = source.total_frames;
    if total_frames == 0 {
        return Vec::new();
    }
    if !source.original_fps.is_known() {
        return uniform_frame_indices(source, min_frames, max_frames, sample_fps);
    }
    let max_frame_idx: usize = total_frames - 1;
    let one = Binary64::from_u64(1);
    let duration = match source.duration_seconds {
        Some(duration) if duration.is_known() => duration,
        _ => Binary64::from_usize(max_frame_idx).over(source.original_fps).round().plus(one),
    };
    // The walk stops at the original duration's whole seconds, not the capped one.
    let max_seconds: u64 = duration.to_unsigned(u64::MAX);
    let capped = if max_duration.is_positive() && max_duration.less(duration) {
        max_duration
    } else {
        duration
    };
    let mut wanted: usize = capped.times(sample_fps.to_double()).to_usize();
    if wanted > max_frames {
        wanted = max_frames;
    }
    let mut frame_indices: Vec<usize> = if total_frames < wanted {
        linspace_trunc(0, max_frame_idx, wanted)
    } else {
        walk_thresholds(
            total_frames,
            one.over(source.original_fps),
            one.over(sample_fps.to_double()),
            Binary64::from_u64(max_seconds),
        )
    };
    if frame_indices.len() < wanted {
        let (start, end): (usize, usize) = if frame_indices.len() > 0 {
            (frame_indices[0], frame_indices[frame_indices.len() - 1])
        } else {
            (0, max_frame_idx)
        };
        proof {
            if total_frames >= wanted {
                lemma_walk_increases(
                    total_frames as int,
                    FloatValue::of(1).over(source.original_fps@),
                    FloatValue::of(1).over(sample_fps@),
                    FloatValue::of(max_seconds as int),
                    0,
                    FloatValue::zero(),
                );
            }
        }
        frame_indices = linspace_trunc(start, end, wanted);
    } else if frame_indices.len() > wanted {
        frame_indices = linspace_trunc(0, max_frame_idx, wanted);
    }
    let mut uniq = without_repeats(&frame_indices);
    if uniq.len() % 2 == 1 {
        let last = uniq[uniq.len() - 1];
        uniq.push(last);
    }
    uniq
}

/// The order in which a prompt's media parts are rendered.
#[derive(Debug, Clone, Copy, PartialEq, Eq, Structural)]
pub enum MediaPartOrder {
    /// As the author of the message put them.
    Authored,
}

/// GLM-5.3-Flash vision spec.
///
/// A video is one `<|begin_of_image|>` .. `<|end_of_image|>` block per temporal
/// frame, each followed by its time; its features carry the image's id.
pub struct Glm53FlashSpec;

/// The error for what the preprocessor handed over.
pub open spec fn invalid(field: Seq<char>) -> RegistryErrorView {
    RegistryErrorView::InvalidPreprocessedField { field }
}

/// The id of a feature: the one that the configuration declares.
pub open spec fn feature_id<T: Tokenizer>(metadata: ModelMetadata<T>) -> Result<
    TokenId,
    RegistryErrorView,
> {
    match metadata.number("image_token_id"@) {
        Some(id) => Ok(id as TokenId),
        None => Err(RegistryErrorView::MissingConfigField { field: "image_token_id"@ }),
    }
}

/// Whether a tensor is a grid: one row of three per video, each row led by a
/// count.
pub open spec fn is_grid(data: Seq<i64>, shape: Seq<usize>) -> bool {
    &&& shape.len() == 2
    &&& shape[1] == 3
    &&& data.len() == shape[0] * 3
    &&& forall|row: int|
        0 <= row < shape[0] ==> encoder_inputs::as_count(#[trigger] data[row * 3]) is Some
}

/// The temporal depth of each video of a request.
pub open spec fn grid_depths(input: PreprocessedEncoderInputs) -> Result<
    Seq<usize>,
    RegistryErrorView,
> {
    match input.integers_at("video_grid_thw"@) {
        Some((data, shape)) => if is_grid(data, shape) {
            Ok(Seq::new(shape[0] as nat, |row: int| data[row * 3] as usize))
        } else {
            Err(invalid("video_grid_thw"@))
        },
        None => Err(invalid("video_grid_thw"@)),
    }
}

/// The time of temporal frame `i`, in single precision.
pub open spec fn frame_seconds(seconds: FloatValue, i: int) -> FloatValue {
    value::single().times(value::single().from_int(i), seconds)
}

/// A timestamp.
pub open spec fn timestamp(seconds: FloatValue) -> Seq<char> {
    display::one_decimal(seconds) + " seconds"@
}

/// One temporal frame: its features between the markers, then its time.
pub open spec fn frame_block<T: Tokenizer>(
    metadata: ModelMetadata<T>,
    begin: TokenId,
    feature: TokenId,
    per_grid: nat,
    end: TokenId,
    seconds: FloatValue,
) -> spec_fn(int) -> Result<Seq<TokenId>, RegistryErrorView> {
    |i: int|
        match registry::text_ids(
            *metadata.tokenizer,
            "glm53_flash"@,
            timestamp(frame_seconds(seconds, i)),
        ) {
            Ok(ids) => Ok(seq![begin] + types::repeated(feature, per_grid) + seq![end] + ids),
            Err(e) => Err(e),
        }
}

/// Where the features lie: in each frame's block, after its first token.
pub open spec fn frame_ranges(blocks: Seq<Seq<TokenId>>, per_grid: usize) -> Seq<
    PlaceholderRange,
> {
    Seq::new(
        blocks.len(),
        |i: int|
            PlaceholderRange {
                offset: (registry::joined(blocks.take(i)).len() + 1) as usize,
                length: per_grid,
            },
    )
}

/// What one video is replaced by.
pub open spec fn framed<T: Tokenizer>(
    metadata: ModelMetadata<T>,
    begin: TokenId,
    feature: TokenId,
    end: TokenId,
    seconds: FloatValue,
    count: usize,
    grid_t: usize,
) -> Result<PromptReplacementView, RegistryErrorView> {
    if grid_t == 0 || count % grid_t != 0 {
        Err(invalid("video_grid_thw temporal token layout"@))
    } else {
        let per_grid = count / grid_t;
        match registry::collected(
            frame_block(metadata, begin, feature, per_grid as nat, end, seconds),
            grid_t as nat,
        ) {
            Err(e) => Err(e),
            Ok(blocks) => Ok(
                PromptReplacementView {
                    feature_ranges: Some(frame_ranges(blocks, per_grid)),
                    ..PromptReplacementView::plain(
                        Modality::Video,
                        "<|video|>"@,
                        registry::joined(blocks),
                    )
                },
            ),
        }
    }
}

/// What each video is replaced by.
pub open spec fn video_item<T: Tokenizer>(
    metadata: ModelMetadata<T>,
    begin: TokenId,
    feature: TokenId,
    end: TokenId,
    seconds: FloatValue,
    counts: Seq<usize>,
    grids: Seq<usize>,
) -> spec_fn(int) -> Result<PromptReplacementView, RegistryErrorView> {
    |i: int| framed(metadata, begin, feature, end, seconds, counts[i], grids[i])
}

/// What images are replaced by.
pub open spec fn image_replacements<T: Tokenizer>(
    metadata: ModelMetadata<T>,
    input: PreprocessedEncoderInputs,
) -> Result<Seq<PromptReplacementView>, RegistryErrorView> {
    let counts = input.feature_token_counts@;
    match feature_id(metadata) {
        Err(e) => Err(e),
        Ok(id) => Ok(
            Seq::new(
                counts.len(),
                |i: int|
                    PromptReplacementView::plain(
                        Modality::Image,
                        "<|image|>"@,
                        types::repeated(id, counts[i] as nat),
                    ),
            ),
        ),
    }
}

/// What videos are replaced by. What the preprocessor always emits and is not
/// there is an error: a default would put wrong times into the prompt.
pub open spec fn video_replacements<T: Tokenizer>(
    metadata: ModelMetadata<T>,
    input: PreprocessedEncoderInputs,
) -> Result<Seq<PromptReplacementView>, RegistryErrorView> {
    let counts = input.feature_token_counts@;
    match grid_depths(input) {
        Err(e) => Err(e),
        Ok(grids) => if grids.len() != counts.len() {
            Err(invalid("video_grid_thw item count"@))
        } else {
            match feature_id(metadata) {
                Err(e) => Err(e),
                Ok(feature) => match metadata.vocabulary_id("<|begin_of_image|>"@) {
                    Err(e) => Err(e),
                    Ok(begin) => match metadata.vocabulary_id("<|end_of_image|>"@) {
                        Err(e) => Err(e),
                        Ok(end) => match input.first_number_at("video_second_per_grid"@) {
                            None => Err(invalid("video_second_per_grid"@)),
                            Some(seconds) => registry::collected(
                                video_item(
                                    metadata,
                                    begin,
                                    feature,
                                    end,
                                    seconds@,
                                    counts,
                                    grids,
                                ),
                                counts.len(),
                            ),
                        },
                    },
                },
            }
        },
    }
}

/// Whether a checkpoint is laid out as GLM-5.3-Flash is.
pub open spec fn is_glm53_flash<T: Tokenizer>(metadata: ModelMetadata<T>) -> bool {
    let id = text::lowered(metadata.model_id@);
    let model_type = metadata.model_type();
    ||| model_type == Some("glm53_flash"@)
    ||| model_type == Some("glm5_next"@)
    ||| text::contains(id, "glm-5.3-flash"@)
    ||| text::contains(id, "glm5.3-flash"@)
    ||| text::contains(id, "glm-5-next"@)
    ||| text::contains(id, "glm5-next"@)
}

/// How GLM videos are sampled: twice a second, up to 2048 frames and without a
/// limit on the duration, unless the checkpoint says otherwise.
pub open spec fn fetch_config(config: Option<&PreProcessorConfig>) -> VideoFetchConfig {
    VideoFetchConfig {
        min_frames: 1,
        max_frames: match config {
            Some(c) => match c.count_at("max_frames"@) {
                Some(n) => n,
                None => 2048,
            },
            None => 2048,
        },
        sample_fps: match config {
            Some(c) => match c.single_at("fps"@) {
                Some(fps) => fps,
                None => Binary32 { bits: TWO_BITS },
            },
            None => Binary32 { bits: TWO_BITS },
        },
        strategy: VideoSamplingStrategy::Glm5Next {
            max_duration: match config {
                Some(c) => match c.double_at("max_duration"@) {
                    Some(seconds) => seconds,
                    None => Binary64 { bits: 0 },
                },
                None => Binary64 { bits: 0 },
            },
        },
        max_long_side_pixel: None,
    }
}

/// What a checkpoint can serve: images where it declares their id, videos where
/// its vocabulary also has both frame markers.
pub open spec fn limits<T: Tokenizer>(metadata: ModelMetadata<T>) -> ModalityLimits {
    let images = feature_id(metadata) is Ok;
    let videos = images && metadata.vocabulary_id("<|begin_of_image|>"@) is Ok
        && metadata.vocabulary_id("<|end_of_image|>"@) is Ok;
    ModalityLimits {
        image: if images {
            Some(10)
        } else {
            None
        },
        audio: None,
        video: if videos {
            Some(1)
        } else {
            None
        },
    }
}

/// The tensors' layouts: pixels are flat over patches, the rest has one row per
/// item.
pub open spec fn tensor_layouts() -> Map<Seq<char>, FieldLayoutView> {
    Map::<Seq<char>, FieldLayoutView>::empty().insert(
        "pixel_values"@,
        FieldLayoutView::Flat { sizes_key: "patches_per_image"@ },
    ).insert("image_grid_thw"@, FieldLayoutView::Batched).insert(
        "video_grid_thw"@,
        FieldLayoutView::Batched,
    ).insert("patches_per_image"@, FieldLayoutView::Batched).insert(
        "patches_per_video"@,
        FieldLayoutView::Batched,
    ).insert("video_second_per_grid"@, FieldLayoutView::Batched)
}

fn timestamp_text(seconds: Binary64) -> (r: String)
    ensures
        r@ == timestamp(seconds@),
{
    let mut r = String::new();
    seconds.append_one_decimal(&mut r);
    r.append(" seconds");
    proof {
        assert(r@ =~= timestamp(seconds@));
    }
    r
}

fn invalid_field(field: &str) -> (e: ModelRegistryError)
    ensures
        e@ == invalid(field@),
{
    ModelRegistryError::InvalidPreprocessedField { field: field.to_owned() }
}

impl Glm53FlashSpec {
    pub fn image_id<T: Tokenizer>(metadata: &ModelMetadata<T>) -> (r: RegistryResult<TokenId>)
        ensures
            registry::viewed(r) == feature_id(*metadata),
    {
        match metadata.config_field("image_token_id") {
            Some(id) => Ok(id as TokenId),
            None => Err(
                ModelRegistryError::MissingConfigField { field: "image_token_id".to_owned() },
            ),
        }
    }

    pub fn encode<T: Tokenizer>(metadata: &ModelMetadata<T>, text: &str) -> (r: RegistryResult<
        Vec<TokenId>,
    >)
        ensures
            registry::viewed(r) == registry::text_ids(*metadata.tokenizer, "glm53_flash"@, text@),
    {
        encode_for(metadata.tokenizer, "glm53_flash", text)
    }

    /// The temporal depth of each video, from `video_grid_thw`.
    pub fn video_grid_t(input: &PreprocessedEncoderInputs) -> (r: RegistryResult<Vec<usize>>)
        ensures
            registry::viewed(r) == grid_depths(*input),
    {
        let (data, shape) = match input.int_tensor("video_grid_thw") {
            Some(pair) => pair,
            None => return Err(invalid_field("video_grid_thw")),
        };
        if shape.len() != 2 || shape[1] != 3 || data.len() % 3 != 0 || data.len() / 3 != shape[0] {
            return Err(invalid_field("video_grid_thw"));
        }
        let rows: usize = shape[0];
        let mut depths: Vec<usize> = Vec::new();
        let mut row: usize = 0;
        while row < rows
            invariant
                row <= rows,
                input.integers_at("video_grid_thw"@) == Some((data@, shape@)),
                shape@.len() == 2,
                shape@[1] == 3,
                shape@[0] == rows,
                data@.len() == rows * 3 <= usize::MAX,
                depths@.len() == row,
                forall|j: int|
                    0 <= j < row ==> encoder_inputs::as_count(#[trigger] data@[j * 3]) is Some,
                forall|j: int| 0 <= j < row ==> #[trigger] depths@[j] == data@[j * 3] as usize,
            decreases rows - row,
        {
            match to_count(data[row * 3]) {
                Some(depth) => depths.push(depth),
                None => {
                    proof {
                        let at = row as int;
                        assert(encoder_inputs::as_count(data@[at * 3]) is None);
                        assert(!is_grid(data@, shape@));
                    }
                    return Err(invalid_field("video_grid_thw"));
                },
            }
            row = row + 1;
        }
        proof {
            assert(is_grid(data@, shape@));
            assert(depths@ =~= grid_depths(*input)->Ok_0);
        }
        Ok(depths)
    }

    pub fn unsupported(modality: Modality) -> (e: ModelRegistryError)
        ensures
            e@ == registry::unsupported("glm53_flash"@, modality),
    {
        ModelRegistryError::UnsupportedModality { spec: "glm53_flash", modality }
    }

    /// Media parts stay where the author put them.
    pub fn media_part_order(&self) -> (order: MediaPartOrder)
        ensures
            order == MediaPartOrder::Authored,
    {
        MediaPartOrder::Authored
    }

    fn video_replacement<T: Tokenizer>(
        metadata: &ModelMetadata<T>,
        begin: TokenId,
        image_id: TokenId,
        end: TokenId,
        seconds: Binary32,
        count: usize,
        grid_t: usize,
    ) -> (r: RegistryResult<PromptReplacement>)
        ensures
            registry::viewed(r) == framed(
                *metadata,
                begin,
                image_id,
                end,
                seconds@,
                count,
                grid_t,
            ),
    {
        if grid_t == 0 || count % grid_t != 0 {
            return Err(invalid_field("video_grid_thw temporal token layout"));
        }
        let per_grid: usize = count / grid_t;
        let mut tokens: Vec<TokenId> = Vec::new();
        let mut ranges: Vec<PlaceholderRange> = Vec::new();
        let mut index: usize = 0;
        let ghost f = frame_block(*metadata, begin, image_id, per_grid as nat, end, seconds@);
        let ghost mut blocks: Seq<Seq<TokenId>> = Seq::empty();
        proof {
            assert(frame_ranges(blocks, per_grid) =~= Seq::empty());
        }
        while index < grid_t
            invariant
                index <= grid_t,
                !(grid_t == 0 || count % grid_t != 0),
                per_grid == count / grid_t,
                f == frame_block(*metadata, begin, image_id, per_grid as nat, end, seconds@),
                registry::collected(f, index as nat) == Ok::<
                    Seq<Seq<TokenId>>,
                    RegistryErrorView,
                >(blocks),
                blocks.len() == index,
                tokens@ == registry::joined(blocks),
                ranges@ == frame_ranges(blocks, per_grid),
            decreases grid_t - index,
        {
            let ghost before = tokens@;
            tokens.push(begin);
            ranges.push(PlaceholderRange { offset: tokens.len(), length: per_grid });
            append_repeated(&mut tokens, image_id, per_grid);
            tokens.push(end);
            let time = Binary32::from_usize(index).times(seconds);
            let text = timestamp_text(time.to_double());
            match Self::encode(metadata, text.as_str()) {
                Ok(ids) => {
                    let ghost next = seq![begin] + types::repeated(image_id, per_grid as nat)
                        + seq![end] + ids@;
                    let mut ids = ids;
                    tokens.append(&mut ids);
                    proof {
                        assert(tokens@ =~= before + next);
                        assert(f(index as int) == Ok::<Seq<TokenId>, RegistryErrorView>(next));
                        let more = blocks.push(next);
                        assert(more.drop_last() =~= blocks);
                        assert forall|i: int| 0 <= i < blocks.len() implies #[trigger] more.take(i)
                            == blocks.take(i) by {
                            assert(more.take(i) =~= blocks.take(i));
                        }
                        assert(more.take(blocks.len() as int) =~= blocks);
                        assert(frame_ranges(more, per_grid) =~= frame_ranges(blocks, per_grid).push(
                            ranges@.last(),
                        ));
                        blocks = more;
                    }
                },
                Err(e) => {
                    proof {
                        assert(f(index as int) == Err::<Seq<TokenId>, RegistryErrorView>(e@));
                        registry::lemma_first_error(f, (index + 1) as nat, grid_t as nat);
                    }
                    return Err(e);
                },
            }
            index = index + 1;
        }
        Ok(
            PromptReplacement::sequence(Modality::Video, "<|video|>", tokens).with_feature_ranges(
                ranges,
            ),
        )
    }

    fn video_replacements_of<T: Tokenizer>(
        metadata: &ModelMetadata<T>,
        input: &PreprocessedEncoderInputs,
    ) -> (r: RegistryResult<Vec<PromptReplacement>>)
        ensures
            registry::replacements_viewed(r) == video_replacements(*metadata, *input),
            r matches Ok(all) ==> all@.len() == input.feature_token_counts@.len(),
            r matches Ok(all) ==> registry::all_of(all@, Modality::Video),
    {
        let grids = match Self::video_grid_t(input) {
            Ok(grids) => grids,
            Err(e) => return Err(e),
        };
        let counts = &input.feature_token_counts;
        if grids.len() != counts.len() {
            return Err(invalid_field("video_grid_thw item count"));
        }
        let image_id = match Self::image_id(metadata) {
            Ok(id) => id,
            Err(e) => return Err(e),
        };
        let begin = match metadata.token_id("<|begin_of_image|>") {
            Ok(id) => id,
            Err(e) => return Err(e),
        };
        let end = match metadata.token_id("<|end_of_image|>") {
            Ok(id) => id,
            Err(e) => return Err(e),
        };
        // The paired vision processor always emits this; a missing or
        // wrongly-typed value means the pipeline is broken, and defaulting would
        // silently caption every frame with wrong timestamps while the grid field
        // next to it fails loudly.
        let seconds = match input.first_number("video_second_per_grid") {
            Some(seconds) => seconds,
            None => return Err(invalid_field("video_second_per_grid")),
        };
        let mut all: Vec<PromptReplacement> = Vec::new();
        let mut i: usize = 0;
        let ghost f = video_item(*metadata, begin, image_id, end, seconds@, counts@, grids@);
        proof {
            assert(registry::views(all@) =~= Seq::empty());
            assert(video_replacements(*metadata, *input) == registry::collected(f, counts@.len()));
        }
        while i < counts.len()
            invariant
                i <= counts.len(),
                grids.len() == counts.len(),
                f == video_item(*metadata, begin, image_id, end, seconds@, counts@, grids@),
                video_replacements(*metadata, *input) == registry::collected(f, counts@.len()),
                all@.len() == i,
                registry::all_of(all@, Modality::Video),
                registry::collected(f, i as nat) == Ok::<
                    Seq<PromptReplacementView>,
                    RegistryErrorView,
                >(registry::views(all@)),
            decreases counts.len() - i,
        {
            match Self::video_replacement(
                metadata,
                begin,
                image_id,
                end,
                seconds,
                counts[i],
                grids[i],
            ) {
                Ok(one) => {
                    let ghost before = registry::views(all@);
                    all.push(one);
                    proof {
                        assert(registry::views(all@) =~= before.push(one@));
                    }
                },
                Err(e) => {
                    proof {
                        assert(f(i as int) == Err::<PromptReplacementView, RegistryErrorView>(e@));
                        registry::lemma_first_error(f, (i + 1) as nat, counts@.len());
                    }
                    return Err(e);
                },
            }
            i = i + 1;
        }
        Ok(all)
    }
}

impl ModelProcessorSpec for Glm53FlashSpec {
    open spec fn family(&self) -> Seq<char> {
        "glm53_flash"@
    }

    fn name(&self) -> (name: &'static str) {
        "glm53_flash"
    }

    fn matches<T: Tokenizer>(&self, metadata: &ModelMetadata<T>) -> (r: bool)
        ensures
            r == is_glm53_flash(*metadata),
    {
        let id = ascii_lowercase(metadata.model_id);
        if let Some(model_type) = metadata.config_model_type() {
            if same(model_type, "glm53_flash") || same(model_type, "glm5_next") {
                return true;
            }
        }
        has(&id, "glm-5.3-flash") || has(&id, "glm5.3-flash") || has(&id, "glm-5-next") || has(
            &id,
            "glm5-next",
        )
    }

    fn placeholder_token<T: Tokenizer>(&self, metadata: &ModelMetadata<T>) -> (r: RegistryResult<
        String,
    >)
        ensures
            registry::viewed(r) == Ok::<Seq<char>, RegistryErrorView>("<|image|>"@),
    {
        Ok("<|image|>".to_owned())
    }

    fn placeholder_token_id<T: Tokenizer>(&self, metadata: &ModelMetadata<T>) -> (r: RegistryResult<
        TokenId,
    >)
        ensures
            registry::viewed(r) == feature_id(*metadata),
    {
        Self::image_id(metadata)
    }

    fn placeholder_token_for<T: Tokenizer>(
        &self,
        metadata: &ModelMetadata<T>,
        modality: Modality,
    ) -> (r: RegistryResult<String>)
        ensures
            registry::viewed(r) == (match modality {
                Modality::Image => Ok("<|image|>"@),
                Modality::Video => Ok("<|video|>"@),
                Modality::Audio => Err(registry::unsupported("glm53_flash"@, modality)),
            }),
    {
        match modality {
            Modality::Image => Ok("<|image|>".to_owned()),
            Modality::Video => Ok("<|video|>".to_owned()),
            Modality::Audio => Err(Self::unsupported(modality)),
        }
    }

    fn placeholder_token_id_for<T: Tokenizer>(
        &self,
        metadata: &ModelMetadata<T>,
        modality: Modality,
    ) -> (r: RegistryResult<TokenId>)
        ensures
            registry::viewed(r) == (match modality {
                Modality::Image => feature_id(*metadata),
                Modality::Video => feature_id(*metadata),
                Modality::Audio => Err(registry::unsupported("glm53_flash"@, modality)),
            }),
    {
        match modality {
            Modality::Image => Self::image_id(metadata),
            Modality::Video => Self::image_id(metadata),
            Modality::Audio => Err(Self::unsupported(modality)),
        }
    }

    fn modality_limits<T: Tokenizer>(&self, metadata: &ModelMetadata<T>) -> (r: RegistryResult<
        ModalityLimits,
    >)
        ensures
            r == Ok::<ModalityLimits, ModelRegistryError>(limits(*metadata)),
    {
        // Advertise only what the checkpoint can serve, so an incapable derivative
        // is rejected up front instead of after a full media fetch and preprocess.
        let mut limits = ModalityLimits { image: None, audio: None, video: None };
        if Self::image_id(metadata).is_ok() {
            limits.image = Some(10);
            if metadata.token_id("<|begin_of_image|>").is_ok() && metadata.token_id(
                "<|end_of_image|>",
            ).is_ok() {
                limits.video = Some(1);
            }
        }
        Ok(limits)
    }

    fn processor_kwargs<T: Tokenizer>(&self, metadata: &ModelMetadata<T>) -> (r: RegistryResult<
        Value,
    >)
        ensures
            r matches Ok(v) && json::json_contents(v) == json::nothing_but_an_object(),
    {
        Ok(empty_object())
    }

    fn video_fetch_config(&self, video_preprocessor_config: Option<&PreProcessorConfig>) -> (r:
        VideoFetchConfig)
        ensures
            r == fetch_config(video_preprocessor_config),
    {
        let mut max_frames: usize = 2048;
        let mut sample_fps = Binary32 { bits: TWO_BITS };
        let mut max_duration = Binary64 { bits: 0 };
        if let Some(config) = video_preprocessor_config {
            if let Some(n) = config.get_extra_count("max_frames") {
                max_frames = n;
            }
            if let Some(fps) = config.get_extra_single("fps") {
                sample_fps = fps;
            }
            if let Some(seconds) = config.get_extra_double("max_duration") {
                max_duration = seconds;
            }
        }
        VideoFetchConfig {
            // There is no minimum-frame clamp; one keeps config validation
            // satisfied.
            min_frames: 1,
            max_frames,
            sample_fps,
            strategy: VideoSamplingStrategy::Glm5Next { max_duration },
            max_long_side_pixel: None,
        }
    }

    fn prompt_replacements<T: Tokenizer>(
        &self,
        metadata: &ModelMetadata<T>,
        preprocessed: &PreprocessedEncoderInputs,
    ) -> (r: RegistryResult<Vec<PromptReplacement>>)
        ensures
            registry::replacements_viewed(r) == image_replacements(*metadata, *preprocessed),
    {
        let id = match Self::image_id(metadata) {
            Ok(id) => id,
            Err(e) => return Err(e),
        };
        let counts = &preprocessed.feature_token_counts;
        let mut all: Vec<PromptReplacement> = Vec::new();
        let mut i: usize = 0;
        while i < counts.len()
            invariant
                i <= counts.len(),
                counts == &preprocessed.feature_token_counts,
                all@.len() == i,
                registry::all_of(all@, Modality::Image),
                forall|j: int|
                    0 <= j < i ==> #[trigger] all@[j]@ == PromptReplacementView::plain(
                        Modality::Image,
                        "<|image|>"@,
                        types::repeated(id, counts@[j] as nat),
                    ),
            decreases counts.len() - i,
        {
            all.push(PromptReplacement::repeated(Modality::Image, "<|image|>", id, counts[i]));
            i = i + 1;
        }
        proof {
            assert(registry::views(all@) =~= image_replacements(*metadata, *preprocessed)->Ok_0);
        }
        Ok(all)
    }

    fn prompt_replacements_for<T: Tokenizer>(
        &self,
        metadata: &ModelMetadata<T>,
        preprocessed: &PreprocessedEncoderInputs,
        modality: Modality,
    ) -> (r: RegistryResult<Vec<PromptReplacement>>)
        ensures
            registry::replacements_viewed(r) == (match modality {
                Modality::Image => image_replacements(*metadata, *preprocessed),
                Modality::Video => video_replacements(*metadata, *preprocessed),
                Modality::Audio => Err(registry::unsupported("glm53_flash"@, modality)),
            }),
    {
        match modality {
            Modality::Image => self.prompt_replacements(metadata, preprocessed),
            Modality::Video => Self::video_replacements_of(metadata, preprocessed),
            Modality::Audio => Err(Self::unsupported(modality)),
        }
    }

    fn field_layouts(&self) -> (r: StringHashMap<FieldLayout>)
        ensures
            registry::layouts(r@) == tensor_layouts(),
    {
        let r = no_layouts();
        let r = with_layout(r, "pixel_values", FieldLayout::flat("patches_per_image"));
        let r = with_layout(r, "image_grid_thw", FieldLayout::Batched);
        let r = with_layout(r, "video_grid_thw", FieldLayout::Batched);
        let r = with_layout(r, "patches_per_image", FieldLayout::Batched);
        let r = with_layout(r, "patches_per_video", FieldLayout::Batched);
        with_layout(r, "video_second_per_grid", FieldLayout::Batched)
    }

    fn keep_on_cpu_keys(&self) -> (keys: Vec<String>) {
        grid_keys()
    }
}

} // verus!
